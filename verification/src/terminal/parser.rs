//! What a byte stream means.

use vstd::prelude::*;
use crate::terminal::grid;
use crate::terminal::grid::{EventView, TermEvent};

verus! {

/// The parameters of a control sequence, as `vte` hands them out.
#[verifier::external_type_specification]
#[verifier::external_body]
pub struct ExParams(vte::Params);

/// The values of parameters: each has one and may have more behind colons.
pub uninterp spec fn params_held(p: vte::Params) -> Seq<Seq<u16>>;

/// `vte::Params::iter` hands out the parameters in order, each with its values.
#[verifier::external_body]
fn params_of(p: &vte::Params) -> (r: Vec<Vec<u16>>)
    ensures
        grid::param_views(r@) == params_held(*p),
{
    p.iter().map(|values| values.to_vec()).collect()
}

/// The events that a parser tells of.
pub struct Collector {
    pub events: Vec<TermEvent>,
}

impl vte::Perform for Collector {
    fn print(&mut self, c: char)
        ensures
            grid::event_views(final(self).events@) == grid::event_views(old(self).events@).push(
                EventView::Print(c),
            ),
    {
        let ghost before = grid::event_views(self.events@);
        self.events.push(TermEvent::Print(c));
        proof {
            assert(grid::event_views(self.events@) =~= before.push(EventView::Print(c)));
        }
    }

    fn execute(&mut self, byte: u8)
        ensures
            grid::event_views(final(self).events@) == grid::event_views(old(self).events@).push(
                EventView::Execute(byte),
            ),
    {
        let ghost before = grid::event_views(self.events@);
        self.events.push(TermEvent::Execute(byte));
        proof {
            assert(grid::event_views(self.events@) =~= before.push(EventView::Execute(byte)));
        }
    }

    fn csi_dispatch(&mut self, params: &vte::Params, _intermediates: &[u8], _ignore: bool, action: char)
        ensures
            grid::event_views(final(self).events@) == grid::event_views(old(self).events@).push(
                EventView::Csi { params: params_held(*params), action },
            ),
    {
        let ghost before = grid::event_views(self.events@);
        let params = params_of(params);
        let ghost held = grid::param_views(params@);
        self.events.push(TermEvent::Csi { params, action });
        proof {
            assert(grid::event_views(self.events@) =~= before.push(
                EventView::Csi { params: held, action },
            ));
        }
    }
}

/// The parser of `vte`.
#[verifier::external_body]
pub struct ByteParser {
    inner: vte::Parser,
}

/// The bytes that a parser got since it was made.
pub uninterp spec fn bytes_fed(p: ByteParser) -> Seq<u8>;

/// What the parser of `vte` tells of a byte, where `prior` are the bytes that it
/// got before.
pub uninterp spec fn read_after(prior: Seq<u8>, byte: u8) -> Seq<EventView>;

impl ByteParser {
    /// `vte::Parser::new` makes a parser that has got no bytes.
    #[verifier::external_body]
    pub(crate) fn new() -> (r: Self)
        ensures
            bytes_fed(r) == Seq::<u8>::empty(),
    {
        ByteParser { inner: vte::Parser::new() }
    }

    /// `vte::Parser::advance` reads a byte, and tells what it means. That is
    /// decided by the bytes that it got, this one and those before.
    #[verifier::external_body]
    pub(crate) fn feed(&mut self, byte: u8) -> (r: Vec<TermEvent>)
        ensures
            grid::event_views(r@) == read_after(bytes_fed(*old(self)), byte),
            bytes_fed(*final(self)) == bytes_fed(*old(self)).push(byte),
    {
        let mut told = Collector { events: Vec::new() };
        self.inner.advance(&mut told, byte);
        told.events
    }
}

} // verus!
