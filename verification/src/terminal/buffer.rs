//! A bounded list of lines.

use vstd::prelude::*;
use vstd::string::*;
use crate::review;
use crate::review::lines;
use crate::text;

verus! {

/// The last lines of an output.
pub struct TerminalBuffer {
    lines: Vec<String>,
    max_lines: usize,
}

/// The lines with one more, the oldest gone where there are too many.
pub open spec fn pushed(lines: Seq<Seq<char>>, line: Seq<char>, max: nat) -> Seq<Seq<char>> {
    if lines.len() + 1 > max {
        lines.push(line).skip(1)
    } else {
        lines.push(line)
    }
}

/// The lines with the first `n` of `more`, one after the other.
pub open spec fn all_pushed(
    lines: Seq<Seq<char>>,
    more: Seq<Seq<char>>,
    max: nat,
    n: int,
) -> Seq<Seq<char>>
    decreases n,
{
    if n <= 0 {
        lines
    } else {
        pushed(all_pushed(lines, more, max, n - 1), more[n - 1], max)
    }
}

impl TerminalBuffer {
    /// The lines, oldest first.
    pub closed spec fn model(&self) -> Seq<Seq<char>> {
        text::views(self.lines@)
    }

    /// How many lines are kept.
    pub closed spec fn limit(&self) -> nat {
        self.max_lines as nat
    }

    /// No more lines than are kept.
    pub open spec fn wf(&self) -> bool {
        self.model().len() <= self.limit()
    }

    /// No lines, of which `max_lines` are kept.
    pub fn new(max_lines: usize) -> (r: Self)
        ensures
            r.wf(),
            r.model() == Seq::<Seq<char>>::empty(),
            r.limit() == max_lines,
    {
        let r = TerminalBuffer { lines: Vec::new(), max_lines };
        proof {
            assert(r.model() =~= Seq::empty());
        }
        r
    }

    /// Adds a line.
    pub fn push_line(&mut self, line: &str)
        requires
            old(self).wf(),
        ensures
            final(self).wf(),
            final(self).model() == pushed(old(self).model(), line@, old(self).limit()),
            final(self).limit() == old(self).limit(),
    {
        let ghost before = self.model();
        let s = line.to_owned();
        proof {
            text::lemma_views_push(self.lines@, s);
        }
        self.lines.push(s);
        proof {
            assert(self.model() == before.push(line@));
        }
        if self.lines.len() > self.max_lines {
            let ghost all = self.lines@;
            self.lines.remove(0);
            proof {
                assert(text::views(self.lines@) =~= text::views(all).skip(1));
            }
        }
    }

    /// Adds the lines of a text.
    pub fn push_text(&mut self, s: &str)
        requires
            old(self).wf(),
        ensures
            final(self).wf(),
            final(self).model() == all_pushed(
                old(self).model(),
                review::text_lines(s@),
                old(self).limit(),
                review::text_lines(s@).len() as int,
            ),
            final(self).limit() == old(self).limit(),
    {
        let more = lines(s);
        let ghost mv = review::text_lines(s@);
        let ghost before = self.model();
        let ghost max = self.limit();
        let mut i: usize = 0;
        while i < more.len()
            invariant
                i <= more@.len(),
                mv == text::views(more@),
                self.wf(),
                self.limit() == max,
                self.model() == all_pushed(before, mv, max, i as int),
            decreases more@.len() - i,
        {
            proof {
                assert(mv[i as int] == more@[i as int]@);
            }
            self.push_line(more[i].as_str());
            i += 1;
        }
    }

    /// The lines, oldest first.
    pub fn lines(&self) -> (r: &Vec<String>)
        ensures
            text::views(r@) == self.model(),
    {
        &self.lines
    }

    /// Forgets the lines.
    pub fn clear(&mut self)
        ensures
            final(self).model() == Seq::<Seq<char>>::empty(),
            final(self).limit() == old(self).limit(),
            final(self).wf(),
    {
        self.lines.clear();
        proof {
            assert(self.model() =~= Seq::empty());
        }
    }
}

} // verus!
