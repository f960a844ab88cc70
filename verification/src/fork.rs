//! Forking a session from a checkpoint.

use vstd::prelude::*;
use vstd::string::*;
use crate::checkpoint::{Checkpoint, CreateCheckpoint};
use crate::json;
use crate::json::{Json, JsonView};
use crate::text;

verus! {

/// A fork to make.
#[derive(Clone, PartialEq, Eq, Debug)]
pub struct ForkRequest {
    /// The checkpoint to fork from.
    pub checkpoint_id: String,
    /// The session that it belongs to.
    pub session_id: String,
    /// The session of the fork.
    pub new_session_id: String,
}

/// A fork that was recorded.
#[derive(Clone, PartialEq, Eq, Debug)]
pub struct ForkResult {
    /// The checkpoint that stands for the fork.
    pub checkpoint: Checkpoint,
    /// The checkpoint that it was forked from.
    pub source_checkpoint: Checkpoint,
}

/// How many bytes a character takes in UTF-8.
pub open spec fn char_bytes(c: char) -> nat {
    let n = c as u32;
    if n < 0x80 {
        1
    } else if n < 0x800 {
        2
    } else if n < 0x10000 {
        3
    } else {
        4
    }
}

/// How many bytes the first `n` characters take in UTF-8.
pub open spec fn prefix_bytes(s: Seq<char>, n: int) -> nat
    decreases n,
{
    if n <= 0 {
        0
    } else {
        prefix_bytes(s, n - 1) + char_bytes(s[n - 1])
    }
}

/// How many characters the first eight bytes of a text hold: all where it is
/// shorter, and nothing where they end within a character.
pub open spec fn short_len(s: Seq<char>, n: int) -> Option<int>
    decreases s.len() - n,
{
    if n >= s.len() || prefix_bytes(s, n) == 8 {
        Some(n)
    } else if n < 0 || prefix_bytes(s, n) > 8 {
        None
    } else {
        short_len(s, n + 1)
    }
}

/// Whether the first eight bytes of an id, or all of them, are a text.
pub open spec fn can_shorten(id: Seq<char>) -> bool {
    short_len(id, 0) is Some && prefix_bytes(id, short_len(id, 0)->0) <= 8
}

/// The label of a fork: by the label of its source, else by its id in short.
pub open spec fn fork_label(source: Checkpoint, id: Seq<char>) -> Seq<char> {
    "fork from "@ + (match source.label {
        Some(l) => l@,
        None => id.take(short_len(id, 0)->0),
    })
}

/// The metadata of a fork.
pub open spec fn fork_metadata(checkpoint_id: Seq<char>, session_id: Seq<char>) -> JsonView {
    JsonView::Object(
        seq![
            ("forked_from_checkpoint"@, JsonView::Str(checkpoint_id)),
            ("forked_from_session"@, JsonView::Str(session_id)),
        ],
    )
}

/// Why a fork is refused: its source is not there, belongs to another session,
/// or is not known to the runtime.
pub open spec fn refusal(source: Option<&Checkpoint>, req: ForkRequest) -> Option<Seq<char>> {
    match source {
        None => Some("source checkpoint "@ + req.checkpoint_id@ + " not found"@),
        Some(c) => if c.session_id@ != req.session_id@ {
            Some(
                "checkpoint "@ + req.checkpoint_id@ + " belongs to session "@ + c.session_id@
                    + ", not "@ + req.session_id@,
            )
        } else if c.rivet_checkpoint_id is None {
            Some(
                "checkpoint "@ + req.checkpoint_id@
                    + " has no rivet checkpoint id \u{2014} cannot fork an unlinked checkpoint"@,
            )
        } else {
            None
        },
    }
}

/// The first eight bytes of an id, or all of them, as a text.
fn short_prefix(id: &str) -> (r: String)
    requires
        can_shorten(id@),
    ensures
        r@ == id@.take(short_len(id@, 0)->0),
{
    let v = text::to_chars(id);
    let mut n: usize = 0;
    let mut bytes: usize = 0;
    while n < v.len() && bytes < 8
        invariant
            n <= v@.len(),
            v@ == id@,
            bytes == prefix_bytes(id@, n as int),
            bytes <= 11,
            can_shorten(id@),
            short_len(id@, 0) == short_len(id@, n as int),
        decreases v@.len() - n,
    {
        let code: u32 = v[n] as u32;
        let k: usize = if code < 0x80 {
            1
        } else if code < 0x800 {
            2
        } else if code < 0x10000 {
            3
        } else {
            4
        };
        n += 1;
        bytes = bytes + k;
    }
    let r = text::from_range(&v, 0, n);
    proof {
        assert(r@ =~= id@.take(n as int));
    }
    r
}

/// The checkpoint to make for a fork, where it is not refused: in the new
/// session, below its source, and not yet known to the runtime.
pub fn prepare_fork(source: Option<&Checkpoint>, req: &ForkRequest) -> (r: Result<
    CreateCheckpoint,
    String,
>)
    requires
        refusal(source, *req) is None && source->0.label is None ==> can_shorten(
            req.checkpoint_id@,
        ),
    ensures
        match r {
            Err(e) => refusal(source, *req) == Some(e@),
            Ok(x) => refusal(source, *req) is None && source is Some && x.session_id
                == req.new_session_id && x.rivet_checkpoint_id is None && x.parent_checkpoint_id
                == Some(req.checkpoint_id) && x.label is Some && x.label->0@ == fork_label(
                *source->0,
                req.checkpoint_id@,
            ) && x.metadata is Some && x.metadata->0@ == fork_metadata(
                req.checkpoint_id@,
                req.session_id@,
            ),
        },
{
    let c = match source {
        Some(c) => c,
        None => {
            return Err(
                text::concat3("source checkpoint ", req.checkpoint_id.as_str(), " not found"),
            );
        },
    };
    if !text::str_eq(c.session_id.as_str(), req.session_id.as_str()) {
        let mut msg = text::concat4(
            "checkpoint ",
            req.checkpoint_id.as_str(),
            " belongs to session ",
            c.session_id.as_str(),
        );
        msg.append(", not ");
        msg.append(req.session_id.as_str());
        return Err(msg);
    }
    if c.rivet_checkpoint_id.is_none() {
        return Err(
            text::concat3(
                "checkpoint ",
                req.checkpoint_id.as_str(),
                " has no rivet checkpoint id \u{2014} cannot fork an unlinked checkpoint",
            ),
        );
    }
    let of = match &c.label {
        Some(l) => l.clone(),
        None => short_prefix(req.checkpoint_id.as_str()),
    };
    let metadata = json::object2(
        "forked_from_checkpoint",
        Json::Str(req.checkpoint_id.clone()),
        "forked_from_session",
        Json::Str(req.session_id.clone()),
    );
    Ok(
        CreateCheckpoint {
            session_id: req.new_session_id.clone(),
            rivet_checkpoint_id: None,
            parent_checkpoint_id: Some(req.checkpoint_id.clone()),
            label: Some(text::concat2("fork from ", of.as_str())),
            metadata: Some(metadata),
        },
    )
}

} // verus!
