//! Starting the actor runtime.

use vstd::prelude::*;
use vstd::string::*;
use crate::review;
use crate::review::lines;
use crate::text;

verus! {

/// How often the runtime is asked whether it is there.
pub const START_ATTEMPTS: usize = 10;

/// The last three of lines, or all of fewer.
pub open spec fn last_three(lines: Seq<Seq<char>>) -> Seq<Seq<char>> {
    if lines.len() > 3 {
        lines.skip(lines.len() - 3)
    } else {
        lines
    }
}

/// The text of an optional exit code.
pub open spec fn code_text(code: Option<i32>) -> Seq<char> {
    match code {
        Some(n) => "Some("@ + text::decimal_int(n as int) + ")"@,
        None => "None"@,
    }
}

/// The message of an installation that failed: its exit code, and the last
/// lines of its error.
pub fn install_error(code: Option<i32>, stderr: &str) -> (r: String)
    ensures
        r@ == "npm install failed (exit "@ + code_text(code) + "): "@ + text::join(
            last_three(review::text_lines(stderr@)),
            " | "@,
        ),
{
    let all = lines(stderr);
    let ghost av = text::views(all@);
    let from: usize = if all.len() > 3 {
        all.len() - 3
    } else {
        0
    };
    let mut tail: Vec<String> = Vec::new();
    let mut i: usize = from;
    proof {
        assert(text::views(tail@) =~= av.subrange(from as int, from as int));
    }
    while i < all.len()
        invariant
            from <= i <= all@.len(),
            av == text::views(all@),
            text::views(tail@) == av.subrange(from as int, i as int),
        decreases all@.len() - i,
    {
        proof {
            text::lemma_views_push(tail@, all@[i as int]);
            assert(av.subrange(from as int, i as int + 1) =~= av.subrange(
                from as int,
                i as int,
            ).push(av[i as int]));
        }
        tail.push(all[i].clone());
        i += 1;
    }
    proof {
        assert(text::views(tail@) =~= last_three(av));
    }
    let snippet = text::join_strings(&tail, " | ");
    let shown = match code {
        Some(n) => {
            let d = text::i64_to_string(n as i64);
            text::concat3("Some(", d.as_str(), ")")
        },
        None => "None".to_owned(),
    };
    text::concat4("npm install failed (exit ", shown.as_str(), "): ", snippet.as_str())
}

/// What follows a try to reach the runtime.
#[derive(Clone, PartialEq, Eq, Debug)]
pub enum StartStep {
    Ready,
    /// Try again a little later.
    Retry,
    /// Stop the runtime, and give up.
    Fail(String),
}

/// What follows the try number `attempt`, counted from zero.
pub fn start_step(attempt: usize, result: &Result<(), String>) -> (r: StartStep)
    ensures
        match *result {
            Ok(_) => r is Ready,
            Err(e) => if attempt + 1 < START_ATTEMPTS {
                r is Retry
            } else {
                r matches StartStep::Fail(m) && m@ == "rivet sidecar failed to start: "@ + e@
            },
        },
{
    match result {
        Ok(_) => StartStep::Ready,
        Err(e) => {
            if attempt < START_ATTEMPTS - 1 {
                StartStep::Retry
            } else {
                StartStep::Fail(text::concat2("rivet sidecar failed to start: ", e.as_str()))
            }
        },
    }
}

} // verus!
