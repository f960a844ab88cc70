//! What reviewing promises: accepting all hunks of a change gives the new
//! text, rejecting all gives the old one.

use vstd::prelude::*;
use vstd::utf8::{decode_utf8, valid_utf8};
use crate::overlay;
use crate::overlay::{DiffKind, FileDiffView, HunkView, LineKind, LineOp, OpTag};
use crate::review;

verus! {

/// The line of the new text behind the first `n` hunks.
pub open spec fn new_cursor_after(hunks: Seq<HunkView>, n: int) -> int
    decreases n,
{
    if n <= 0 {
        0
    } else {
        let h = hunks[n - 1];
        new_cursor_after(hunks, n - 1) + (review::hunk_start(h) - review::cursor_after(hunks, n - 1)) + review::side(
            h.lines,
            true,
        ).len()
    }
}

/// The line of the new text at which hunk `i` starts.
pub open spec fn new_start_of(hunks: Seq<HunkView>, i: int) -> int {
    new_cursor_after(hunks, i) + (review::hunk_start(hunks[i]) - review::cursor_after(hunks, i))
}

/// Whether hunk `i` covers its part of the old text: it starts behind the
/// hunk before it and its old side shows what stands there.
pub open spec fn covers_old(hunks: Seq<HunkView>, old: Seq<Seq<char>>, i: int) -> bool {
    let h = hunks[i];
    &&& 0 <= review::cursor_after(hunks, i) <= review::hunk_start(h) <= review::hunk_end(h) <= old.len()
    &&& review::side(h.lines, false) == overlay::shown(
        old.subrange(review::hunk_start(h), review::hunk_end(h)),
    )
}

/// Whether the context among `lines`, which start at line `at` of the old text
/// and line `bt` of the new, is the same in both texts, line ends included.
pub open spec fn keeps_context(
    lines: Seq<(LineKind, Seq<char>)>,
    old: Seq<Seq<char>>,
    at: int,
    new: Seq<Seq<char>>,
    bt: int,
) -> bool {
    forall|j: int|
        0 <= j < lines.len() && (#[trigger] lines[j]).0 == LineKind::Context ==> {
            let a = at + review::side(lines.take(j), false).len();
            let b = bt + review::side(lines.take(j), true).len();
            0 <= a < old.len() && 0 <= b < new.len() && old[a] == new[b]
        }
}

/// Whether hunk `i` covers its part of the new text: the lines before it are
/// those of the old text, its new side shows what stands there, and its context
/// is in both.
pub open spec fn covers_new(
    hunks: Seq<HunkView>,
    old: Seq<Seq<char>>,
    new: Seq<Seq<char>>,
    i: int,
) -> bool {
    let h = hunks[i];
    let at = new_cursor_after(hunks, i);
    let start = new_start_of(hunks, i);
    let end = new_cursor_after(hunks, i + 1);
    &&& 0 <= at <= start <= end <= new.len()
    &&& old.subrange(review::cursor_after(hunks, i), review::hunk_start(h)) == new.subrange(at, start)
    &&& review::side(h.lines, true) == overlay::shown(new.subrange(start, end))
    &&& keeps_context(h.lines, old, review::hunk_start(h), new, start)
}

/// Whether the hunks cover the lines `old`, which carry their ends, in order.
pub open spec fn describes_old(hunks: Seq<HunkView>, old: Seq<Seq<char>>) -> bool {
    &&& forall|i: int| 0 <= i < hunks.len() ==> #[trigger] covers_old(hunks, old, i)
    &&& review::cursor_after(hunks, hunks.len() as int) <= old.len()
}

/// Whether the hunks describe how the lines `old` become the lines `new`; both
/// carry their ends.
pub open spec fn describes(
    hunks: Seq<HunkView>,
    old: Seq<Seq<char>>,
    new: Seq<Seq<char>>,
) -> bool {
    let n = hunks.len() as int;
    &&& describes_old(hunks, old)
    &&& forall|i: int| 0 <= i < n ==> #[trigger] covers_new(hunks, old, new, i)
    &&& new_cursor_after(hunks, n) <= new.len()
    &&& old.skip(review::cursor_after(hunks, n)) == new.skip(new_cursor_after(hunks, n))
}

/// Whether each hunk counts the lines that it shows.
pub open spec fn counts_agree(hunks: Seq<HunkView>) -> bool {
    forall|i: int|
        0 <= i < hunks.len() ==> (#[trigger] hunks[i]).old_count == review::side(
            hunks[i].lines,
            false,
        ).len() && hunks[i].new_count == review::side(hunks[i].lines, true).len()
}

proof fn lemma_rejected_side(
    lines: Seq<(LineKind, Seq<char>)>,
    old: Seq<Seq<char>>,
    at: int,
    end: int,
)
    requires
        0 <= at <= end <= old.len(),
        review::side(lines, false) == overlay::shown(old.subrange(at, end)),
    ensures
        review::placed_side(lines, old, at, false) == old.subrange(at, end),
    decreases lines.len(),
{
    let part = overlay::shown(old.subrange(at, end));
    assert(part.len() == end - at);
    if lines.len() > 0 {
        let front = lines.drop_last();
        if review::on_side(lines.last().0, false) {
            assert(part.last() == lines.last().1);
            assert(part.drop_last() =~= review::side(front, false));
            assert(overlay::shown(old.subrange(at, end - 1)) =~= part.drop_last());
            lemma_rejected_side(front, old, at, end - 1);
            assert(old.subrange(at, end)[end - at - 1] == old[end - 1]);
            assert(old.subrange(at, end) =~= old.subrange(at, end - 1).push(old[end - 1]));
        } else {
            lemma_rejected_side(front, old, at, end);
        }
    } else {
        assert(old.subrange(at, end) =~= Seq::empty());
    }
}

proof fn lemma_rejected_prefix(
    hunks: Seq<HunkView>,
    old: Seq<Seq<char>>,
    accepted: Set<usize>,
    n: int,
)
    requires
        describes_old(hunks, old),
        forall|i: int| 0 <= i < hunks.len() ==> !#[trigger] accepted.contains(i as usize),
        0 <= n <= hunks.len(),
    ensures
        0 <= review::cursor_after(hunks, n) <= old.len(),
        review::applied_lines(old, hunks, accepted, n) == old.take(review::cursor_after(hunks, n)),
    decreases n,
{
    if n > 0 {
        lemma_rejected_prefix(hunks, old, accepted, n - 1);
        let h = hunks[n - 1];
        let c = review::cursor_after(hunks, n - 1);
        let start = review::hunk_start(h);
        assert(covers_old(hunks, old, n - 1));
        assert(!accepted.contains((n - 1) as usize));
        lemma_rejected_side(h.lines, old, start, review::hunk_end(h));
        assert(review::lines_from_to(old, c, start) =~= old.subrange(c, start));
        assert(old.take(review::hunk_end(h)) =~= old.take(c) + old.subrange(c, start)
            + old.subrange(start, review::hunk_end(h)));
    } else {
        assert(old.take(0) =~= Seq::empty());
    }
}

/// Rejecting every hunk leaves the old lines, with their ends.
pub proof fn law_reject_all_lines(hunks: Seq<HunkView>, old: Seq<Seq<char>>, accepted: Set<usize>)
    requires
        describes_old(hunks, old),
        forall|i: int| 0 <= i < hunks.len() ==> !#[trigger] accepted.contains(i as usize),
    ensures
        review::result_lines(old, hunks, accepted) == old,
{
    let n = hunks.len() as int;
    lemma_rejected_prefix(hunks, old, accepted, n);
    let c = review::cursor_after(hunks, n);
    assert(review::lines_from_to(old, c, old.len() as int) =~= old.skip(c));
    assert(old =~= old.take(c) + old.skip(c));
}

/// Whether a line ends in `\r\n`.
pub open spec fn ends_crlf(line: Seq<char>) -> bool {
    line.len() >= 2 && line[line.len() - 2] == '\r' && line.last() == '\n'
}

/// Whether a text is one line: a line end stands nowhere but at its end.
pub open spec fn one_line(line: Seq<char>) -> bool {
    &&& line.len() > 0
    &&& forall|i: int| 0 <= i < line.len() - 1 ==> #[trigger] line[i] != '\n'
    &&& forall|i: int|
        0 <= i < line.len() - 1 && #[trigger] line[i] == '\r' ==> i == line.len() - 2
            && line.last() == '\n'
}

/// Whether `p` is the line `tok`, or that with the `\n` that it lacks.
pub open spec fn like(p: Seq<char>, tok: Seq<char>) -> bool {
    p == tok || (!review::has_end(tok) && p == tok.push('\n'))
}

/// Whether each line is like its counterpart.
pub open spec fn all_like(lines: Seq<Seq<char>>, toks: Seq<Seq<char>>) -> bool {
    &&& lines.len() == toks.len()
    &&& forall|k: int| 0 <= k < lines.len() ==> like(#[trigger] lines[k], toks[k])
}

/// Whether no line that `lines` add, which start at line `bt` of the new text,
/// ends in `\r\n` there.
pub open spec fn adds_no_crlf(
    lines: Seq<(LineKind, Seq<char>)>,
    new: Seq<Seq<char>>,
    bt: int,
) -> bool {
    forall|j: int|
        0 <= j < lines.len() && (#[trigger] lines[j]).0 == LineKind::Added ==> !ends_crlf(
            new[bt + review::side(lines.take(j), true).len()],
        )
}

/// Whether no line that a hunk adds ends in `\r\n` in the new text. Hunks do
/// not say how the lines that they add end.
pub open spec fn hunks_add_no_crlf(hunks: Seq<HunkView>, new: Seq<Seq<char>>) -> bool {
    forall|i: int|
        0 <= i < hunks.len() ==> adds_no_crlf(
            (#[trigger] hunks[i]).lines,
            new,
            new_start_of(hunks, i),
        )
}

proof fn lemma_line_again(tok: Seq<char>)
    requires
        one_line(tok),
        !ends_crlf(tok),
    ensures
        like(review::as_line(overlay::without_newline(tok)), tok),
{
    if tok.last() == '\n' {
        let t = overlay::without_newline(tok);
        assert(t =~= tok.drop_last());
        if t.len() > 0 {
            assert(t.last() == tok[tok.len() - 2]);
        }
        assert(t.push('\n') =~= tok);
    }
}

proof fn lemma_accepted_side(
    lines: Seq<(LineKind, Seq<char>)>,
    old: Seq<Seq<char>>,
    at: int,
    new: Seq<Seq<char>>,
    bt: int,
    end: int,
)
    requires
        0 <= bt <= end <= new.len(),
        review::side(lines, true) == overlay::shown(new.subrange(bt, end)),
        keeps_context(lines, old, at, new, bt),
        adds_no_crlf(lines, new, bt),
        forall|k: int| 0 <= k < new.len() ==> one_line(#[trigger] new[k]),
    ensures
        all_like(review::placed_side(lines, old, at, true), new.subrange(bt, end)),
    decreases lines.len(),
{
    let part = overlay::shown(new.subrange(bt, end));
    assert(part.len() == end - bt);
    if lines.len() > 0 {
        let front = lines.drop_last();
        let last = lines.last();
        let j = lines.len() - 1;
        assert(lines.take(j) =~= front);
        assert(last == lines[j]);
        assert forall|k: int| 0 <= k < front.len() && (#[trigger] front[k]).0
            == LineKind::Context implies ({
            let a = at + review::side(front.take(k), false).len();
            let b = bt + review::side(front.take(k), true).len();
            0 <= a < old.len() && 0 <= b < new.len() && old[a] == new[b]
        }) by {
            assert(front[k] == lines[k]);
            assert(front.take(k) =~= lines.take(k));
        }
        assert forall|k: int| 0 <= k < front.len() && (#[trigger] front[k]).0
            == LineKind::Added implies !ends_crlf(
            new[bt + review::side(front.take(k), true).len()],
        ) by {
            assert(front[k] == lines[k]);
            assert(front.take(k) =~= lines.take(k));
        }
        if review::on_side(last.0, true) {
            assert(part.last() == last.1);
            assert(part.drop_last() =~= review::side(front, true));
            assert(overlay::shown(new.subrange(bt, end - 1)) =~= part.drop_last());
            lemma_accepted_side(front, old, at, new, bt, end - 1);
            assert(review::side(front, true).len() == end - 1 - bt);
            assert(new.subrange(bt, end)[end - bt - 1] == new[end - 1]);
            assert(one_line(new[end - 1]));
            assert(last.1 == overlay::without_newline(new[end - 1]));
            let p = review::placed_line(last, old, at + review::side(front, false).len());
            if last.0 == LineKind::Added {
                lemma_line_again(new[end - 1]);
            }
            assert(like(p, new[end - 1]));
            assert(new.subrange(bt, end) =~= new.subrange(bt, end - 1).push(new[end - 1]));
        } else {
            lemma_accepted_side(front, old, at, new, bt, end);
        }
    } else {
        assert(new.subrange(bt, end) =~= Seq::empty());
    }
}

proof fn lemma_accepted_prefix(
    hunks: Seq<HunkView>,
    old: Seq<Seq<char>>,
    new: Seq<Seq<char>>,
    accepted: Set<usize>,
    n: int,
)
    requires
        describes(hunks, old, new),
        hunks_add_no_crlf(hunks, new),
        forall|k: int| 0 <= k < new.len() ==> one_line(#[trigger] new[k]),
        forall|i: int| 0 <= i < hunks.len() ==> #[trigger] accepted.contains(i as usize),
        0 <= n <= hunks.len(),
    ensures
        0 <= new_cursor_after(hunks, n) <= new.len(),
        all_like(
            review::applied_lines(old, hunks, accepted, n),
            new.take(new_cursor_after(hunks, n)),
        ),
    decreases n,
{
    if n > 0 {
        lemma_accepted_prefix(hunks, old, new, accepted, n - 1);
        let h = hunks[n - 1];
        let c = review::cursor_after(hunks, n - 1);
        let at = new_cursor_after(hunks, n - 1);
        let start = new_start_of(hunks, n - 1);
        let end = new_cursor_after(hunks, n);
        assert(covers_old(hunks, old, n - 1));
        assert(covers_new(hunks, old, new, n - 1));
        assert(accepted.contains((n - 1) as usize));
        assert(adds_no_crlf(hunks[n - 1].lines, new, start));
        lemma_accepted_side(h.lines, old, review::hunk_start(h), new, start, end);
        let front = review::applied_lines(old, hunks, accepted, n - 1);
        let gap = review::lines_from_to(old, c, review::hunk_start(h));
        let own = review::placed_side(h.lines, old, review::hunk_start(h), true);
        assert(gap =~= new.subrange(at, start));
        let whole = front + gap + own;
        assert forall|k: int| 0 <= k < whole.len() implies like(
            #[trigger] whole[k],
            new.take(end)[k],
        ) by {
            if k < at {
                assert(like(front[k], new.take(at)[k]));
            } else if k < start {
                assert(whole[k] == gap[k - at]);
            } else {
                assert(like(own[k - start], new.subrange(start, end)[k - start]));
            }
        }
    } else {
        assert(new.take(0) =~= Seq::empty());
    }
}

/// Accepting every hunk of a description leaves the new lines, if none that is
/// added ends in `\r\n`; a last line may get a `\n` that it lacks.
pub proof fn law_accept_all_lines(
    hunks: Seq<HunkView>,
    old: Seq<Seq<char>>,
    new: Seq<Seq<char>>,
    accepted: Set<usize>,
)
    requires
        describes(hunks, old, new),
        hunks_add_no_crlf(hunks, new),
        forall|k: int| 0 <= k < new.len() ==> one_line(#[trigger] new[k]),
        forall|i: int| 0 <= i < hunks.len() ==> #[trigger] accepted.contains(i as usize),
    ensures
        all_like(review::result_lines(old, hunks, accepted), new),
{
    let n = hunks.len() as int;
    lemma_accepted_prefix(hunks, old, new, accepted, n);
    let c = review::cursor_after(hunks, n);
    let at = new_cursor_after(hunks, n);
    if n > 0 {
        assert(covers_old(hunks, old, n - 1));
    }
    let front = review::applied_lines(old, hunks, accepted, n);
    let rest = review::lines_from_to(old, c, old.len() as int);
    assert(rest =~= old.skip(c));
    let whole = front + rest;
    assert forall|k: int| 0 <= k < whole.len() implies like(#[trigger] whole[k], new[k]) by {
        if k < at {
            assert(like(front[k], new.take(at)[k]));
        } else {
            assert(whole[k] == new.skip(at)[k - at]);
        }
    }
    assert(new.skip(at).len() == rest.len());
}

proof fn lemma_first_line(s: Seq<char>)
    requires
        s.len() > 0,
    ensures
        one_line(s.take(overlay::first_token_len(s))),
        overlay::first_token_len(s) < s.len() ==> review::has_end(
            s.take(overlay::first_token_len(s)),
        ),
    decreases s.len(),
{
    overlay::lemma_first_token_len(s);
    let n = overlay::first_token_len(s);
    let line = s.take(n);
    if s.len() > 1 && s[0] != '\n' && s[0] != '\r' {
        let rest = s.skip(1);
        lemma_first_line(rest);
        let tail = rest.take(n - 1);
        assert forall|i: int| 0 <= i < n - 1 implies #[trigger] line[i] != '\n' by {
            if i > 0 {
                assert(line[i] == tail[i - 1]);
            }
        }
        assert forall|i: int| 0 <= i < n - 1 && #[trigger] line[i] == '\r' implies i == n - 2
            && line.last() == '\n' by {
            assert(i > 0);
            assert(line[i] == tail[i - 1]);
            assert(line.last() == tail.last());
        }
        assert(line.last() == tail.last());
    }
}

/// What the lines of a text are: one line each, with an end but for the last.
pub proof fn lemma_lines_of(s: Seq<char>)
    ensures
        forall|k: int|
            0 <= k < overlay::line_tokens(s).len() ==> one_line(#[trigger] overlay::line_tokens(s)[k]),
        forall|k: int|
            0 <= k < overlay::line_tokens(s).len() - 1 ==> review::has_end(
                #[trigger] overlay::line_tokens(s)[k],
            ),
        s.len() > 0 ==> overlay::line_tokens(s).len() > 0 && overlay::line_tokens(s).last().last()
            == s.last(),
    decreases s.len(),
{
    if s.len() > 0 {
        overlay::lemma_first_token_len(s);
        lemma_first_line(s);
        let n = overlay::first_token_len(s);
        let rest = s.skip(n);
        lemma_lines_of(rest);
        let toks = overlay::line_tokens(s);
        let more = overlay::line_tokens(rest);
        assert(toks =~= seq![s.take(n)] + more);
        assert forall|k: int| 0 <= k < toks.len() implies one_line(#[trigger] toks[k]) by {
            if k > 0 {
                assert(toks[k] == more[k - 1]);
            }
        }
        assert forall|k: int| 0 <= k < toks.len() - 1 implies review::has_end(
            #[trigger] toks[k],
        ) by {
            if k > 0 {
                assert(toks[k] == more[k - 1]);
            } else {
                if n == s.len() {
                    assert(more.len() == 0);
                }
            }
        }
        if rest.len() > 0 {
            assert(toks.last() == more.last());
            assert(rest.last() == s.last());
        } else {
            assert(toks.last() == s.take(n));
            assert(s.take(n) =~= s);
        }
    }
}

proof fn lemma_row_cons(a: Seq<char>, rest: Seq<Seq<char>>)
    ensures
        review::in_a_row(seq![a] + rest) == review::ended(a) + review::in_a_row(rest),
    decreases rest.len(),
{
    let all = seq![a] + rest;
    if rest.len() == 0 {
        reveal_with_fuel(review::in_a_row, 2);
        assert(all.drop_last() =~= Seq::empty());
        assert(review::in_a_row(all) =~= review::ended(a) + review::in_a_row(rest));
    } else {
        assert(all.drop_last() =~= seq![a] + rest.drop_last());
        assert(all.last() == rest.last());
        lemma_row_cons(a, rest.drop_last());
        assert(review::in_a_row(all) =~= review::ended(a) + review::in_a_row(rest));
    }
}

/// The lines of a text, in a row, are the text.
proof fn lemma_lines_spell(s: Seq<char>)
    requires
        s.len() > 0,
    ensures
        review::in_a_row(overlay::line_tokens(s).drop_last()) + overlay::line_tokens(s).last() == s,
    decreases s.len(),
{
    overlay::lemma_first_token_len(s);
    lemma_lines_of(s);
    let n = overlay::first_token_len(s);
    let rest = s.skip(n);
    let toks = overlay::line_tokens(s);
    let more = overlay::line_tokens(rest);
    assert(toks =~= seq![s.take(n)] + more);
    if rest.len() == 0 {
        assert(toks.drop_last() =~= Seq::empty());
        assert(toks.last() =~= s);
        assert(review::in_a_row(toks.drop_last()) + toks.last() =~= s);
    } else {
        lemma_lines_of(rest);
        lemma_lines_spell(rest);
        assert(toks.drop_last() =~= seq![s.take(n)] + more.drop_last());
        lemma_row_cons(s.take(n), more.drop_last());
        assert(toks[0] == s.take(n));
        assert(review::has_end(toks[0]));
        assert(s =~= s.take(n) + rest);
        assert(review::in_a_row(toks.drop_last()) + toks.last() =~= s.take(n) + (review::in_a_row(
            more.drop_last(),
        ) + more.last()));
    }
}

/// Rejecting every hunk gives back the text, whatever its line ends.
pub proof fn law_reject_all_reproduces_original(
    old: Seq<char>,
    hunks: Seq<HunkView>,
    accepted: Set<usize>,
)
    requires
        describes_old(hunks, overlay::line_tokens(old)),
        forall|i: int| 0 <= i < hunks.len() ==> !#[trigger] accepted.contains(i as usize),
    ensures
        review::applied_text(old, hunks, accepted) == old,
{
    let toks = overlay::line_tokens(old);
    law_reject_all_lines(hunks, toks, accepted);
    if old.len() > 0 {
        lemma_lines_of(old);
        lemma_lines_spell(old);
    } else {
        assert(old =~= Seq::empty());
    }
}

/// Applying no hunk to a text gives back the text.
pub proof fn law_nothing_applied_keeps_the_text(old: Seq<char>, accepted: Set<usize>)
    ensures
        review::applied_text(old, Seq::empty(), accepted) == old,
{
    law_reject_all_reproduces_original(old, Seq::empty(), accepted);
}

/// Whether a text made of `old` ends as `new` does: in `\n` exactly where the
/// old text is empty or ends so. A lone `\r` at the end stays in any case.
pub open spec fn ends_alike(old: Seq<char>, new: Seq<char>) -> bool {
    new.len() == 0 || new.last() == '\r' || review::ends_line(new) == (old.len() == 0
        || review::ends_line(old))
}

/// Accepting every hunk of a change gives the new text, if no added line ends
/// in `\r\n` and both texts end alike: hunks do not say how lines end.
pub proof fn law_accept_all_reproduces_new(
    old: Seq<char>,
    new: Seq<char>,
    hunks: Seq<HunkView>,
    accepted: Set<usize>,
)
    requires
        describes(hunks, overlay::line_tokens(old), overlay::line_tokens(new)),
        hunks_add_no_crlf(hunks, overlay::line_tokens(new)),
        ends_alike(old, new),
        forall|i: int| 0 <= i < hunks.len() ==> #[trigger] accepted.contains(i as usize),
    ensures
        review::applied_text(old, hunks, accepted) == new,
{
    let toks = overlay::line_tokens(new);
    lemma_lines_of(new);
    law_accept_all_lines(hunks, overlay::line_tokens(old), toks, accepted);
    let lines = review::result_lines(overlay::line_tokens(old), hunks, accepted);
    if new.len() > 0 {
        lemma_lines_spell(new);
        assert forall|k: int| 0 <= k < lines.len() - 1 implies #[trigger] lines[k] == toks[k] by {
            assert(like(lines[k], toks[k]));
            assert(review::has_end(toks[k]));
        }
        assert(lines.drop_last() =~= toks.drop_last());
        let last = toks.last();
        assert(like(lines[lines.len() - 1], toks[lines.len() - 1]));
        assert(one_line(toks[toks.len() - 1]));
        if !review::has_end(last) {
            assert(overlay::without_newline(last.push('\n')) =~= last);
        }
    } else {
        assert(new =~= Seq::empty());
    }
}

/// Whether `s` has no `\r` before a `\n`.
pub open spec fn no_crlf(s: Seq<char>) -> bool {
    forall|i: int| 0 <= i < s.len() - 1 ==> !(#[trigger] s[i] == '\r' && s[i + 1] == '\n')
}

proof fn lemma_no_crlf_lines(s: Seq<char>)
    requires
        no_crlf(s),
    ensures
        forall|k: int|
            0 <= k < overlay::line_tokens(s).len() ==> !ends_crlf(
                #[trigger] overlay::line_tokens(s)[k],
            ),
    decreases s.len(),
{
    if s.len() > 0 {
        overlay::lemma_first_token_len(s);
        let n = overlay::first_token_len(s);
        let rest = s.skip(n);
        let line = s.take(n);
        assert forall|i: int| 0 <= i < rest.len() - 1 implies !(#[trigger] rest[i] == '\r'
            && rest[i + 1] == '\n') by {
            assert(rest[i] == s[n + i] && rest[i + 1] == s[n + i + 1]);
        }
        lemma_no_crlf_lines(rest);
        if n >= 2 {
            assert(line[n - 2] == s[n - 2] && line.last() == s[n - 1]);
        }
        let toks = overlay::line_tokens(s);
        assert(toks =~= seq![line] + overlay::line_tokens(rest));
        assert forall|k: int| 0 <= k < toks.len() implies !ends_crlf(#[trigger] toks[k]) by {
            if k > 0 {
                assert(toks[k] == overlay::line_tokens(rest)[k - 1]);
            }
        }
    }
}

/// A line of one side has fewer lines of that side before it than there are.
proof fn lemma_side_before(lines: Seq<(LineKind, Seq<char>)>, j: int, new_side: bool)
    requires
        0 <= j < lines.len(),
        review::on_side(lines[j].0, new_side),
    ensures
        review::side(lines.take(j), new_side).len() < review::side(lines, new_side).len(),
    decreases lines.len(),
{
    let front = lines.drop_last();
    if j == lines.len() - 1 {
        assert(lines.take(j) =~= front);
    } else {
        assert(front.take(j) =~= lines.take(j));
        lemma_side_before(front, j, new_side);
    }
}

/// A text without `\r\n` has no line that ends so, so none is added.
pub proof fn law_no_crlf_is_added(hunks: Seq<HunkView>, old: Seq<Seq<char>>, new: Seq<char>)
    requires
        describes(hunks, old, overlay::line_tokens(new)),
        no_crlf(new),
    ensures
        hunks_add_no_crlf(hunks, overlay::line_tokens(new)),
{
    let toks = overlay::line_tokens(new);
    lemma_no_crlf_lines(new);
    assert forall|i: int| 0 <= i < hunks.len() implies adds_no_crlf(
        (#[trigger] hunks[i]).lines,
        toks,
        new_start_of(hunks, i),
    ) by {
        let lines = hunks[i].lines;
        assert(covers_new(hunks, old, toks, i));
        assert forall|j: int| 0 <= j < lines.len() && (#[trigger] lines[j]).0
            == LineKind::Added implies !ends_crlf(
            toks[new_start_of(hunks, i) + review::side(lines.take(j), true).len()],
        ) by {
            lemma_side_before(lines, j, true);
            let start = new_start_of(hunks, i);
            let end = new_cursor_after(hunks, i + 1);
            assert(overlay::shown(toks.subrange(start, end)).len() == end - start);
        }
    }
}

proof fn lemma_side_concat(
    a: Seq<(LineKind, Seq<char>)>,
    b: Seq<(LineKind, Seq<char>)>,
    new_side: bool,
)
    ensures
        review::side(a + b, new_side) == review::side(a, new_side) + review::side(b, new_side),
    decreases b.len(),
{
    if b.len() == 0 {
        assert(a + b =~= a);
        assert(review::side(a, new_side) + review::side(b, new_side) =~= review::side(a, new_side));
    } else {
        assert((a + b).drop_last() =~= a + b.drop_last());
        assert((a + b).last() == b.last());
        lemma_side_concat(a, b.drop_last(), new_side);
        assert(review::side(a + b, new_side) =~= review::side(a, new_side) + review::side(b, new_side));
    }
}

proof fn lemma_side_uniform(
    texts: Seq<Seq<char>>,
    lo: int,
    hi: int,
    kind: LineKind,
    new_side: bool,
)
    requires
        0 <= lo <= hi <= texts.len(),
    ensures
        review::side(overlay::lines_between(texts, lo, hi, kind), new_side) == (if review::on_side(kind, new_side) {
            texts.subrange(lo, hi)
        } else {
            Seq::empty()
        }),
    decreases hi - lo,
{
    let l = overlay::lines_between(texts, lo, hi, kind);
    if lo < hi {
        lemma_side_uniform(texts, lo, hi - 1, kind, new_side);
        assert(l.drop_last() =~= overlay::lines_between(texts, lo, hi - 1, kind));
        assert(texts.subrange(lo, hi - 1).push(texts[hi - 1]) =~= texts.subrange(lo, hi));
    } else {
        assert(l =~= Seq::empty());
        assert(texts.subrange(lo, hi) =~= Seq::empty());
    }
}

proof fn lemma_op_sides(
    op: LineOp,
    at: (int, int),
    old: Seq<Seq<char>>,
    new: Seq<Seq<char>>,
)
    requires
        overlay::takes_next(op, at, old, new),
        0 <= at.0 <= old.len(),
        0 <= at.1 <= new.len(),
    ensures
        at.0 <= overlay::stepped(at, op).0 <= old.len(),
        at.1 <= overlay::stepped(at, op).1 <= new.len(),
        review::side(overlay::op_lines(op, old, new), false) == old.subrange(
            at.0,
            overlay::stepped(at, op).0,
        ),
        review::side(overlay::op_lines(op, old, new), true) == new.subrange(
            at.1,
            overlay::stepped(at, op).1,
        ),
{
    let (a, b) = (op.old_lo as int, op.old_hi as int);
    let (c, d) = (op.new_lo as int, op.new_hi as int);
    match op.tag {
        OpTag::Equal => {
            lemma_side_uniform(old, a, b, LineKind::Context, false);
            lemma_side_uniform(old, a, b, LineKind::Context, true);
        },
        OpTag::Delete => {
            lemma_side_uniform(old, a, b, LineKind::Removed, false);
            lemma_side_uniform(old, a, b, LineKind::Removed, true);
            assert(new.subrange(at.1, at.1) =~= Seq::empty());
        },
        OpTag::Insert => {
            lemma_side_uniform(new, c, d, LineKind::Added, false);
            lemma_side_uniform(new, c, d, LineKind::Added, true);
            assert(old.subrange(at.0, at.0) =~= Seq::empty());
        },
        OpTag::Replace => {
            let x = overlay::lines_between(old, a, b, LineKind::Removed);
            let y = overlay::lines_between(new, c, d, LineKind::Added);
            lemma_side_uniform(old, a, b, LineKind::Removed, false);
            lemma_side_uniform(old, a, b, LineKind::Removed, true);
            lemma_side_uniform(new, c, d, LineKind::Added, false);
            lemma_side_uniform(new, c, d, LineKind::Added, true);
            lemma_side_concat(x, y, false);
            lemma_side_concat(x, y, true);
            assert(old.subrange(a, b) + Seq::<Seq<char>>::empty() =~= old.subrange(a, b));
            assert(Seq::<Seq<char>>::empty() + new.subrange(c, d) =~= new.subrange(c, d));
        },
    }
}

proof fn lemma_group_sides(
    group: Seq<LineOp>,
    old: Seq<Seq<char>>,
    new: Seq<Seq<char>>,
    n: int,
)
    requires
        overlay::in_turn(group, old, new),
        0 <= n <= group.len(),
    ensures
        ({
            let s = overlay::group_start(group);
            let p = overlay::position(group, s, n);
            &&& 0 <= s.0 <= p.0 <= old.len()
            &&& 0 <= s.1 <= p.1 <= new.len()
            &&& review::side(overlay::group_lines(group.take(n), old, new), false) == old.subrange(
                s.0,
                p.0,
            )
            &&& review::side(overlay::group_lines(group.take(n), old, new), true) == new.subrange(
                s.1,
                p.1,
            )
        }),
    decreases n,
{
    let s = overlay::group_start(group);
    assert(overlay::takes_next(group[0], overlay::position(group, s, 0), old, new));
    if n > 0 {
        lemma_group_sides(group, old, new, n - 1);
        let op = group[n - 1];
        let at = overlay::position(group, s, n - 1);
        let p = overlay::position(group, s, n);
        assert(overlay::takes_next(group[n - 1], at, old, new));
        lemma_op_sides(op, at, old, new);
        let front = group.take(n - 1);
        assert(group.take(n).drop_last() =~= front);
        assert(group.take(n).last() == op);
        let x = overlay::group_lines(front, old, new);
        let y = overlay::op_lines(op, old, new);
        lemma_side_concat(x, y, false);
        lemma_side_concat(x, y, true);
        assert(old.subrange(s.0, at.0) + old.subrange(at.0, p.0) =~= old.subrange(s.0, p.0));
        assert(new.subrange(s.1, at.1) + new.subrange(at.1, p.1) =~= new.subrange(s.1, p.1));
    } else {
        assert(group.take(0) =~= Seq::empty());
        assert(old.subrange(s.0, s.0) =~= Seq::empty());
        assert(new.subrange(s.1, s.1) =~= Seq::empty());
    }
}

/// A group that takes no old line only inserts.
proof fn lemma_taken_lines(group: Seq<LineOp>, old: Seq<Seq<char>>, new: Seq<Seq<char>>, j: int)
    requires
        overlay::in_turn(group, old, new),
        0 <= j < group.len(),
        overlay::group_end(group).0 == overlay::group_start(group).0,
    ensures
        group[j].tag == OpTag::Insert,
{
    let s = overlay::group_start(group);
    lemma_position_grows(group, old, new, j + 1, group.len() as int);
    lemma_group_sides(group, old, new, j);
    assert(overlay::takes_next(group[j], overlay::position(group, s, j), old, new));
    assert(overlay::position(group, s, j + 1) == overlay::stepped(
        overlay::position(group, s, j),
        group[j],
    ));
}

proof fn lemma_position_grows(
    group: Seq<LineOp>,
    old: Seq<Seq<char>>,
    new: Seq<Seq<char>>,
    m: int,
    n: int,
)
    requires
        overlay::in_turn(group, old, new),
        0 <= m <= n <= group.len(),
    ensures
        overlay::position(group, overlay::group_start(group), m).0 <= overlay::position(
            group,
            overlay::group_start(group),
            n,
        ).0,
    decreases n - m,
{
    let s = overlay::group_start(group);
    if m < n {
        lemma_position_grows(group, old, new, m, n - 1);
        lemma_group_sides(group, old, new, n - 1);
        assert(overlay::takes_next(group[n - 1], overlay::position(group, s, n - 1), old, new));
    }
}

proof fn lemma_context_concat(
    a: Seq<(LineKind, Seq<char>)>,
    b: Seq<(LineKind, Seq<char>)>,
    old: Seq<Seq<char>>,
    at: int,
    new: Seq<Seq<char>>,
    bt: int,
)
    requires
        keeps_context(a, old, at, new, bt),
        keeps_context(
            b,
            old,
            at + review::side(a, false).len(),
            new,
            bt + review::side(a, true).len(),
        ),
    ensures
        keeps_context(a + b, old, at, new, bt),
{
    let c = a + b;
    assert forall|j: int| 0 <= j < c.len() && (#[trigger] c[j]).0 == LineKind::Context implies ({
        let x = at + review::side(c.take(j), false).len();
        let y = bt + review::side(c.take(j), true).len();
        0 <= x < old.len() && 0 <= y < new.len() && old[x] == new[y]
    }) by {
        if j < a.len() {
            assert(c[j] == a[j]);
            assert(c.take(j) =~= a.take(j));
        } else {
            let k = j - a.len();
            assert(c[j] == b[k]);
            assert(c.take(j) =~= a + b.take(k));
            lemma_side_concat(a, b.take(k), false);
            lemma_side_concat(a, b.take(k), true);
        }
    }
}

proof fn lemma_op_context(
    op: LineOp,
    at: (int, int),
    old: Seq<Seq<char>>,
    new: Seq<Seq<char>>,
)
    requires
        overlay::takes_next(op, at, old, new),
    ensures
        keeps_context(
            overlay::op_lines(op, overlay::shown(old), overlay::shown(new)),
            old,
            at.0,
            new,
            at.1,
        ),
{
    let so = overlay::shown(old);
    let lines = overlay::op_lines(op, so, overlay::shown(new));
    if op.tag == OpTag::Equal {
        let (lo, hi) = (op.old_lo as int, op.old_hi as int);
        let (c, d) = (op.new_lo as int, op.new_hi as int);
        assert(old.subrange(lo, hi).len() == new.subrange(c, d).len());
        assert forall|j: int| 0 <= j < lines.len() && (#[trigger] lines[j]).0
            == LineKind::Context implies ({
            let a = at.0 + review::side(lines.take(j), false).len();
            let b = at.1 + review::side(lines.take(j), true).len();
            0 <= a < old.len() && 0 <= b < new.len() && old[a] == new[b]
        }) by {
            assert(lines.take(j) =~= overlay::lines_between(so, lo, lo + j, LineKind::Context));
            lemma_side_uniform(so, lo, lo + j, LineKind::Context, false);
            lemma_side_uniform(so, lo, lo + j, LineKind::Context, true);
            assert(old.subrange(lo, hi)[j] == new.subrange(c, d)[j]);
        }
    }
}

proof fn lemma_group_context(
    group: Seq<LineOp>,
    old: Seq<Seq<char>>,
    new: Seq<Seq<char>>,
    n: int,
)
    requires
        overlay::in_turn(group, old, new),
        overlay::in_turn(group, overlay::shown(old), overlay::shown(new)),
        0 <= n <= group.len(),
    ensures
        keeps_context(
            overlay::group_lines(group.take(n), overlay::shown(old), overlay::shown(new)),
            old,
            overlay::group_start(group).0,
            new,
            overlay::group_start(group).1,
        ),
    decreases n,
{
    let so = overlay::shown(old);
    let sn = overlay::shown(new);
    let s = overlay::group_start(group);
    if n > 0 {
        lemma_group_context(group, old, new, n - 1);
        lemma_group_sides(group, so, sn, n - 1);
        let p = overlay::position(group, s, n - 1);
        assert(overlay::takes_next(group[n - 1], p, old, new));
        lemma_op_context(group[n - 1], p, old, new);
        let front = overlay::group_lines(group.take(n - 1), so, sn);
        assert(group.take(n).drop_last() =~= group.take(n - 1));
        lemma_context_concat(front, overlay::op_lines(group[n - 1], so, sn), old, s.0, new, s.1);
    } else {
        assert(group.take(0) =~= Seq::empty());
    }
}

/// Mapping the lines of both sides keeps a script a script.
proof fn lemma_mapped_script(
    groups: Seq<Seq<LineOp>>,
    old: Seq<Seq<char>>,
    new: Seq<Seq<char>>,
    f: spec_fn(Seq<char>) -> Seq<char>,
)
    requires
        overlay::is_script(groups, old, new),
    ensures
        overlay::is_script(groups, old.map_values(f), new.map_values(f)),
{
    let o = old.map_values(f);
    let w = new.map_values(f);
    assert forall|i: int| 0 <= i < groups.len() implies overlay::in_turn(
        #[trigger] groups[i],
        o,
        w,
    ) by {
        let group = groups[i];
        assert(overlay::in_turn(group, old, new));
        assert forall|j: int| 0 <= j < group.len() implies overlay::takes_next(
            #[trigger] group[j],
            overlay::position(group, overlay::group_start(group), j),
            o,
            w,
        ) by {
            let op = group[j];
            if op.tag == OpTag::Equal {
                lemma_mapped_part(old, new, f, op.old_lo as int, op.old_hi as int, op.new_lo as int, op.new_hi as int);
            }
        }
    }
    assert forall|i: int| 0 <= i < groups.len() implies overlay::same_between(
        o,
        w,
        overlay::groups_end(groups, i),
        overlay::group_start(#[trigger] groups[i]),
    ) by {
        let a = overlay::groups_end(groups, i);
        let b = overlay::group_start(groups[i]);
        assert(overlay::same_between(old, new, a, b));
        lemma_mapped_part(old, new, f, a.0, b.0, a.1, b.1);
    }
    let a = overlay::groups_end(groups, groups.len() as int);
    lemma_mapped_part(old, new, f, a.0, old.len() as int, a.1, new.len() as int);
}

proof fn lemma_mapped_part(
    old: Seq<Seq<char>>,
    new: Seq<Seq<char>>,
    f: spec_fn(Seq<char>) -> Seq<char>,
    a: int,
    b: int,
    c: int,
    d: int,
)
    requires
        0 <= a <= b <= old.len(),
        0 <= c <= d <= new.len(),
        old.subrange(a, b) == new.subrange(c, d),
    ensures
        old.map_values(f).subrange(a, b) == new.map_values(f).subrange(c, d),
{
    assert(old.map_values(f).subrange(a, b) =~= old.subrange(a, b).map_values(f));
    assert(new.map_values(f).subrange(c, d) =~= new.subrange(c, d).map_values(f));
}

/// Whether hunk `i` is that of group `i`: it lies where the group does, and its
/// sides show the lines there.
pub open spec fn placed(
    hunks: Seq<HunkView>,
    groups: Seq<Seq<LineOp>>,
    old: Seq<Seq<char>>,
    new: Seq<Seq<char>>,
    i: int,
) -> bool {
    let s = overlay::group_start(groups[i]);
    let e = overlay::group_end(groups[i]);
    &&& 0 <= s.0 <= e.0 <= old.len()
    &&& 0 <= s.1 <= e.1 <= new.len()
    &&& review::hunk_start(hunks[i]) == s.0
    &&& review::hunk_end(hunks[i]) == e.0
    &&& review::side(hunks[i].lines, false) == overlay::shown(old.subrange(s.0, e.0))
    &&& review::side(hunks[i].lines, true) == overlay::shown(new.subrange(s.1, e.1))
    &&& keeps_context(hunks[i].lines, old, s.0, new, s.1)
    &&& overlay::same_between(old, new, overlay::groups_end(groups, i), s)
}

pub proof fn lemma_placed(
    groups: Seq<Seq<LineOp>>,
    old: Seq<Seq<char>>,
    new: Seq<Seq<char>>,
    i: int,
)
    requires
        overlay::is_script(groups, old, new),
        0 <= i < groups.len(),
    ensures
        placed(
            overlay::groups_hunks(groups, overlay::shown(old), overlay::shown(new)),
            groups,
            old,
            new,
            i,
        ),
{
    let so = overlay::shown(old);
    let sn = overlay::shown(new);
    let hunks = overlay::groups_hunks(groups, so, sn);
    let g = groups[i];
    let s = overlay::group_start(g);
    let e = overlay::group_end(g);
    lemma_mapped_script(groups, old, new, |t: Seq<char>| overlay::without_newline(t));
    assert(hunks[i] == overlay::group_hunk(g, so, sn));
    assert(overlay::in_turn(groups[i], old, new));
    assert(overlay::in_turn(groups[i], so, sn));
    lemma_group_sides(g, so, sn, g.len() as int);
    lemma_group_context(g, old, new, g.len() as int);
    assert(g.take(g.len() as int) =~= g);
    assert(so.subrange(s.0, e.0) =~= overlay::shown(old.subrange(s.0, e.0)));
    assert(sn.subrange(s.1, e.1) =~= overlay::shown(new.subrange(s.1, e.1)));
    assert(overlay::same_between(old, new, overlay::groups_end(groups, i), overlay::group_start(groups[i])));
    if e.0 == s.0 {
        lemma_taken_lines(g, so, sn, 0);
        lemma_taken_lines(g, so, sn, g.len() - 1);
        assert(groups[i].last().tag != OpTag::Equal);
    }
}

pub proof fn lemma_script_positions(
    hunks: Seq<HunkView>,
    groups: Seq<Seq<LineOp>>,
    old: Seq<Seq<char>>,
    new: Seq<Seq<char>>,
    n: int,
)
    requires
        hunks.len() == groups.len(),
        forall|i: int| 0 <= i < hunks.len() ==> #[trigger] placed(hunks, groups, old, new, i),
        0 <= n <= hunks.len(),
    ensures
        review::cursor_after(hunks, n) == overlay::groups_end(groups, n).0,
        new_cursor_after(hunks, n) == overlay::groups_end(groups, n).1,
        0 <= overlay::groups_end(groups, n).0 <= old.len(),
        0 <= overlay::groups_end(groups, n).1 <= new.len(),
        n > 0 ==> covers_old(hunks, old, n - 1),
        n > 0 ==> covers_new(hunks, old, new, n - 1),
    decreases n,
{
    if n > 0 {
        lemma_script_positions(hunks, groups, old, new, n - 1);
        assert(placed(hunks, groups, old, new, n - 1));
        let (o, w) = overlay::groups_end(groups, n - 1);
        let s = overlay::group_start(groups[n - 1]);
        let e = overlay::group_end(groups[n - 1]);
        assert(old.subrange(o, s.0).len() == new.subrange(w, s.1).len());
        assert(overlay::shown(new.subrange(s.1, e.1)).len() == e.1 - s.1);
        assert(new_start_of(hunks, n - 1) == s.1);
    }
}

/// The hunks of a script count the lines that they show, and describe how the
/// old lines become the new.
pub proof fn law_script_describes(
    groups: Seq<Seq<LineOp>>,
    old: Seq<Seq<char>>,
    new: Seq<Seq<char>>,
)
    requires
        overlay::is_script(groups, old, new),
    ensures
        counts_agree(overlay::groups_hunks(groups, overlay::shown(old), overlay::shown(new))),
        describes(
            overlay::groups_hunks(groups, overlay::shown(old), overlay::shown(new)),
            old,
            new,
        ),
{
    let hunks = overlay::groups_hunks(groups, overlay::shown(old), overlay::shown(new));
    assert forall|i: int| 0 <= i < hunks.len() implies #[trigger] placed(
        hunks,
        groups,
        old,
        new,
        i,
    ) by {
        lemma_placed(groups, old, new, i);
    }
    assert forall|i: int| 0 <= i < hunks.len() implies #[trigger] covers_old(hunks, old, i) by {
        lemma_script_positions(hunks, groups, old, new, i + 1);
    }
    assert forall|i: int| 0 <= i < hunks.len() implies #[trigger] covers_new(
        hunks,
        old,
        new,
        i,
    ) by {
        lemma_script_positions(hunks, groups, old, new, i + 1);
    }
    let n = hunks.len() as int;
    lemma_script_positions(hunks, groups, old, new, n);
    let (o, w) = overlay::groups_end(groups, n);
    assert(old.skip(o) =~= old.subrange(o, old.len() as int));
    assert(new.skip(w) =~= new.subrange(w, new.len() as int));
}

/// Whether the hunks of a file's difference count the lines that they show and
/// describe how its content `old` becomes `new`; a binary difference has none.
pub open spec fn file_tells(d: FileDiffView, old: Seq<u8>, new: Seq<u8>) -> bool {
    !d.binary ==> counts_agree(d.hunks) && describes(
        d.hunks,
        overlay::line_tokens(decode_utf8(old)),
        overlay::line_tokens(decode_utf8(new)),
    )
}

/// A difference of two texts that are not the same has hunks.
pub proof fn law_different_texts_have_hunks(d: FileDiffView, old: Seq<u8>, new: Seq<u8>)
    requires
        file_tells(d, old, new),
        !d.binary,
        valid_utf8(old),
        valid_utf8(new),
        old != new,
    ensures
        d.hunks.len() > 0,
{
    if d.hunks.len() == 0 {
        let o = decode_utf8(old);
        let w = decode_utf8(new);
        let a = overlay::line_tokens(o);
        let b = overlay::line_tokens(w);
        assert(a.skip(0) =~= a);
        assert(b.skip(0) =~= b);
        lemma_lines_of(o);
        lemma_lines_of(w);
        if o.len() > 0 {
            lemma_lines_spell(o);
        }
        if w.len() > 0 {
            lemma_lines_spell(w);
        }
        assert(o =~= w);
        vstd::utf8::decode_utf8_encode_utf8(old);
        vstd::utf8::decode_utf8_encode_utf8(new);
    }
}

/// Accepting every hunk of a modified file writes its new content, where no
/// added line ends in `\r\n` and both contents end alike.
pub proof fn law_accepted_change_is_written(
    d: FileDiffView,
    old: Seq<u8>,
    new: Seq<u8>,
    accepted: Set<usize>,
)
    requires
        d.kind == DiffKind::Modified,
        !d.binary,
        valid_utf8(old),
        valid_utf8(new),
        old != new,
        file_tells(d, old, new),
        hunks_add_no_crlf(d.hunks, overlay::line_tokens(decode_utf8(new))),
        ends_alike(decode_utf8(old), decode_utf8(new)),
        forall|i: int| 0 <= i < d.hunks.len() ==> #[trigger] accepted.contains(i as usize),
    ensures
        review::review_step(d, accepted, Ok(decode_utf8(old))) == review::StepView::Act(
            review::ActionView::Write { path: d.path, content: new },
        ),
{
    law_different_texts_have_hunks(d, old, new);
    law_accept_all_reproduces_new(decode_utf8(old), decode_utf8(new), d.hunks, accepted);
    vstd::utf8::decode_utf8_encode_utf8(new);
    assert(accepted.contains(0int as usize));
}

proof fn lemma_new_sides(hunks: Seq<HunkView>, new: Seq<Seq<char>>, n: int)
    requires
        describes(hunks, Seq::empty(), new),
        0 <= n <= hunks.len(),
    ensures
        0 <= new_cursor_after(hunks, n) <= new.len(),
        review::new_sides(hunks.take(n)) == overlay::shown(new).take(new_cursor_after(hunks, n)),
    decreases n,
{
    let none = Seq::<Seq<char>>::empty();
    if n > 0 {
        lemma_new_sides(hunks, new, n - 1);
        assert(covers_old(hunks, none, n - 1));
        assert(covers_new(hunks, none, new, n - 1));
        let at = new_cursor_after(hunks, n - 1);
        let end = new_cursor_after(hunks, n);
        assert(hunks.take(n).drop_last() =~= hunks.take(n - 1));
        assert(hunks.take(n).last() == hunks[n - 1]);
        assert(new_start_of(hunks, n - 1) == at);
        assert(overlay::shown(new.subrange(at, end)) =~= overlay::shown(new).subrange(at, end));
        assert(overlay::shown(new).take(end) =~= overlay::shown(new).take(at) + overlay::shown(new).subrange(at, end));
    } else {
        assert(hunks.take(0) =~= Seq::empty());
        assert(overlay::shown(new).take(0) =~= Seq::empty());
    }
}

proof fn lemma_with_newlines_cons(a: Seq<char>, rest: Seq<Seq<char>>)
    ensures
        review::with_newlines(seq![a] + rest) == a.push('\n') + review::with_newlines(rest),
    decreases rest.len(),
{
    let all = seq![a] + rest;
    if rest.len() == 0 {
        reveal_with_fuel(review::with_newlines, 2);
        assert(all.drop_last() =~= Seq::empty());
        assert(review::with_newlines(all) =~= a.push('\n') + review::with_newlines(rest));
    } else {
        assert(all.drop_last() =~= seq![a] + rest.drop_last());
        assert(all.last() == rest.last());
        lemma_with_newlines_cons(a, rest.drop_last());
        assert(review::with_newlines(all) =~= a.push('\n') + review::with_newlines(rest));
    }
}

proof fn lemma_lines_with_newlines(t: Seq<char>)
    requires
        no_cr(t),
        t.len() == 0 || review::ends_line(t),
    ensures
        review::with_newlines(overlay::shown_lines(t)) == t,
    decreases t.len(),
{
    if t.len() == 0 {
        assert(t =~= Seq::empty());
        assert(overlay::shown_lines(t) =~= Seq::empty());
    } else {
        overlay::lemma_first_token_len(t);
        lemma_first_line(t);
        let n = overlay::first_token_len(t);
        let head = t.take(n);
        let rest = t.skip(n);
        assert(head.last() == t[n - 1]);
        if n >= 2 {
            assert(head[n - 2] == t[n - 2]);
        }
        if n == t.len() {
            assert(t[n - 1] == t.last());
        }
        let line = overlay::without_newline(head);
        assert(line =~= t.take(n - 1));
        assert forall|i: int| 0 <= i < rest.len() implies #[trigger] rest[i] != '\r' by {
            assert(rest[i] == t[n + i]);
        }
        if rest.len() > 0 {
            assert(rest.last() == t.last());
        }
        lemma_lines_with_newlines(rest);
        assert(overlay::shown_lines(t) =~= seq![line] + overlay::shown_lines(rest));
        lemma_with_newlines_cons(line, overlay::shown_lines(rest));
        assert(line.push('\n') + rest =~= t);
    }
}

/// Whether `s` has no `\r`.
pub open spec fn no_cr(s: Seq<char>) -> bool {
    forall|i: int| 0 <= i < s.len() ==> #[trigger] s[i] != '\r'
}

/// Accepting an added file writes its content, where it is text without `\r`
/// whose last line ends in `\n`.
pub proof fn law_accepted_addition_is_written(
    d: FileDiffView,
    new: Seq<u8>,
    accepted: Set<usize>,
    original: Result<Seq<char>, Seq<char>>,
)
    requires
        d.kind == DiffKind::Added,
        !d.binary,
        valid_utf8(new),
        file_tells(d, Seq::empty(), new),
        no_cr(decode_utf8(new)),
        new.len() == 0 || review::ends_line(decode_utf8(new)),
        !accepted.is_empty(),
    ensures
        review::review_step(d, accepted, original) == review::StepView::Act(
            review::ActionView::Write { path: d.path, content: new },
        ),
{
    let t = decode_utf8(new);
    let none = decode_utf8(Seq::<u8>::empty());
    let toks = overlay::line_tokens(t);
    let n = d.hunks.len() as int;
    assert(overlay::line_tokens(none) =~= Seq::empty());
    lemma_new_sides(d.hunks, toks, n);
    assert(d.hunks.take(n) =~= d.hunks);
    let c = review::cursor_after(d.hunks, n);
    let at = new_cursor_after(d.hunks, n);
    if n > 0 {
        assert(covers_old(d.hunks, Seq::empty(), n - 1));
    }
    assert(Seq::<Seq<char>>::empty().skip(c).len() == 0);
    assert(toks.skip(at).len() == 0);
    assert(overlay::shown_lines(t).take(at) =~= overlay::shown_lines(t));
    if new.len() == 0 {
        assert(t.len() == 0);
    }
    lemma_lines_with_newlines(t);
    vstd::utf8::decode_utf8_encode_utf8(new);
}

/// Hunks that describe a change lie within the old text, so that they can be
/// applied.
pub proof fn law_described_hunks_fit(
    hunks: Seq<HunkView>,
    old: Seq<Seq<char>>,
)
    requires
        describes_old(hunks, old),
        old.len() <= usize::MAX,
        forall|i: int| 0 <= i < hunks.len() ==> (#[trigger] hunks[i]).old_count >= 0,
    ensures
        review::hunks_fit(hunks, old.len() as int),
{
    assert forall|i: int| 0 <= i < hunks.len() implies ({
        let h = #[trigger] hunks[i];
        &&& h.old_count > 0 ==> h.old_start >= 1 && h.old_start + h.old_count - 1 <= usize::MAX
        &&& review::hunk_start(h) <= old.len() || review::hunk_start(h) <= review::cursor_after(hunks, i)
    }) by {
        assert(covers_old(hunks, old, i));
    }
}

/// The front of a text decides what a hunk within it puts into the result.
proof fn lemma_placed_in_front(
    lines: Seq<(LineKind, Seq<char>)>,
    old: Seq<Seq<char>>,
    k: int,
    at: int,
    new_side: bool,
)
    requires
        0 <= at,
        at + review::side(lines, false).len() <= k <= old.len(),
    ensures
        review::placed_side(lines, old.take(k), at, new_side) == review::placed_side(
            lines,
            old,
            at,
            new_side,
        ),
    decreases lines.len(),
{
    if lines.len() > 0 {
        lemma_placed_in_front(lines.drop_last(), old, k, at, new_side);
    }
}

proof fn lemma_decided_before(
    hunks: Seq<HunkView>,
    old: Seq<Seq<char>>,
    one: Set<usize>,
    other: Set<usize>,
    i: int,
    n: int,
)
    requires
        describes_old(hunks, old),
        0 <= n <= i < hunks.len() <= usize::MAX,
        forall|j: int| 0 <= j < i ==> (#[trigger] one.contains(j as usize) == other.contains(
            j as usize,
        )),
    ensures
        0 <= review::cursor_after(hunks, n) <= review::hunk_start(hunks[i]),
        review::cursor_after(hunks.take(i), n) == review::cursor_after(hunks, n),
        review::applied_lines(old.take(review::hunk_start(hunks[i])), hunks.take(i), one, n)
            == review::applied_lines(old, hunks, other, n),
    decreases n,
{
    let start = review::hunk_start(hunks[i]);
    let front = old.take(start);
    assert(covers_old(hunks, old, i));
    lemma_cursors_rise(hunks, old, n, i);
    if n > 0 {
        lemma_decided_before(hunks, old, one, other, i, n - 1);
        let h = hunks[n - 1];
        assert(hunks.take(i)[n - 1] == h);
        assert(covers_old(hunks, old, n - 1));
        assert(one.contains((n - 1) as usize) == other.contains((n - 1) as usize));
        let (a, b) = (review::hunk_start(h), review::hunk_end(h));
        assert(overlay::shown(old.subrange(a, b)).len() == b - a);
        lemma_placed_in_front(h.lines, old, start, a, other.contains((n - 1) as usize));
        let c = review::cursor_after(hunks, n - 1);
        assert(review::lines_from_to(front, c, a) =~= review::lines_from_to(old, c, a));
    }
}

/// Behind one hunk stands no hunk that is before it.
proof fn lemma_cursors_rise(hunks: Seq<HunkView>, old: Seq<Seq<char>>, n: int, i: int)
    requires
        describes_old(hunks, old),
        0 <= n <= i < hunks.len(),
    ensures
        0 <= review::cursor_after(hunks, n) <= review::cursor_after(hunks, i)
            <= review::hunk_start(hunks[i]),
    decreases i,
{
    assert(covers_old(hunks, old, i));
    if n < i {
        lemma_cursors_rise(hunks, old, n, i - 1);
        assert(covers_old(hunks, old, i - 1));
    }
}

/// What two decisions that agree behind hunk `i` put behind it.
proof fn lemma_decided_behind(
    hunks: Seq<HunkView>,
    old: Seq<Seq<char>>,
    one: Set<usize>,
    other: Set<usize>,
    i: int,
    n: int,
) -> (back: Seq<Seq<char>>)
    requires
        0 <= i < n <= hunks.len() <= usize::MAX,
        forall|j: int| i < j < n ==> (#[trigger] one.contains(j as usize) == other.contains(
            j as usize,
        )),
    ensures
        review::applied_lines(old, hunks, one, n) == review::applied_lines(old, hunks, one, i + 1)
            + back,
        review::applied_lines(old, hunks, other, n) == review::applied_lines(
            old,
            hunks,
            other,
            i + 1,
        ) + back,
    decreases n,
{
    if n == i + 1 {
        let back = Seq::<Seq<char>>::empty();
        assert(review::applied_lines(old, hunks, one, n) + back =~= review::applied_lines(
            old,
            hunks,
            one,
            n,
        ));
        assert(review::applied_lines(old, hunks, other, n) + back =~= review::applied_lines(
            old,
            hunks,
            other,
            n,
        ));
        back
    } else {
        let front = lemma_decided_behind(hunks, old, one, other, i, n - 1);
        let h = hunks[n - 1];
        assert(one.contains((n - 1) as usize) == other.contains((n - 1) as usize));
        let gap = review::lines_from_to(
            old,
            review::cursor_after(hunks, n - 1),
            review::hunk_start(h),
        );
        let own = review::placed_side(
            h.lines,
            old,
            review::hunk_start(h),
            one.contains((n - 1) as usize),
        );
        let back = front + gap + own;
        assert(review::applied_lines(old, hunks, one, n) =~= review::applied_lines(
            old,
            hunks,
            one,
            i + 1,
        ) + back);
        assert(review::applied_lines(old, hunks, other, n) =~= review::applied_lines(
            old,
            hunks,
            other,
            i + 1,
        ) + back);
        back
    }
}

/// Whether a result consists of these three parts.
pub open spec fn consists_of<A>(whole: Seq<A>, front: Seq<A>, own: Seq<A>, back: Seq<A>) -> bool {
    whole == front + own + back
}

/// Each hunk is decided by itself. Whatever is decided on the others: accepting
/// hunk `i` puts its part of the new text into the result, not accepting it
/// leaves its part of the old text there, and the rest of the result is the
/// same. In front of it stands what the hunks before it make of the text before
/// it. As in [`law_accept_all_lines`], a last line may get a `\n` that it lacks.
pub proof fn law_each_hunk_is_decided_by_itself(
    hunks: Seq<HunkView>,
    old: Seq<Seq<char>>,
    new: Seq<Seq<char>>,
    accepted: Set<usize>,
    i: int,
) -> (parts: (Seq<Seq<char>>, Seq<Seq<char>>))
    requires
        describes(hunks, old, new),
        hunks_add_no_crlf(hunks, new),
        forall|k: int| 0 <= k < new.len() ==> one_line(#[trigger] new[k]),
        0 <= i < hunks.len() <= usize::MAX,
    ensures
        ({
            let start = review::hunk_start(hunks[i]);
            let end = review::hunk_end(hunks[i]);
            let front = review::result_lines(old.take(start), hunks.take(i), accepted);
            let (own, back) = parts;
            &&& all_like(own, new.subrange(new_start_of(hunks, i), new_cursor_after(hunks, i + 1)))
            &&& accepted.contains(i as usize) ==> consists_of(
                review::result_lines(old, hunks, accepted),
                front,
                own,
                back,
            )
            &&& !accepted.contains(i as usize) ==> consists_of(
                review::result_lines(old, hunks, accepted),
                front,
                old.subrange(start, end),
                back,
            )
            &&& consists_of(
                review::result_lines(old, hunks, accepted.insert(i as usize)),
                front,
                own,
                back,
            )
            &&& consists_of(
                review::result_lines(old, hunks, accepted.remove(i as usize)),
                front,
                old.subrange(start, end),
                back,
            )
        }),
{
    let n = hunks.len() as int;
    let h = hunks[i];
    let start = review::hunk_start(h);
    let yes = accepted.insert(i as usize);
    let no = accepted.remove(i as usize);
    assert(covers_old(hunks, old, i));
    assert(covers_new(hunks, old, new, i));
    assert(adds_no_crlf(hunks[i].lines, new, new_start_of(hunks, i)));
    lemma_accepted_side(
        h.lines,
        old,
        start,
        new,
        new_start_of(hunks, i),
        new_cursor_after(hunks, i + 1),
    );
    lemma_rejected_side(h.lines, old, start, review::hunk_end(h));
    let own = review::placed_side(h.lines, old, start, true);
    let kept = review::placed_side(h.lines, old, start, false);
    lemma_decided_before(hunks, old, accepted, yes, i, i);
    lemma_decided_before(hunks, old, accepted, no, i, i);
    let c = review::cursor_after(hunks, i);
    let front = review::result_lines(old.take(start), hunks.take(i), accepted);
    assert(review::lines_from_to(old.take(start), c, start) =~= review::lines_from_to(
        old,
        c,
        start,
    ));
    let more = lemma_decided_behind(hunks, old, yes, no, i, n);
    let rest = review::lines_from_to(old, review::cursor_after(hunks, n), old.len() as int);
    let back = more + rest;
    assert(review::applied_lines(old, hunks, yes, i + 1) == front + own);
    assert(review::applied_lines(old, hunks, no, i + 1) == front + kept);
    assert(review::result_lines(old, hunks, yes) =~= front + own + back);
    assert(review::result_lines(old, hunks, no) =~= front + kept + back);
    if accepted.contains(i as usize) {
        assert(yes =~= accepted);
    } else {
        assert(no =~= accepted);
    }
    (own, back)
}

proof fn lemma_flat_of_ended(lines: Seq<Seq<char>>)
    requires
        forall|k: int| 0 <= k < lines.len() ==> review::has_end(#[trigger] lines[k]),
    ensures
        review::in_a_row(lines) == lines.flatten(),
    decreases lines.len(),
{
    if lines.len() > 0 {
        let front = lines.drop_last();
        assert forall|k: int| 0 <= k < front.len() implies review::has_end(
            #[trigger] front[k],
        ) by {
            assert(front[k] == lines[k]);
        }
        lemma_flat_of_ended(front);
        assert(review::has_end(lines[lines.len() - 1]));
        assert(lines =~= front.push(lines.last()));
        lemma_flat_push(front, lines.last());
    } else {
        assert(lines.flatten() =~= Seq::empty());
    }
}

proof fn lemma_flat_add(a: Seq<Seq<char>>, b: Seq<Seq<char>>)
    ensures
        (a + b).flatten() == a.flatten() + b.flatten(),
    decreases a.len(),
{
    if a.len() == 0 {
        assert(a + b =~= b);
        assert(a.flatten() =~= Seq::empty());
        assert(a.flatten() + b.flatten() =~= b.flatten());
    } else {
        lemma_flat_add(a.drop_first(), b);
        assert((a + b).drop_first() =~= a.drop_first() + b);
        assert((a + b).first() == a.first());
        assert((a + b).flatten() =~= a.flatten() + b.flatten());
    }
}

proof fn lemma_flat_push(a: Seq<Seq<char>>, x: Seq<char>)
    ensures
        a.push(x).flatten() == a.flatten() + x,
{
    let one = seq![x];
    lemma_flat_add(a, one);
    assert(a + one =~= a.push(x));
    assert(one.drop_first() =~= Seq::empty());
    assert(one.first() == x);
    assert(one.drop_first().flatten() =~= Seq::empty());
    assert(one.flatten() =~= x);
}

/// The text of lines that all have their ends is those lines in a row.
proof fn lemma_text_of_ended(original: Seq<char>, lines: Seq<Seq<char>>)
    requires
        original.len() == 0 || review::ends_line(original),
        forall|k: int| 0 <= k < lines.len() ==> review::has_end(#[trigger] lines[k]),
    ensures
        review::result_text(original, lines) == lines.flatten(),
{
    if lines.len() > 0 {
        let front = lines.drop_last();
        assert forall|k: int| 0 <= k < front.len() implies review::has_end(
            #[trigger] front[k],
        ) by {
            assert(front[k] == lines[k]);
        }
        lemma_flat_of_ended(front);
        assert(lines =~= front.push(lines.last()));
        lemma_flat_push(front, lines.last());
    } else {
        assert(lines.flatten() =~= Seq::empty());
    }
}

/// Every line of a result has an end, where every line that goes into it has.
proof fn lemma_result_is_ended(
    hunks: Seq<HunkView>,
    old: Seq<Seq<char>>,
    new: Seq<Seq<char>>,
    accepted: Set<usize>,
    n: int,
)
    requires
        describes(hunks, old, new),
        0 <= n <= hunks.len(),
        forall|k: int| 0 <= k < old.len() ==> review::has_end(#[trigger] old[k]),
    ensures
        forall|k: int|
            0 <= k < review::applied_lines(old, hunks, accepted, n).len() ==> review::has_end(
                #[trigger] review::applied_lines(old, hunks, accepted, n)[k],
            ),
    decreases n,
{
    if n > 0 {
        lemma_result_is_ended(hunks, old, new, accepted, n - 1);
        let h = hunks[n - 1];
        assert(covers_old(hunks, old, n - 1));
        let take = accepted.contains((n - 1) as usize);
        lemma_placed_is_ended(h.lines, old, review::hunk_start(h), take);
        let whole = review::applied_lines(old, hunks, accepted, n);
        let front = review::applied_lines(old, hunks, accepted, n - 1);
        let c = review::cursor_after(hunks, n - 1);
        let gap = review::lines_from_to(old, c, review::hunk_start(h));
        let own = review::placed_side(h.lines, old, review::hunk_start(h), take);
        assert forall|k: int| 0 <= k < whole.len() implies review::has_end(
            #[trigger] whole[k],
        ) by {
            if k < front.len() {
                assert(whole[k] == front[k]);
            } else if k < front.len() + gap.len() {
                assert(whole[k] == old[c + (k - front.len())]);
            } else {
                assert(whole[k] == own[k - front.len() - gap.len()]);
            }
        }
    }
}

proof fn lemma_placed_is_ended(
    lines: Seq<(LineKind, Seq<char>)>,
    old: Seq<Seq<char>>,
    at: int,
    new_side: bool,
)
    requires
        forall|k: int| 0 <= k < old.len() ==> review::has_end(#[trigger] old[k]),
    ensures
        forall|k: int|
            0 <= k < review::placed_side(lines, old, at, new_side).len() ==> review::has_end(
                #[trigger] review::placed_side(lines, old, at, new_side)[k],
            ),
    decreases lines.len(),
{
    if lines.len() > 0 {
        let front = lines.drop_last();
        lemma_placed_is_ended(front, old, at, new_side);
        let k = at + review::side(front, false).len();
        let line = review::placed_line(lines.last(), old, k);
        if line != review::as_line(lines.last().1) {
            assert(line == old[k]);
        }
        assert(review::has_end(line));
        let placed = review::placed_side(front, old, at, new_side);
        let whole = review::placed_side(lines, old, at, new_side);
        assert(whole == placed.push(line) || whole == placed);
        assert forall|j: int| 0 <= j < whole.len() implies review::has_end(
            #[trigger] whole[j],
        ) by {
            if j < placed.len() {
                assert(whole[j] == placed[j]);
            }
        }
    }
}

/// The lines of a text that ends in `\n` all have their ends.
proof fn lemma_all_ended(s: Seq<char>)
    requires
        s.len() == 0 || review::ends_line(s),
    ensures
        forall|k: int|
            0 <= k < overlay::line_tokens(s).len() ==> review::has_end(
                #[trigger] overlay::line_tokens(s)[k],
            ),
{
    lemma_lines_of(s);
    let toks = overlay::line_tokens(s);
    if s.len() > 0 {
        assert(one_line(toks[toks.len() - 1]));
    }
}

/// Of a text whose lines all end, each hunk decides its own part: accepting hunk
/// `i` puts the new lines that it covers between two texts, not accepting it
/// leaves the old lines that it covers between the same two. The first of these
/// holds what the hunks before it make of the lines before it.
pub proof fn law_each_hunk_decides_its_own_text(
    old: Seq<char>,
    new: Seq<char>,
    hunks: Seq<HunkView>,
    accepted: Set<usize>,
    i: int,
) -> (back: Seq<char>)
    requires
        describes(hunks, overlay::line_tokens(old), overlay::line_tokens(new)),
        hunks_add_no_crlf(hunks, overlay::line_tokens(new)),
        old.len() == 0 || review::ends_line(old),
        new.len() == 0 || review::ends_line(new),
        0 <= i < hunks.len() <= usize::MAX,
    ensures
        ({
            let before = overlay::line_tokens(old);
            let after = overlay::line_tokens(new);
            let start = review::hunk_start(hunks[i]);
            let front = review::result_lines(before.take(start), hunks.take(i), accepted).flatten();
            let taken = after.subrange(
                new_start_of(hunks, i),
                new_cursor_after(hunks, i + 1),
            ).flatten();
            let left = before.subrange(start, review::hunk_end(hunks[i])).flatten();
            &&& consists_of(
                review::applied_text(old, hunks, accepted),
                front,
                if accepted.contains(i as usize) {
                    taken
                } else {
                    left
                },
                back,
            )
            &&& consists_of(
                review::applied_text(old, hunks, accepted.insert(i as usize)),
                front,
                taken,
                back,
            )
            &&& consists_of(
                review::applied_text(old, hunks, accepted.remove(i as usize)),
                front,
                left,
                back,
            )
        }),
{
    let before = overlay::line_tokens(old);
    let after = overlay::line_tokens(new);
    lemma_lines_of(new);
    lemma_all_ended(old);
    lemma_all_ended(new);
    let (own, back) = law_each_hunk_is_decided_by_itself(hunks, before, after, accepted, i);
    let start = review::hunk_start(hunks[i]);
    assert(covers_old(hunks, before, i));
    assert(covers_new(hunks, before, after, i));
    let front = review::result_lines(before.take(start), hunks.take(i), accepted);
    let taken = after.subrange(new_start_of(hunks, i), new_cursor_after(hunks, i + 1));
    let left = before.subrange(start, review::hunk_end(hunks[i]));
    assert(own =~= taken) by {
        assert forall|k: int| 0 <= k < own.len() implies own[k] == taken[k] by {
            assert(like(own[k], taken[k]));
            assert(taken[k] == after[new_start_of(hunks, i) + k]);
        }
    }
    let yes = accepted.insert(i as usize);
    let no = accepted.remove(i as usize);
    lemma_text_of_result(old, new, hunks, accepted);
    lemma_text_of_result(old, new, hunks, yes);
    lemma_text_of_result(old, new, hunks, no);
    lemma_flat_add(front + taken, back);
    lemma_flat_add(front, taken);
    lemma_flat_add(front + left, back);
    lemma_flat_add(front, left);
    back.flatten()
}

proof fn lemma_text_of_result(
    old: Seq<char>,
    new: Seq<char>,
    hunks: Seq<HunkView>,
    accepted: Set<usize>,
)
    requires
        describes(hunks, overlay::line_tokens(old), overlay::line_tokens(new)),
        old.len() == 0 || review::ends_line(old),
    ensures
        review::applied_text(old, hunks, accepted) == review::result_lines(
            overlay::line_tokens(old),
            hunks,
            accepted,
        ).flatten(),
{
    let before = overlay::line_tokens(old);
    lemma_all_ended(old);
    let n = hunks.len() as int;
    lemma_result_is_ended(hunks, before, overlay::line_tokens(new), accepted, n);
    let whole = review::result_lines(before, hunks, accepted);
    let front = review::applied_lines(before, hunks, accepted, n);
    let c = review::cursor_after(hunks, n);
    if n > 0 {
        assert(covers_old(hunks, before, n - 1));
    }
    assert forall|k: int| 0 <= k < whole.len() implies review::has_end(#[trigger] whole[k]) by {
        if k < front.len() {
            assert(whole[k] == front[k]);
        } else {
            assert(whole[k] == before[c + (k - front.len())]);
        }
    }
    lemma_text_of_ended(old, whole);
}

} // verus!
