//! Review of overlay changes: which hunks of which files reach the host.
//!
//! The target text of a file is rebuilt by walking the original forward
//! through its hunks. An accepted hunk shows its new side, any other hunk its
//! old side, and what lies between hunks is copied from the original.

use std::collections::BTreeSet;
use vstd::prelude::*;
use vstd::string::*;
use crate::overlay;
use crate::overlay::{
    strip_trailing_newline, DiffHunk, DiffKind, DiffLine, FileDiff, FileDiffView, HunkView,
    LineKind,
};
use crate::text;

verus! {

/// Decision on one file.
///
/// `accepted_hunks` holds the zero-based indices of the hunks to apply. An
/// empty set rejects the entire file.
#[derive(Clone, PartialEq, Eq, Debug)]
pub struct FileReview {
    pub file_index: usize,
    pub accepted_hunks: BTreeSet<usize>,
}

impl FileReview {
    /// Accepts all of the `hunk_count` hunks of a file.
    pub fn accept_all(file_index: usize, hunk_count: usize) -> (r: Self)
        ensures
            r.file_index == file_index,
            forall|i: usize| r.accepted_hunks@.contains(i) <==> i < hunk_count,
            r.accepted_hunks@.finite(),
    {
        broadcast use vstd::std_specs::btree::group_btree_axioms;

        let mut accepted_hunks: BTreeSet<usize> = BTreeSet::new();
        let mut i: usize = 0;
        while i < hunk_count
            invariant
                i <= hunk_count,
                forall|k: usize| accepted_hunks@.contains(k) <==> k < i,
                accepted_hunks@.finite(),
            decreases hunk_count - i,
        {
            accepted_hunks.insert(i);
            i += 1;
        }
        FileReview { file_index, accepted_hunks }
    }

    /// Rejects a file.
    pub fn reject_all(file_index: usize) -> (r: Self)
        ensures
            r.file_index == file_index,
            r.accepted_hunks@ == Set::<usize>::empty(),
    {
        FileReview { file_index, accepted_hunks: BTreeSet::new() }
    }
}

/// The end of the first line of a text, its `\n` included.
pub open spec fn first_line_len(s: Seq<char>) -> int {
    let n = text::first_of(s, '\n');
    if n < s.len() {
        n + 1
    } else {
        s.len() as int
    }
}

/// The lines of a text: what stands between its `\n`, less a `\r` before
/// each; a last line without `\n` counts, an empty one does not.
pub open spec fn text_lines(s: Seq<char>) -> Seq<Seq<char>>
    decreases s.len(),
{
    if s.len() == 0 {
        Seq::empty()
    } else {
        let n = first_line_len(s);
        if 0 < n <= s.len() {
            seq![overlay::without_newline(s.take(n))] + text_lines(s.skip(n))
        } else {
            Seq::empty()
        }
    }
}

/// The lines of `s`.
pub(crate) fn lines(s: &str) -> (r: Vec<String>)
    ensures
        text::views(r@) == text_lines(s@),
{
    let v = text::to_chars(s);
    let mut out: Vec<String> = Vec::new();
    let mut at: usize = 0;
    proof {
        assert(s@.skip(0) =~= s@);
        assert(text::views(out@) + text_lines(s@) =~= text_lines(s@));
    }
    while at < v.len()
        invariant
            at <= v@.len(),
            v@ == s@,
            text::views(out@) + text_lines(s@.skip(at as int)) == text_lines(s@),
        decreases v@.len() - at,
    {
        let ghost rest = s@.skip(at as int);
        let mut end: usize = at;
        proof {
            text::lemma_first_of(rest, '\n');
        }
        while end < v.len() && v[end] != '\n'
            invariant
                at <= end <= v@.len(),
                v@ == s@,
                rest == s@.skip(at as int),
                forall|k: int| at <= k < end ==> v@[k] != '\n',
            decreases v@.len() - end,
        {
            end += 1;
        }
        proof {
            let f = text::first_of(rest, '\n');
            if f < end - at {
                assert(rest[f] == v@[at + f]);
            }
            if end < v@.len() && f > end - at {
                assert(rest[end - at] == v@[end as int]);
            }
            assert(f == end - at);
        }
        if end < v.len() {
            end += 1;
        }
        let line = strip_trailing_newline(&v, at, end);
        let ghost before = text::views(out@);
        proof {
            assert(rest.take(end - at) =~= v@.subrange(at as int, end as int));
            assert(rest.skip(end - at) =~= s@.skip(end as int));
            text::lemma_views_push(out@, line);
        }
        out.push(line);
        proof {
            assert(before.push(line@) + text_lines(s@.skip(end as int)) =~= before + (seq![line@]
                + text_lines(s@.skip(end as int))));
        }
        at = end;
    }
    proof {
        assert(text_lines(s@.skip(at as int)) =~= Seq::empty());
        assert(text::views(out@) + Seq::<Seq<char>>::empty() =~= text::views(out@));
    }
    out
}

/// Whether a line of this kind stands on the new (or else the old) side.
pub open spec fn on_side(kind: LineKind, new_side: bool) -> bool {
    kind == LineKind::Context || (if new_side {
        kind == LineKind::Added
    } else {
        kind == LineKind::Removed
    })
}

/// The texts of one side of a hunk.
pub open spec fn side(lines: Seq<(LineKind, Seq<char>)>, new_side: bool) -> Seq<Seq<char>>
    decreases lines.len(),
{
    if lines.len() == 0 {
        Seq::empty()
    } else {
        let front = side(lines.drop_last(), new_side);
        if on_side(lines.last().0, new_side) {
            front.push(lines.last().1)
        } else {
            front
        }
    }
}

/// The 0-based line of the original at which a hunk starts.
pub open spec fn hunk_start(h: HunkView) -> int {
    if h.old_count == 0 {
        if h.new_start >= 1 {
            h.new_start - 1
        } else {
            0
        }
    } else {
        h.old_start - 1
    }
}

/// The 0-based line of the original behind a hunk.
pub open spec fn hunk_end(h: HunkView) -> int {
    if h.old_count == 0 {
        hunk_start(h)
    } else {
        h.old_start - 1 + h.old_count
    }
}

/// The line of the original behind the first `n` hunks.
pub open spec fn cursor_after(hunks: Seq<HunkView>, n: int) -> int {
    if n <= 0 {
        0
    } else {
        hunk_end(hunks[n - 1])
    }
}

/// The lines `all[from..to]`, none where `to` is not behind `from`.
pub open spec fn lines_from_to(all: Seq<Seq<char>>, from: int, to: int) -> Seq<Seq<char>> {
    if from < to {
        all.subrange(from, to)
    } else {
        Seq::empty()
    }
}

/// Whether `s` ends in a line break.
pub open spec fn ends_line(s: Seq<char>) -> bool {
    s.len() > 0 && s.last() == '\n'
}

/// Whether a line carries its end: `\n`, `\r\n` or a lone `\r`.
pub open spec fn has_end(line: Seq<char>) -> bool {
    line.len() > 0 && (line.last() == '\n' || line.last() == '\r')
}

/// A line with an end: its own, or `\n` where it has none.
pub open spec fn ended(line: Seq<char>) -> Seq<char> {
    if has_end(line) {
        line
    } else {
        line.push('\n')
    }
}

/// The text of a hunk's line as a line: with `\n` behind it, unless a lone `\r`
/// ends it.
pub open spec fn as_line(shown: Seq<char>) -> Seq<char> {
    if shown.len() > 0 && shown.last() == '\r' {
        shown
    } else {
        shown.push('\n')
    }
}

/// The line that a hunk's line puts into the result: what is left of the old
/// side is the line at `at` of the original, with its own end; what comes new is
/// its text, as a line.
pub open spec fn placed_line(
    line: (LineKind, Seq<char>),
    original: Seq<Seq<char>>,
    at: int,
) -> Seq<char> {
    if line.0 != LineKind::Added && 0 <= at < original.len() && overlay::without_newline(
        original[at],
    ) == line.1 {
        original[at]
    } else {
        as_line(line.1)
    }
}

/// The lines that one side of a hunk at line `at` of the original puts into the
/// result.
pub open spec fn placed_side(
    lines: Seq<(LineKind, Seq<char>)>,
    original: Seq<Seq<char>>,
    at: int,
    new_side: bool,
) -> Seq<Seq<char>>
    decreases lines.len(),
{
    if lines.len() == 0 {
        Seq::empty()
    } else {
        let front = placed_side(lines.drop_last(), original, at, new_side);
        if on_side(lines.last().0, new_side) {
            front.push(
                placed_line(
                    lines.last(),
                    original,
                    at + side(lines.drop_last(), false).len(),
                ),
            )
        } else {
            front
        }
    }
}

/// The lines of the result up to and with hunk `n - 1`.
pub open spec fn applied_lines(
    original: Seq<Seq<char>>,
    hunks: Seq<HunkView>,
    accepted: Set<usize>,
    n: int,
) -> Seq<Seq<char>>
    decreases n,
{
    if n <= 0 {
        Seq::empty()
    } else {
        let h = hunks[n - 1];
        applied_lines(original, hunks, accepted, n - 1) + lines_from_to(
            original,
            cursor_after(hunks, n - 1),
            hunk_start(h),
        ) + placed_side(h.lines, original, hunk_start(h), accepted.contains((n - 1) as usize))
    }
}

/// All lines of the result.
pub open spec fn result_lines(
    original: Seq<Seq<char>>,
    hunks: Seq<HunkView>,
    accepted: Set<usize>,
) -> Seq<Seq<char>> {
    applied_lines(original, hunks, accepted, hunks.len() as int) + lines_from_to(
        original,
        cursor_after(hunks, hunks.len() as int),
        original.len() as int,
    )
}

/// The lines in a row, each with an end.
pub open spec fn in_a_row(lines: Seq<Seq<char>>) -> Seq<char>
    decreases lines.len(),
{
    if lines.len() == 0 {
        Seq::empty()
    } else {
        in_a_row(lines.drop_last()) + ended(lines.last())
    }
}

/// The text of the result: its lines in a row. The last one ends in `\n` only
/// where the original is empty or ends so.
pub open spec fn result_text(original: Seq<char>, lines: Seq<Seq<char>>) -> Seq<char> {
    if lines.len() == 0 {
        Seq::empty()
    } else {
        in_a_row(lines.drop_last()) + (if original.len() == 0 || ends_line(original) {
            lines.last()
        } else {
            overlay::without_newline(lines.last())
        })
    }
}

/// What applying the accepted hunks makes of `original`.
pub open spec fn applied_text(
    original: Seq<char>,
    hunks: Seq<HunkView>,
    accepted: Set<usize>,
) -> Seq<char> {
    result_text(original, result_lines(overlay::line_tokens(original), hunks, accepted))
}

/// Whether the hunks lie within a text of `count` lines: each starts no later
/// than its end or than the hunk before it ended, and line numbers of
/// non-empty old sides count from one.
pub open spec fn hunks_fit(hunks: Seq<HunkView>, count: int) -> bool {
    forall|i: int|
        0 <= i < hunks.len() ==> {
            let h = #[trigger] hunks[i];
            &&& h.old_count > 0 ==> h.old_start >= 1 && h.old_start + h.old_count - 1 <= usize::MAX
            &&& hunk_start(h) <= count || hunk_start(h) <= cursor_after(hunks, i)
        }
}

/// Appends the lines `from..to` of `all`.
fn copy_lines(out: &mut Vec<String>, all: &Vec<String>, from: usize, to: usize)
    requires
        from < to ==> to <= all@.len(),
    ensures
        text::views(final(out)@) == text::views(old(out)@) + lines_from_to(
            text::views(all@),
            from as int,
            to as int,
        ),
{
    let ghost before = text::views(out@);
    let ghost av = text::views(all@);
    let mut i: usize = from;
    proof {
        assert(before + lines_from_to(av, from as int, from as int) =~= before);
    }
    while i < to
        invariant
            from <= i,
            from < to ==> i <= to <= all@.len(),
            from >= to ==> i == from,
            av == text::views(all@),
            text::views(out@) == before + lines_from_to(av, from as int, i as int),
        decreases to - i,
    {
        let s = all[i].clone();
        proof {
            text::lemma_views_push(out@, s);
            assert(lines_from_to(av, from as int, i as int + 1) =~= lines_from_to(
                av,
                from as int,
                i as int,
            ).push(av[i as int]));
        }
        out.push(s);
        proof {
            assert(text::views(out@) =~= before + lines_from_to(av, from as int, i as int + 1));
        }
        i += 1;
    }
    proof {
        if from >= to {
            assert(before + lines_from_to(av, from as int, to as int) =~= before);
        }
    }
}

/// Appends one side of a hunk.
fn copy_side(out: &mut Vec<String>, hunk: &DiffHunk, new_side: bool)
    ensures
        text::views(final(out)@) == text::views(old(out)@) + side(hunk@.lines, new_side),
{
    let ghost before = text::views(out@);
    let ghost all = overlay::line_views(hunk.lines@);
    let mut i: usize = 0;
    proof {
        assert(all.take(0) =~= Seq::empty());
        assert(before + side(all.take(0), new_side) =~= before);
    }
    while i < hunk.lines.len()
        invariant
            i <= hunk.lines@.len(),
            all == overlay::line_views(hunk.lines@),
            text::views(out@) == before + side(all.take(i as int), new_side),
        decreases hunk.lines@.len() - i,
    {
        let ghost prev = out@;
        proof {
            assert(all.take(i as int + 1).drop_last() =~= all.take(i as int));
            assert(all.take(i as int + 1).last() == hunk.lines@[i as int]@);
        }
        match &hunk.lines[i] {
            DiffLine::Context(s) => {
                out.push(s.clone());
            },
            DiffLine::Added(s) => {
                if new_side {
                    out.push(s.clone());
                }
            },
            DiffLine::Removed(s) => {
                if !new_side {
                    out.push(s.clone());
                }
            },
        }
        proof {
            if out@.len() > prev.len() {
                text::lemma_views_push(prev, out@.last());
                assert(out@ =~= prev.push(out@.last()));
            }
            assert(text::views(out@) =~= before + side(all.take(i as int + 1), new_side));
        }
        i += 1;
    }
    proof {
        assert(all.take(all.len() as int) =~= all);
    }
}

/// A line with an end.
fn ended_line(line: &str) -> (r: String)
    ensures
        r@ == ended(line@),
{
    let v = text::to_chars(line);
    let mut r = line.to_owned();
    if v.len() == 0 || (v[v.len() - 1] != '\n' && v[v.len() - 1] != '\r') {
        r.push('\n');
    }
    r
}

/// The text of a hunk's line as a line.
fn text_as_line(shown: &str) -> (r: String)
    ensures
        r@ == as_line(shown@),
{
    let v = text::to_chars(shown);
    let mut r = shown.to_owned();
    if v.len() == 0 || v[v.len() - 1] != '\r' {
        r.push('\n');
    }
    r
}

/// Appends what one side of a hunk puts into the result. `all` holds the lines
/// of the original with their ends, `plain` without.
fn place_side(
    out: &mut Vec<String>,
    hunk: &DiffHunk,
    all: &Vec<String>,
    plain: &Vec<String>,
    start: usize,
    new_side: bool,
)
    requires
        text::views(plain@) == overlay::shown(text::views(all@)),
    ensures
        text::views(final(out)@) == text::views(old(out)@) + placed_side(
            hunk@.lines,
            text::views(all@),
            start as int,
            new_side,
        ),
{
    let ghost before = text::views(out@);
    let ghost lv = overlay::line_views(hunk.lines@);
    let ghost av = text::views(all@);
    let mut at: usize = start;
    let mut i: usize = 0;
    proof {
        assert(lv.take(0) =~= Seq::empty());
        assert(before + placed_side(lv.take(0), av, start as int, new_side) =~= before);
        assert(text::views(plain@).len() == av.len());
        assert(plain@.len() == all@.len());
    }
    while i < hunk.lines.len()
        invariant
            i <= hunk.lines@.len(),
            lv == overlay::line_views(hunk.lines@),
            av == text::views(all@),
            all@.len() == plain@.len(),
            text::views(plain@) == overlay::shown(av),
            at < all@.len() ==> at == start + side(lv.take(i as int), false).len(),
            at >= all@.len() ==> start + side(lv.take(i as int), false).len() >= all@.len(),
            text::views(out@) == before + placed_side(
                lv.take(i as int),
                av,
                start as int,
                new_side,
            ),
        decreases hunk.lines@.len() - i,
    {
        let ghost prev = out@;
        let ghost line = hunk.lines@[i as int]@;
        proof {
            assert(lv.take(i as int + 1).drop_last() =~= lv.take(i as int));
            assert(lv.take(i as int + 1).last() == line);
        }
        let (s, added, shows) = match &hunk.lines[i] {
            DiffLine::Context(s) => (s, false, true),
            DiffLine::Added(s) => (s, true, new_side),
            DiffLine::Removed(s) => (s, false, !new_side),
        };
        if shows {
            let kept = !added && at < all.len() && text::str_eq(plain[at].as_str(), s.as_str());
            proof {
                if at < all@.len() {
                    assert(text::views(plain@)[at as int] == plain@[at as int]@);
                    assert(av[at as int] == all@[at as int]@);
                }
            }
            let piece = if kept {
                all[at].clone()
            } else {
                text_as_line(s.as_str())
            };
            proof {
                text::lemma_views_push(prev, piece);
                assert(piece@ == placed_line(
                    line,
                    av,
                    start + side(lv.take(i as int), false).len(),
                ));
            }
            out.push(piece);
        }
        proof {
            assert(text::views(out@) =~= before + placed_side(
                lv.take(i as int + 1),
                av,
                start as int,
                new_side,
            ));
        }
        if !added && at < all.len() {
            at += 1;
        }
        i += 1;
    }
    proof {
        assert(lv.take(lv.len() as int) =~= lv);
    }
}

/// The text of the lines of a result.
fn result_of(original: &str, lines: &Vec<String>) -> (r: String)
    ensures
        r@ == result_text(original@, text::views(lines@)),
{
    let ov = text::to_chars(original);
    let mut out = String::new();
    if lines.len() == 0 {
        return out;
    }
    let ghost lv = text::views(lines@);
    let mut i: usize = 0;
    proof {
        assert(lv.take(0) =~= Seq::empty());
    }
    while i < lines.len() - 1
        invariant
            0 < lines@.len(),
            i <= lines@.len() - 1,
            lv == text::views(lines@),
            out@ == in_a_row(lv.take(i as int)),
        decreases lines@.len() - i,
    {
        let piece = ended_line(lines[i].as_str());
        out.append(piece.as_str());
        proof {
            assert(lv.take(i as int + 1).drop_last() =~= lv.take(i as int));
            assert(lv.take(i as int + 1).last() == lines@[i as int]@);
        }
        i += 1;
    }
    proof {
        assert(lv.drop_last() =~= lv.take(i as int));
        assert(lv.last() == lines@[i as int]@);
    }
    if ov.len() == 0 || ov[ov.len() - 1] == '\n' {
        out.append(lines[i].as_str());
    } else {
        let v = text::to_chars(lines[i].as_str());
        let last = strip_trailing_newline(&v, 0, v.len());
        proof {
            assert(v@.subrange(0, v@.len() as int) =~= v@);
        }
        out.append(last.as_str());
    }
    out
}

/// Applies the accepted hunks to `original`.
///
/// A hunk whose index is in `accepted` shows its new side, any other its old
/// side. What lies between hunks, and what a hunk leaves, is copied from the
/// original with its line ends.
pub fn apply_hunks(original: &str, hunks: &[DiffHunk], accepted: &BTreeSet<usize>) -> (r: String)
    requires
        hunks_fit(overlay::hunk_views(hunks@), overlay::line_tokens(original@).len() as int),
    ensures
        r@ == applied_text(original@, overlay::hunk_views(hunks@), accepted@),
{
    broadcast use vstd::std_specs::btree::group_btree_axioms;

    let all = overlay::lines_with_ends(original);
    let plain = overlay::line_texts(original);
    let mut out: Vec<String> = Vec::new();
    let mut cursor: usize = 0;
    let mut i: usize = 0;
    let ghost hv = overlay::hunk_views(hunks@);
    let ghost ov = overlay::line_tokens(original@);
    proof {
        assert(ov.len() == all@.len());
        assert(text::views(out@) =~= Seq::empty());
    }
    while i < hunks.len()
        invariant
            i <= hunks@.len(),
            hv == overlay::hunk_views(hunks@),
            ov == text::views(all@),
            text::views(plain@) == overlay::shown(ov),
            ov.len() == all@.len(),
            hunks_fit(hv, ov.len() as int),
            cursor == cursor_after(hv, i as int),
            text::views(out@) == applied_lines(ov, hv, accepted@, i as int),
        decreases hunks@.len() - i,
    {
        let hunk = &hunks[i];
        proof {
            assert(hv[i as int] == hunks@[i as int]@);
        }
        let start: usize = if hunk.old_count == 0 {
            if hunk.new_start >= 1 {
                hunk.new_start - 1
            } else {
                0
            }
        } else {
            hunk.old_start - 1
        };
        copy_lines(&mut out, &all, cursor, start);
        place_side(&mut out, hunk, &all, &plain, start, accepted.contains(&i));
        cursor = if hunk.old_count == 0 {
            start
        } else {
            (hunk.old_start - 1) + hunk.old_count
        };
        i += 1;
    }
    copy_lines(&mut out, &all, cursor, all.len());
    result_of(original, &out)
}

/// One change to make on the host.
#[derive(Clone, PartialEq, Eq, Debug)]
pub enum ReviewAction {
    /// Write `content` to `path`, relative to the workspace root.
    Write { path: String, content: Vec<u8> },
    /// Delete `path`, relative to the workspace root.
    Delete { path: String },
}

/// The model of a change.
#[verifier::ext_equal]
pub enum ActionView {
    Write { path: Seq<char>, content: Seq<u8> },
    Delete { path: Seq<char> },
}

impl View for ReviewAction {
    type V = ActionView;

    open spec fn view(&self) -> ActionView {
        match *self {
            ReviewAction::Write { path, content } => ActionView::Write {
                path: path@,
                content: content@,
            },
            ReviewAction::Delete { path } => ActionView::Delete { path: path@ },
        }
    }
}

/// The models of a list of changes.
pub open spec fn action_views(v: Seq<ReviewAction>) -> Seq<ActionView> {
    v.map_values(|a: ReviewAction| a@)
}

/// The changes to make, and the files left alone.
#[derive(Clone, Debug)]
pub struct ReviewPlan {
    pub actions: Vec<ReviewAction>,
    pub skipped: Vec<String>,
}

impl Default for ReviewPlan {
    fn default() -> (r: Self)
        ensures
            r.actions@.len() == 0,
            r.skipped@.len() == 0,
    {
        ReviewPlan { actions: Vec::new(), skipped: Vec::new() }
    }
}

/// What carrying out a plan did.
#[derive(Clone, Copy, PartialEq, Eq, Structural, Debug)]
pub struct ExecutionReport {
    pub files_written: usize,
    pub files_deleted: usize,
    pub files_skipped: usize,
}

impl Default for ExecutionReport {
    fn default() -> (r: Self)
        ensures
            r == (ExecutionReport { files_written: 0, files_deleted: 0, files_skipped: 0 }),
    {
        ExecutionReport { files_written: 0, files_deleted: 0, files_skipped: 0 }
    }
}

/// How many of the first `n` changes wrote a file.
pub open spec fn writes(actions: Seq<ReviewAction>, n: int) -> nat
    decreases n,
{
    if n <= 0 {
        0
    } else {
        writes(actions, n - 1) + if actions[n - 1] is Write {
            1nat
        } else {
            0nat
        }
    }
}

/// How many of the first `n` changes deleted a file that was there.
pub open spec fn deletes(actions: Seq<ReviewAction>, existed: Seq<bool>, n: int) -> nat
    decreases n,
{
    if n <= 0 {
        0
    } else {
        deletes(actions, existed, n - 1) + if actions[n - 1] is Delete && existed[n - 1] {
            1nat
        } else {
            0nat
        }
    }
}

/// What carrying out a plan did; `existed` says of each change whether its file
/// was there.
pub fn execution_report(plan: &ReviewPlan, existed: &Vec<bool>) -> (r: ExecutionReport)
    requires
        existed@.len() == plan.actions@.len(),
    ensures
        r.files_written == writes(plan.actions@, plan.actions@.len() as int),
        r.files_deleted == deletes(plan.actions@, existed@, plan.actions@.len() as int),
        r.files_skipped == plan.skipped@.len(),
{
    let mut written: usize = 0;
    let mut deleted: usize = 0;
    let mut i: usize = 0;
    while i < plan.actions.len()
        invariant
            i <= plan.actions@.len(),
            existed@.len() == plan.actions@.len(),
            written <= i,
            deleted <= i,
            written == writes(plan.actions@, i as int),
            deleted == deletes(plan.actions@, existed@, i as int),
        decreases plan.actions@.len() - i,
    {
        match &plan.actions[i] {
            ReviewAction::Write { .. } => {
                written = written + 1;
            },
            ReviewAction::Delete { .. } => {
                if existed[i] {
                    deleted = deleted + 1;
                }
            },
        }
        i += 1;
    }
    ExecutionReport {
        files_written: written,
        files_deleted: deleted,
        files_skipped: plan.skipped.len(),
    }
}

/// Why there is no plan.
#[derive(Clone, PartialEq, Eq, Debug)]
pub enum ReviewError {
    /// A decision names a file that is not in the list of differences.
    FileIndexOutOfRange(usize),
    /// The current content of a modified file could not be read.
    ReadOriginal { path: String, message: String },
}

/// The model of [`ReviewError`].
#[verifier::ext_equal]
pub enum ReviewErrorView {
    FileIndexOutOfRange(usize),
    ReadOriginal { path: Seq<char>, message: Seq<char> },
}

impl View for ReviewError {
    type V = ReviewErrorView;

    open spec fn view(&self) -> ReviewErrorView {
        match *self {
            ReviewError::FileIndexOutOfRange(i) => ReviewErrorView::FileIndexOutOfRange(i),
            ReviewError::ReadOriginal { path, message } => ReviewErrorView::ReadOriginal {
                path: path@,
                message: message@,
            },
        }
    }
}

/// The view of what reading a file gave.
pub open spec fn read_view(r: Result<String, String>) -> Result<Seq<char>, Seq<char>> {
    match r {
        Ok(s) => Ok(s@),
        Err(e) => Err(e@),
    }
}

/// The texts, each with `\n` behind it, in a row.
pub open spec fn with_newlines(lines: Seq<Seq<char>>) -> Seq<char>
    decreases lines.len(),
{
    if lines.len() == 0 {
        Seq::empty()
    } else {
        with_newlines(lines.drop_last()) + lines.last().push('\n')
    }
}

/// The new sides of all hunks, in a row.
pub open spec fn new_sides(hunks: Seq<HunkView>) -> Seq<Seq<char>>
    decreases hunks.len(),
{
    if hunks.len() == 0 {
        Seq::empty()
    } else {
        new_sides(hunks.drop_last()) + side(hunks.last().lines, true)
    }
}

/// The content of an added file, from its hunks.
pub fn reconstruct_added(diff: &FileDiff) -> (r: Vec<u8>)
    ensures
        r@ == vstd::utf8::encode_utf8(with_newlines(new_sides(diff@.hunks))),
{
    let mut all: Vec<String> = Vec::new();
    let ghost hv = overlay::hunk_views(diff.hunks@);
    let mut i: usize = 0;
    proof {
        assert(hv.take(0) =~= Seq::empty());
        assert(text::views(all@) =~= Seq::empty());
    }
    while i < diff.hunks.len()
        invariant
            i <= diff.hunks@.len(),
            hv == overlay::hunk_views(diff.hunks@),
            text::views(all@) == new_sides(hv.take(i as int)),
        decreases diff.hunks@.len() - i,
    {
        proof {
            assert(hv.take(i as int + 1).drop_last() =~= hv.take(i as int));
            assert(hv.take(i as int + 1).last() == diff.hunks@[i as int]@);
        }
        copy_side(&mut all, &diff.hunks[i], true);
        i += 1;
    }
    proof {
        assert(hv.take(hv.len() as int) =~= hv);
    }
    let mut out = String::new();
    let ghost av = text::views(all@);
    let mut j: usize = 0;
    proof {
        assert(av.take(0) =~= Seq::empty());
    }
    while j < all.len()
        invariant
            j <= all@.len(),
            av == text::views(all@),
            out@ == with_newlines(av.take(j as int)),
        decreases all@.len() - j,
    {
        let ghost before = out@;
        out.append(all[j].as_str());
        out.push('\n');
        proof {
            assert(av.take(j as int + 1).drop_last() =~= av.take(j as int));
            assert(av.take(j as int + 1).last() == all@[j as int]@);
            assert(out@ =~= before + all@[j as int]@.push('\n'));
        }
        j += 1;
    }
    proof {
        assert(av.take(av.len() as int) =~= av);
    }
    out.as_str().as_bytes_vec()
}

/// What one decision comes to.
#[verifier::ext_equal]
pub enum StepView {
    Skip,
    Act(ActionView),
    Fail(ReviewErrorView),
}

/// What one decision on the difference `d` comes to, where `original` is what
/// reading the file gave.
pub open spec fn review_step(
    d: FileDiffView,
    accepted: Set<usize>,
    original: Result<Seq<char>, Seq<char>>,
) -> StepView {
    if accepted.is_empty() {
        StepView::Skip
    } else {
        match d.kind {
            DiffKind::Added => StepView::Act(
                ActionView::Write {
                    path: d.path,
                    content: vstd::utf8::encode_utf8(with_newlines(new_sides(d.hunks))),
                },
            ),
            DiffKind::Deleted => StepView::Act(ActionView::Delete { path: d.path }),
            DiffKind::Modified => if d.binary {
                StepView::Skip
            } else {
                match original {
                    Ok(t) => StepView::Act(
                        ActionView::Write {
                            path: d.path,
                            content: vstd::utf8::encode_utf8(applied_text(t, d.hunks, accepted)),
                        },
                    ),
                    Err(e) => StepView::Fail(
                        ReviewErrorView::ReadOriginal { path: d.path, message: e },
                    ),
                }
            },
        }
    }
}

/// The model of a plan: the changes and the skipped paths.
pub type PlanView = (Seq<ActionView>, Seq<Seq<char>>);

/// The plan after the first `n` decisions, or the first failure among them.
pub open spec fn planned(
    diffs: Seq<FileDiff>,
    decisions: Seq<FileReview>,
    originals: Seq<Result<String, String>>,
    n: int,
) -> Result<PlanView, ReviewErrorView>
    decreases n,
{
    if n <= 0 {
        Ok((Seq::empty(), Seq::empty()))
    } else {
        match planned(diffs, decisions, originals, n - 1) {
            Err(e) => Err(e),
            Ok((actions, skipped)) => {
                let decision = decisions[n - 1];
                if decision.file_index >= diffs.len() {
                    Err(ReviewErrorView::FileIndexOutOfRange(decision.file_index))
                } else {
                    let d = diffs[decision.file_index as int]@;
                    match review_step(
                        d,
                        decision.accepted_hunks@,
                        read_view(originals[n - 1]),
                    ) {
                        StepView::Skip => Ok((actions, skipped.push(d.path))),
                        StepView::Act(a) => Ok((actions.push(a), skipped)),
                        StepView::Fail(e) => Err(e),
                    }
                }
            },
        }
    }
}

/// Whether the current content of the file decides what `decision` comes to.
pub open spec fn reads_original(diffs: Seq<FileDiff>, decision: FileReview) -> bool {
    decision.file_index < diffs.len() && !decision.accepted_hunks@.is_empty()
        && diffs[decision.file_index as int].kind == DiffKind::Modified
        && !diffs[decision.file_index as int].binary
}

/// Whether the current content of the file decides what `decision` comes to.
pub fn needs_original(diffs: &[FileDiff], decision: &FileReview) -> (r: bool)
    ensures
        r == reads_original(diffs@, *decision),
{
    if decision.file_index >= diffs.len() || decision.accepted_hunks.is_empty() {
        return false;
    }
    let d = &diffs[decision.file_index];
    match d.kind {
        DiffKind::Modified => !d.binary,
        _ => false,
    }
}

/// Whether the hunks that decision `i` applies lie within the text it applies
/// them to.
pub open spec fn decision_fits(
    diffs: Seq<FileDiff>,
    decision: FileReview,
    original: Result<String, String>,
) -> bool {
    reads_original(diffs, decision) ==> (original matches Ok(t) ==> hunks_fit(
        diffs[decision.file_index as int]@.hunks,
        overlay::line_tokens(t@).len() as int,
    ))
}

/// Builds a [`ReviewPlan`] from differences and decisions.
///
/// `originals[i]` is what reading the current content of decision `i`'s file
/// gave; it matters only where [`needs_original`] holds. Files without a
/// decision are left alone and not listed.
pub fn plan_review(
    diffs: &[FileDiff],
    decisions: &[FileReview],
    originals: &[Result<String, String>],
) -> (r: Result<ReviewPlan, ReviewError>)
    requires
        originals@.len() == decisions@.len(),
        forall|i: int|
            0 <= i < decisions@.len() ==> decision_fits(
                diffs@,
                #[trigger] decisions@[i],
                originals@[i],
            ),
    ensures
        match r {
            Ok(plan) => planned(diffs@, decisions@, originals@, decisions@.len() as int) == Ok::<
                PlanView,
                ReviewErrorView,
            >((action_views(plan.actions@), text::views(plan.skipped@))),
            Err(e) => planned(diffs@, decisions@, originals@, decisions@.len() as int) == Err::<
                PlanView,
                ReviewErrorView,
            >(e@),
        },
{
    let mut actions: Vec<ReviewAction> = Vec::new();
    let mut skipped: Vec<String> = Vec::new();
    let mut i: usize = 0;
    proof {
        assert(action_views(actions@) =~= Seq::empty());
        assert(text::views(skipped@) =~= Seq::empty());
    }
    while i < decisions.len()
        invariant
            i <= decisions@.len(),
            originals@.len() == decisions@.len(),
            forall|k: int|
                0 <= k < decisions@.len() ==> decision_fits(
                    diffs@,
                    #[trigger] decisions@[k],
                    originals@[k],
                ),
            planned(diffs@, decisions@, originals@, i as int) == Ok::<PlanView, ReviewErrorView>(
                (action_views(actions@), text::views(skipped@)),
            ),
        decreases decisions@.len() - i,
    {
        let decision = &decisions[i];
        let ghost a0 = action_views(actions@);
        let ghost s0 = text::views(skipped@);
        if decision.file_index >= diffs.len() {
            proof {
                lemma_planned_error(
                    diffs@,
                    decisions@,
                    originals@,
                    i as int + 1,
                    decisions@.len() as int,
                );
            }
            return Err(ReviewError::FileIndexOutOfRange(decision.file_index));
        }
        let diff = &diffs[decision.file_index];
        proof {
            assert(decision_fits(diffs@, decisions@[i as int], originals@[i as int]));
        }
        let mut action: Option<ReviewAction> = None;
        if !decision.accepted_hunks.is_empty() {
            match diff.kind {
                DiffKind::Added => {
                    action = Some(
                        ReviewAction::Write {
                            path: diff.path.clone(),
                            content: reconstruct_added(diff),
                        },
                    );
                },
                DiffKind::Deleted => {
                    action = Some(ReviewAction::Delete { path: diff.path.clone() });
                },
                DiffKind::Modified => {
                    if !diff.binary {
                        match &originals[i] {
                            Ok(original) => {
                                let result = apply_hunks(
                                    original.as_str(),
                                    &diff.hunks,
                                    &decision.accepted_hunks,
                                );
                                action = Some(
                                    ReviewAction::Write {
                                        path: diff.path.clone(),
                                        content: result.as_str().as_bytes_vec(),
                                    },
                                );
                            },
                            Err(message) => {
                                proof {
                                    lemma_planned_error(
                                        diffs@,
                                        decisions@,
                                        originals@,
                                        i as int + 1,
                                        decisions@.len() as int,
                                    );
                                }
                                return Err(
                                    ReviewError::ReadOriginal {
                                        path: diff.path.clone(),
                                        message: message.clone(),
                                    },
                                );
                            },
                        }
                    }
                },
            }
        }
        match action {
            Some(a) => {
                proof {
                    assert(action_views(actions@.push(a)) =~= a0.push(a@));
                }
                actions.push(a);
            },
            None => {
                let path = diff.path.clone();
                proof {
                    text::lemma_views_push(skipped@, path);
                }
                skipped.push(path);
            },
        }
        i += 1;
    }
    Ok(ReviewPlan { actions, skipped })
}

proof fn lemma_planned_error(
    diffs: Seq<FileDiff>,
    decisions: Seq<FileReview>,
    originals: Seq<Result<String, String>>,
    n: int,
    m: int,
)
    requires
        n <= m,
        planned(diffs, decisions, originals, n) is Err,
    ensures
        planned(diffs, decisions, originals, m) == planned(diffs, decisions, originals, n),
    decreases m - n,
{
    if n < m {
        lemma_planned_error(diffs, decisions, originals, n, m - 1);
    }
}

/// Whether the hunks lie within the lines of `original`.
pub fn hunks_in_range(original: &str, hunks: &[DiffHunk]) -> (r: bool)
    ensures
        r == hunks_fit(overlay::hunk_views(hunks@), overlay::line_tokens(original@).len() as int),
{
    let all = overlay::lines_with_ends(original);
    let count: usize = all.len();
    let ghost hv = overlay::hunk_views(hunks@);
    let mut cursor: usize = 0;
    let mut i: usize = 0;
    proof {
        assert(overlay::line_tokens(original@).len() == count);
    }
    while i < hunks.len()
        invariant
            i <= hunks@.len(),
            hv == overlay::hunk_views(hunks@),
            cursor == cursor_after(hv, i as int),
            overlay::line_tokens(original@).len() == count,
            forall|k: int|
                0 <= k < i ==> {
                    let h = #[trigger] hv[k];
                    &&& h.old_count > 0 ==> h.old_start >= 1 && h.old_start + h.old_count - 1
                        <= usize::MAX
                    &&& hunk_start(h) <= count || hunk_start(h) <= cursor_after(hv, k)
                },
        decreases hunks@.len() - i,
    {
        let h = &hunks[i];
        proof {
            assert(hv[i as int] == hunks@[i as int]@);
        }
        if h.old_count > 0 {
            if h.old_start < 1 || h.old_count > usize::MAX - (h.old_start - 1) {
                return false;
            }
            if h.old_start - 1 > count && h.old_start - 1 > cursor {
                return false;
            }
            cursor = h.old_start - 1 + h.old_count;
        } else {
            let start: usize = if h.new_start >= 1 {
                h.new_start - 1
            } else {
                0
            };
            if start > count && start > cursor {
                return false;
            }
            cursor = start;
        }
        i += 1;
    }
    true
}

} // verus!
