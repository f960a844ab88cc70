//! Differences between a base tree and the overlay that an agent wrote.

use vstd::prelude::*;
use vstd::string::*;
use vstd::utf8::{decode_utf8, valid_utf8};
use crate::review;
use crate::overlay_laws;
use crate::review_laws;
use crate::text;

verus! {

/// `String::from_utf8` accepts exactly the valid UTF-8 sequences and returns
/// the text that they encode.
#[verifier::external_body]
pub(crate) fn utf8_text(bytes: &Vec<u8>) -> (r: Option<String>)
    ensures
        match r {
            Some(s) => valid_utf8(bytes@) && s@ == decode_utf8(bytes@),
            None => !valid_utf8(bytes@),
        },
{
    String::from_utf8(bytes.clone()).ok()
}

/// What an operation of a line diff does.
#[derive(Clone, Copy, PartialEq, Eq, Structural, Debug)]
pub enum OpTag {
    Equal,
    Delete,
    Insert,
    Replace,
}

/// One operation of a line diff, with the lines of both sides that it covers.
#[derive(Clone, Copy, PartialEq, Eq, Structural, Debug)]
pub struct LineOp {
    pub tag: OpTag,
    pub old_lo: usize,
    pub old_hi: usize,
    pub new_lo: usize,
    pub new_hi: usize,
}

/// The change clusters between two texts, as `similar` groups them with
/// `context` lines of context.
pub uninterp spec fn line_groups(old: Seq<char>, new: Seq<char>, context: nat) -> Seq<Seq<LineOp>>;

/// The operations of each group.
pub open spec fn group_views(v: Seq<Vec<LineOp>>) -> Seq<Seq<LineOp>> {
    v.map_values(|g: Vec<LineOp>| g@)
}

/// Whether the lines that `op` takes from either side exist there.
pub open spec fn op_in_range(op: LineOp, old_len: int, new_len: int) -> bool {
    &&& op.tag != OpTag::Insert ==> op.old_lo <= op.old_hi <= old_len
    &&& op.tag == OpTag::Insert || op.tag == OpTag::Replace ==> op.new_lo <= op.new_hi <= new_len
}

/// Whether the lines that each operation takes exist, and no group is empty.
pub open spec fn groups_in_range(groups: Seq<Seq<LineOp>>, old_len: int, new_len: int) -> bool {
    &&& forall|i: int| 0 <= i < groups.len() ==> (#[trigger] groups[i]).len() > 0
    &&& forall|i: int, j: int|
        0 <= i < groups.len() && 0 <= j < groups[i].len() ==> op_in_range(
            #[trigger] groups[i][j],
            old_len,
            new_len,
        )
}

/// Where both sides stand behind an operation that takes place at `at`.
pub open spec fn stepped(at: (int, int), op: LineOp) -> (int, int) {
    (
        if op.tag == OpTag::Insert {
            at.0
        } else {
            op.old_hi as int
        },
        if op.tag == OpTag::Delete {
            at.1
        } else {
            op.new_hi as int
        },
    )
}

/// Whether an operation takes the lines that come next: of the old side unless
/// it inserts, of the new side unless it deletes. Where it says that they are
/// equal, they are.
pub open spec fn takes_next(
    op: LineOp,
    at: (int, int),
    old: Seq<Seq<char>>,
    new: Seq<Seq<char>>,
) -> bool {
    &&& op.old_lo <= op.old_hi <= old.len()
    &&& op.new_lo <= op.new_hi <= new.len()
    &&& op.tag != OpTag::Insert ==> op.old_lo == at.0 && op.old_lo < op.old_hi
    &&& op.tag != OpTag::Delete ==> op.new_lo == at.1
    &&& op.tag == OpTag::Equal ==> old.subrange(op.old_lo as int, op.old_hi as int)
        == new.subrange(op.new_lo as int, op.new_hi as int)
}

/// Where both sides stand behind the first `n` operations of a group that
/// starts at `at`.
pub open spec fn position(group: Seq<LineOp>, at: (int, int), n: int) -> (int, int)
    decreases n,
{
    if n <= 0 {
        at
    } else {
        stepped(position(group, at, n - 1), group[n - 1])
    }
}

/// Where a group starts: with lines that are equal, or at the front of both
/// texts.
pub open spec fn group_start(group: Seq<LineOp>) -> (int, int) {
    if group[0].tag == OpTag::Equal {
        (group[0].old_lo as int, group[0].new_lo as int)
    } else {
        (0, 0)
    }
}

/// Where a group ends.
pub open spec fn group_end(group: Seq<LineOp>) -> (int, int) {
    position(group, group_start(group), group.len() as int)
}

/// Where the groups before group `n` end.
pub open spec fn groups_end(groups: Seq<Seq<LineOp>>, n: int) -> (int, int) {
    if n <= 0 {
        (0, 0)
    } else {
        group_end(groups[n - 1])
    }
}

/// Whether the lines from `a` to `b` are the same on both sides.
pub open spec fn same_between(
    old: Seq<Seq<char>>,
    new: Seq<Seq<char>>,
    a: (int, int),
    b: (int, int),
) -> bool {
    &&& 0 <= a.0 <= b.0 <= old.len()
    &&& 0 <= a.1 <= b.1 <= new.len()
    &&& old.subrange(a.0, b.0) == new.subrange(a.1, b.1)
}

/// Whether a group takes line after line.
pub open spec fn in_turn(group: Seq<LineOp>, old: Seq<Seq<char>>, new: Seq<Seq<char>>) -> bool {
    &&& group.len() > 0
    &&& forall|j: int|
        0 <= j < group.len() ==> takes_next(
            #[trigger] group[j],
            position(group, group_start(group), j),
            old,
            new,
        )
}

/// Whether groups say how `old` becomes `new`: each takes line after line; the
/// lines that no group takes are the same on both sides; and a group starts and
/// ends with equal lines, unless at the ends of the texts.
pub open spec fn is_script(
    groups: Seq<Seq<LineOp>>,
    old: Seq<Seq<char>>,
    new: Seq<Seq<char>>,
) -> bool {
    let n = groups.len() as int;
    &&& forall|i: int| 0 <= i < n ==> in_turn(#[trigger] groups[i], old, new)
    &&& forall|i: int|
        0 <= i < n ==> same_between(
            old,
            new,
            groups_end(groups, i),
            group_start(#[trigger] groups[i]),
        )
    &&& forall|i: int| 0 < i < n ==> (#[trigger] groups[i])[0].tag == OpTag::Equal
    &&& forall|i: int|
        0 <= i < n && (#[trigger] groups[i]).last().tag != OpTag::Equal ==> i == n - 1 && group_end(
            groups[i],
        ) == (old.len() as int, new.len() as int)
    &&& same_between(old, new, groups_end(groups, n), (old.len() as int, new.len() as int))
}

/// `TextDiff::from_lines` of `similar`, then `grouped_ops`: the groups of
/// operations that turn the lines of `old` into those of `new`, with lines of
/// context around them.
///
/// The lines that the operations take out, put in and leave make up both texts.
/// Where an insertion reports to stand on the old side, and a deletion on the
/// new side, is only said to be within the text.
#[verifier::external_body]
fn diff_line_groups(old: &str, new: &str, context: usize) -> (r: Vec<Vec<LineOp>>)
    requires
        0 < context,
        2 * context <= usize::MAX,
    ensures
        group_views(r@) == line_groups(old@, new@, context as nat),
        is_script(group_views(r@), line_tokens(old@), line_tokens(new@)),
{
    let groups = similar::TextDiff::from_lines(old, new).grouped_ops(context);
    let convert = |op: &similar::DiffOp| {
        let (tag, o, n) = op.as_tag_tuple();
        let tag = match tag {
            similar::DiffTag::Equal => OpTag::Equal,
            similar::DiffTag::Delete => OpTag::Delete,
            similar::DiffTag::Insert => OpTag::Insert,
            similar::DiffTag::Replace => OpTag::Replace,
        };
        LineOp { tag, old_lo: o.start, old_hi: o.end, new_lo: n.start, new_hi: n.end }
    };
    groups.iter().map(|g| g.iter().map(convert).collect()).collect()
}

/// The length of the first line of a non-empty `s`, its end of line included:
/// `\n`, `\r\n` or a lone `\r`.
pub open spec fn first_token_len(s: Seq<char>) -> int
    decreases s.len(),
{
    if s.len() <= 1 {
        s.len() as int
    } else if s[0] == '\n' {
        1
    } else if s[0] == '\r' {
        if s[1] == '\n' {
            2
        } else {
            1
        }
    } else {
        1 + first_token_len(s.skip(1))
    }
}

pub proof fn lemma_first_token_len(s: Seq<char>)
    ensures
        0 <= first_token_len(s) <= s.len(),
        s.len() > 0 ==> first_token_len(s) > 0,
    decreases s.len(),
{
    if s.len() > 1 && s[0] != '\n' && s[0] != '\r' {
        lemma_first_token_len(s.skip(1));
    }
}

/// The lines of `s`, each with its end of line.
pub open spec fn line_tokens(s: Seq<char>) -> Seq<Seq<char>>
    decreases s.len(),
{
    if s.len() == 0 {
        Seq::empty()
    } else {
        let n = first_token_len(s);
        if 0 < n <= s.len() {
            seq![s.take(n)] + line_tokens(s.skip(n))
        } else {
            Seq::empty()
        }
    }
}

/// The end of the first line of `v` that starts at `at`.
fn token_end(v: &Vec<char>, at: usize) -> (r: usize)
    requires
        at < v@.len(),
    ensures
        at < r <= v@.len(),
        r - at == first_token_len(v@.skip(at as int)),
    decreases v@.len() - at,
{
    let ghost rest = v@.skip(at as int);
    proof {
        assert(rest[0] == v@[at as int]);
        if at + 1 < v@.len() {
            assert(rest[1] == v@[at + 1]);
            assert(rest.skip(1) =~= v@.skip(at + 1));
        }
    }
    if v.len() - at == 1 || v[at] == '\n' {
        at + 1
    } else if v[at] == '\r' {
        if v[at + 1] == '\n' {
            at + 2
        } else {
            at + 1
        }
    } else {
        token_end(v, at + 1)
    }
}

/// `s` without one `\r\n` or `\n` at its end.
pub open spec fn without_newline(s: Seq<char>) -> Seq<char> {
    if s.len() >= 2 && s[s.len() - 2] == '\r' && s.last() == '\n' {
        s.take(s.len() - 2)
    } else if s.len() >= 1 && s.last() == '\n' {
        s.drop_last()
    } else {
        s
    }
}

/// The string `v[from..to]` without one `\r\n` or `\n` at its end.
pub(crate) fn strip_trailing_newline(v: &Vec<char>, from: usize, to: usize) -> (r: String)
    requires
        from <= to <= v@.len(),
    ensures
        r@ == without_newline(v@.subrange(from as int, to as int)),
{
    let ghost s = v@.subrange(from as int, to as int);
    proof {
        if s.len() >= 1 {
            assert(s.last() == v@[to - 1]);
            assert(s.drop_last() =~= v@.subrange(from as int, to - 1));
        }
        if s.len() >= 2 {
            assert(s[s.len() - 2] == v@[to - 2]);
            assert(s.take(s.len() - 2) =~= v@.subrange(from as int, to - 2));
        }
    }
    if to - from >= 2 && v[to - 2] == '\r' && v[to - 1] == '\n' {
        text::from_range(v, from, to - 2)
    } else if to - from >= 1 && v[to - 1] == '\n' {
        text::from_range(v, from, to - 1)
    } else {
        text::from_range(v, from, to)
    }
}

/// The lines of `s` as a diff shows them.
pub open spec fn shown_lines(s: Seq<char>) -> Seq<Seq<char>> {
    shown(line_tokens(s))
}

/// Lines as a diff shows them: without `\r\n` or `\n` at the end.
pub open spec fn shown(lines: Seq<Seq<char>>) -> Seq<Seq<char>> {
    lines.map_values(|t: Seq<char>| without_newline(t))
}

/// The lines of `s` as a diff shows them.
pub(crate) fn line_texts(s: &str) -> (r: Vec<String>)
    ensures
        text::views(r@) == shown_lines(s@),
{
    let v = text::to_chars(s);
    let mut out: Vec<String> = Vec::new();
    let mut at: usize = 0;
    let ghost f = |t: Seq<char>| without_newline(t);
    proof {
        assert(s@.skip(0) =~= s@);
        assert(text::views(out@) + shown_lines(s@) =~= shown_lines(s@));
    }
    while at < v.len()
        invariant
            at <= v@.len(),
            v@ == s@,
            text::views(out@) + shown_lines(s@.skip(at as int)) == shown_lines(s@),
        decreases v@.len() - at,
    {
        let end = token_end(&v, at);
        let line = strip_trailing_newline(&v, at, end);
        let ghost rest = s@.skip(at as int);
        let ghost before = text::views(out@);
        proof {
            assert(rest.take(end - at) =~= v@.subrange(at as int, end as int));
            assert(rest.skip(end - at) =~= s@.skip(end as int));
            assert(shown_lines(rest) =~= seq![line@] + shown_lines(s@.skip(end as int)));
            text::lemma_views_push(out@, line);
        }
        out.push(line);
        proof {
            assert(before.push(line@) + shown_lines(s@.skip(end as int)) =~= before + (seq![line@]
                + shown_lines(s@.skip(end as int))));
        }
        at = end;
    }
    proof {
        assert(s@.skip(at as int).len() == 0);
        assert(shown_lines(s@.skip(at as int)) =~= Seq::empty());
        assert(text::views(out@) + Seq::<Seq<char>>::empty() =~= text::views(out@));
    }
    out
}

/// The lines of `s`, each with its end of line.
pub(crate) fn lines_with_ends(s: &str) -> (r: Vec<String>)
    ensures
        text::views(r@) == line_tokens(s@),
{
    let v = text::to_chars(s);
    let mut out: Vec<String> = Vec::new();
    let mut at: usize = 0;
    proof {
        assert(s@.skip(0) =~= s@);
        assert(text::views(out@) + line_tokens(s@) =~= line_tokens(s@));
    }
    while at < v.len()
        invariant
            at <= v@.len(),
            v@ == s@,
            text::views(out@) + line_tokens(s@.skip(at as int)) == line_tokens(s@),
        decreases v@.len() - at,
    {
        let end = token_end(&v, at);
        let line = text::from_range(&v, at, end);
        let ghost rest = s@.skip(at as int);
        let ghost before = text::views(out@);
        proof {
            assert(rest.take(end - at) =~= v@.subrange(at as int, end as int));
            assert(rest.skip(end - at) =~= s@.skip(end as int));
            text::lemma_views_push(out@, line);
        }
        out.push(line);
        proof {
            assert(before.push(line@) + line_tokens(s@.skip(end as int)) =~= before + (seq![line@]
                + line_tokens(s@.skip(end as int))));
        }
        at = end;
    }
    proof {
        assert(line_tokens(s@.skip(at as int)) =~= Seq::empty());
        assert(text::views(out@) + Seq::<Seq<char>>::empty() =~= text::views(out@));
    }
    out
}

/// How a file differs between the two trees.
#[derive(Clone, Copy, PartialEq, Eq, Structural, Debug)]
pub enum DiffKind {
    Added,
    Modified,
    Deleted,
}

/// One line of a hunk.
#[derive(Clone, PartialEq, Eq, Debug)]
pub enum DiffLine {
    Context(String),
    Added(String),
    Removed(String),
}

/// The side of a hunk's line, without its text.
#[derive(Clone, Copy, PartialEq, Eq, Structural, Debug)]
pub enum LineKind {
    Context,
    Added,
    Removed,
}

impl View for DiffLine {
    type V = (LineKind, Seq<char>);

    open spec fn view(&self) -> (LineKind, Seq<char>) {
        match *self {
            DiffLine::Context(s) => (LineKind::Context, s@),
            DiffLine::Added(s) => (LineKind::Added, s@),
            DiffLine::Removed(s) => (LineKind::Removed, s@),
        }
    }
}

/// One cluster of changes with its context.
#[derive(Clone, PartialEq, Eq, Debug)]
pub struct DiffHunk {
    /// 1-based line number in the old file where this hunk starts.
    /// `0` when `old_count == 0`, per unified-diff convention.
    pub old_start: usize,
    pub old_count: usize,
    pub new_start: usize,
    pub new_count: usize,
    pub lines: Vec<DiffLine>,
}

/// The model of a hunk.
#[verifier::ext_equal]
pub struct HunkView {
    pub old_start: int,
    pub old_count: int,
    pub new_start: int,
    pub new_count: int,
    pub lines: Seq<(LineKind, Seq<char>)>,
}

/// The models of a hunk's lines.
pub open spec fn line_views(v: Seq<DiffLine>) -> Seq<(LineKind, Seq<char>)> {
    v.map_values(|l: DiffLine| l@)
}

impl View for DiffHunk {
    type V = HunkView;

    open spec fn view(&self) -> HunkView {
        HunkView {
            old_start: self.old_start as int,
            old_count: self.old_count as int,
            new_start: self.new_start as int,
            new_count: self.new_count as int,
            lines: line_views(self.lines@),
        }
    }
}

/// The models of a list of hunks.
pub open spec fn hunk_views(v: Seq<DiffHunk>) -> Seq<HunkView> {
    v.map_values(|h: DiffHunk| h@)
}

/// The difference of one file.
#[derive(Clone, PartialEq, Eq, Debug)]
pub struct FileDiff {
    pub path: String,
    pub kind: DiffKind,
    /// `true` when either side is not valid UTF-8. Binary diffs have no hunks.
    pub binary: bool,
    pub hunks: Vec<DiffHunk>,
}

/// The model of a file's difference.
#[verifier::ext_equal]
pub struct FileDiffView {
    pub path: Seq<char>,
    pub kind: DiffKind,
    pub binary: bool,
    pub hunks: Seq<HunkView>,
}

impl View for FileDiff {
    type V = FileDiffView;

    open spec fn view(&self) -> FileDiffView {
        FileDiffView {
            path: self.path@,
            kind: self.kind,
            binary: self.binary,
            hunks: hunk_views(self.hunks@),
        }
    }
}

/// The lines `texts[lo..hi]`, all of one kind.
pub open spec fn lines_between(
    texts: Seq<Seq<char>>,
    lo: int,
    hi: int,
    kind: LineKind,
) -> Seq<(LineKind, Seq<char>)> {
    texts.subrange(lo, hi).map_values(|t: Seq<char>| (kind, t))
}

/// The lines that one operation shows: what stays as context, what goes
/// before what comes.
pub open spec fn op_lines(op: LineOp, old: Seq<Seq<char>>, new: Seq<Seq<char>>) -> Seq<
    (LineKind, Seq<char>),
> {
    match op.tag {
        OpTag::Equal => lines_between(old, op.old_lo as int, op.old_hi as int, LineKind::Context),
        OpTag::Delete => lines_between(old, op.old_lo as int, op.old_hi as int, LineKind::Removed),
        OpTag::Insert => lines_between(new, op.new_lo as int, op.new_hi as int, LineKind::Added),
        OpTag::Replace => lines_between(
            old,
            op.old_lo as int,
            op.old_hi as int,
            LineKind::Removed,
        ) + lines_between(new, op.new_lo as int, op.new_hi as int, LineKind::Added),
    }
}

/// The lines that the operations of a group show, in order.
pub open spec fn group_lines(
    group: Seq<LineOp>,
    old: Seq<Seq<char>>,
    new: Seq<Seq<char>>,
) -> Seq<(LineKind, Seq<char>)>
    decreases group.len(),
{
    if group.len() == 0 {
        Seq::empty()
    } else {
        group_lines(group.drop_last(), old, new) + op_lines(group.last(), old, new)
    }
}

/// The hunk of a group: it starts where the group does, and counts the lines
/// that it shows of each side. Lines are numbered from one; a side without
/// lines starts at zero.
pub open spec fn group_hunk(
    group: Seq<LineOp>,
    old: Seq<Seq<char>>,
    new: Seq<Seq<char>>,
) -> HunkView {
    let start = group_start(group);
    let lines = group_lines(group, old, new);
    let old_count = review::side(lines, false).len() as int;
    let new_count = review::side(lines, true).len() as int;
    HunkView {
        old_start: if old_count == 0 {
            0
        } else {
            start.0 + 1
        },
        old_count,
        new_start: if new_count == 0 {
            0
        } else {
            start.1 + 1
        },
        new_count,
        lines,
    }
}

/// The hunks of all groups.
pub open spec fn groups_hunks(
    groups: Seq<Seq<LineOp>>,
    old: Seq<Seq<char>>,
    new: Seq<Seq<char>>,
) -> Seq<HunkView> {
    groups.map_values(|g: Seq<LineOp>| group_hunk(g, old, new))
}

/// The hunks between two texts, with three lines of context.
pub open spec fn hunks_between(old: Seq<char>, new: Seq<char>) -> Seq<HunkView> {
    groups_hunks(line_groups(old, new, 3), shown_lines(old), shown_lines(new))
}

/// Appends the lines `texts[lo..hi]` to `out`.
fn push_lines(out: &mut Vec<DiffLine>, texts: &Vec<String>, lo: usize, hi: usize, kind: LineKind)
    requires
        lo <= hi <= texts@.len(),
    ensures
        line_views(final(out)@) == line_views(old(out)@) + lines_between(
            text::views(texts@),
            lo as int,
            hi as int,
            kind,
        ),
{
    let ghost before = line_views(out@);
    let ghost all = text::views(texts@);
    let mut i: usize = lo;
    proof {
        assert(line_views(out@) =~= before + lines_between(all, lo as int, lo as int, kind));
    }
    while i < hi
        invariant
            lo <= i <= hi <= texts@.len(),
            all == text::views(texts@),
            line_views(out@) == before + lines_between(all, lo as int, i as int, kind),
        decreases hi - i,
    {
        let s = texts[i].clone();
        let line = match kind {
            LineKind::Context => DiffLine::Context(s),
            LineKind::Added => DiffLine::Added(s),
            LineKind::Removed => DiffLine::Removed(s),
        };
        let ghost prev = out@;
        proof {
            assert(line@ == (kind, texts@[i as int]@));
            assert(line_views(prev.push(line)) =~= line_views(prev).push(line@));
            assert(lines_between(all, lo as int, i as int + 1, kind) =~= lines_between(
                all,
                lo as int,
                i as int,
                kind,
            ).push((kind, all[i as int])));
        }
        out.push(line);
        proof {
            assert(line_views(out@) =~= before + lines_between(all, lo as int, i as int + 1, kind));
        }
        i += 1;
    }
}

/// How many lines of a hunk stand on one side.
fn count_side(lines: &Vec<DiffLine>, new_side: bool) -> (r: usize)
    ensures
        r == review::side(line_views(lines@), new_side).len(),
{
    let ghost all = line_views(lines@);
    let mut count: usize = 0;
    let mut i: usize = 0;
    proof {
        assert(all.take(0) =~= Seq::empty());
    }
    while i < lines.len()
        invariant
            count <= i <= lines@.len(),
            all == line_views(lines@),
            count == review::side(all.take(i as int), new_side).len(),
        decreases lines@.len() - i,
    {
        proof {
            assert(all.take(i as int + 1).drop_last() =~= all.take(i as int));
            assert(all.take(i as int + 1).last() == lines@[i as int]@);
        }
        let counts = match &lines[i] {
            DiffLine::Context(_) => true,
            DiffLine::Added(_) => new_side,
            DiffLine::Removed(_) => !new_side,
        };
        if counts {
            count += 1;
        }
        i += 1;
    }
    proof {
        assert(all.take(all.len() as int) =~= all);
    }
    count
}

/// The hunk of one group of operations.
pub fn hunk_from_group(group: &Vec<LineOp>, old: &Vec<String>, new: &Vec<String>) -> (r: DiffHunk)
    requires
        group@.len() > 0,
        forall|j: int|
            0 <= j < group@.len() ==> op_in_range(
                #[trigger] group@[j],
                old@.len() as int,
                new@.len() as int,
            ),
        group_start(group@).0 < usize::MAX,
        group_start(group@).1 < usize::MAX,
    ensures
        r@ == group_hunk(group@, text::views(old@), text::views(new@)),
        r@.old_count == review::side(r@.lines, false).len(),
        r@.new_count == review::side(r@.lines, true).len(),
{
    let first = group[0];
    let mut old_lo: usize = 0;
    let mut new_lo: usize = 0;
    if first.tag == OpTag::Equal {
        old_lo = first.old_lo;
        new_lo = first.new_lo;
    }
    let mut lines: Vec<DiffLine> = Vec::new();
    let mut i: usize = 0;
    let ghost ov = text::views(old@);
    let ghost nv = text::views(new@);
    proof {
        assert(line_views(lines@) =~= Seq::empty());
        assert(group@.take(0) =~= Seq::empty());
    }
    while i < group.len()
        invariant
            i <= group@.len(),
            ov == text::views(old@),
            nv == text::views(new@),
            forall|j: int|
                0 <= j < group@.len() ==> op_in_range(
                    #[trigger] group@[j],
                    old@.len() as int,
                    new@.len() as int,
                ),
            line_views(lines@) == group_lines(group@.take(i as int), ov, nv),
        decreases group@.len() - i,
    {
        let op = group[i];
        let ghost before = line_views(lines@);
        proof {
            assert(op_in_range(group@[i as int], old@.len() as int, new@.len() as int));
            assert(group@.take(i as int + 1).drop_last() =~= group@.take(i as int));
            assert(group@.take(i as int + 1).last() == op);
        }
        match op.tag {
            OpTag::Equal => {
                push_lines(&mut lines, old, op.old_lo, op.old_hi, LineKind::Context);
            },
            OpTag::Delete => {
                push_lines(&mut lines, old, op.old_lo, op.old_hi, LineKind::Removed);
            },
            OpTag::Insert => {
                push_lines(&mut lines, new, op.new_lo, op.new_hi, LineKind::Added);
            },
            OpTag::Replace => {
                push_lines(&mut lines, old, op.old_lo, op.old_hi, LineKind::Removed);
                push_lines(&mut lines, new, op.new_lo, op.new_hi, LineKind::Added);
                proof {
                    assert(line_views(lines@) =~= before + op_lines(op, ov, nv));
                }
            },
        }
        i += 1;
    }
    proof {
        assert(group@.take(group@.len() as int) =~= group@);
    }
    let old_count = count_side(&lines, false);
    let new_count = count_side(&lines, true);
    DiffHunk {
        old_start: if old_count == 0 {
            0
        } else {
            old_lo + 1
        },
        old_count,
        new_start: if new_count == 0 {
            0
        } else {
            new_lo + 1
        },
        new_count,
        lines,
    }
}

/// Whether a group starts before the end of both sides, or at the front.
spec fn starts_inside(group: Seq<LineOp>, old_len: int, new_len: int) -> bool {
    group_start(group) == (0int, 0int) || (group_start(group).0 < old_len && group_start(group).1
        < new_len)
}

spec fn groups_start_inside(groups: Seq<Seq<LineOp>>, old_len: int, new_len: int) -> bool {
    forall|i: int| 0 <= i < groups.len() ==> starts_inside(#[trigger] groups[i], old_len, new_len)
}

proof fn lemma_script_in_range(
    groups: Seq<Seq<LineOp>>,
    old: Seq<Seq<char>>,
    new: Seq<Seq<char>>,
)
    requires
        is_script(groups, old, new),
    ensures
        groups_in_range(groups, old.len() as int, new.len() as int),
        groups_start_inside(groups, old.len() as int, new.len() as int),
{
    assert forall|i: int| 0 <= i < groups.len() implies (#[trigger] groups[i]).len() > 0 by {
        assert(in_turn(groups[i], old, new));
    }
    assert forall|i: int| 0 <= i < groups.len() implies starts_inside(
        #[trigger] groups[i],
        old.len() as int,
        new.len() as int,
    ) by {
        let g = groups[i];
        assert(in_turn(groups[i], old, new));
        assert(takes_next(g[0], position(g, group_start(g), 0), old, new));
        if g[0].tag == OpTag::Equal {
            assert(old.subrange(g[0].old_lo as int, g[0].old_hi as int).len() > 0);
        }
    }
    assert forall|i: int, j: int|
        0 <= i < groups.len() && 0 <= j < groups[i].len() implies op_in_range(
        #[trigger] groups[i][j],
        old.len() as int,
        new.len() as int,
    ) by {
        assert(in_turn(groups[i], old, new));
    }
}

/// The hunks of all groups.
fn hunks_from_groups(groups: &Vec<Vec<LineOp>>, old: &Vec<String>, new: &Vec<String>) -> (r: Vec<
    DiffHunk,
>)
    requires
        groups_in_range(group_views(groups@), old@.len() as int, new@.len() as int),
        groups_start_inside(group_views(groups@), old@.len() as int, new@.len() as int),
    ensures
        hunk_views(r@) == groups_hunks(
            group_views(groups@),
            text::views(old@),
            text::views(new@),
        ),
{
    let mut hunks: Vec<DiffHunk> = Vec::new();
    let mut i: usize = 0;
    let ghost gv = group_views(groups@);
    let ghost ov = text::views(old@);
    let ghost nv = text::views(new@);
    proof {
        assert(hunk_views(hunks@) =~= groups_hunks(gv.take(0), ov, nv));
    }
    while i < groups.len()
        invariant
            i <= groups@.len(),
            gv == group_views(groups@),
            groups_in_range(gv, old@.len() as int, new@.len() as int),
            groups_start_inside(gv, old@.len() as int, new@.len() as int),
            text::views(old@) == ov,
            text::views(new@) == nv,
            hunk_views(hunks@) == groups_hunks(gv.take(i as int), ov, nv),
        decreases groups@.len() - i,
    {
        proof {
            assert(gv[i as int] == groups@[i as int]@);
            assert(starts_inside(gv[i as int], old@.len() as int, new@.len() as int));
            assert(old.len() <= usize::MAX && new.len() <= usize::MAX);
            assert forall|j: int| 0 <= j < groups@[i as int]@.len() implies op_in_range(
                #[trigger] groups@[i as int]@[j],
                old@.len() as int,
                new@.len() as int,
            ) by {
                assert(op_in_range(gv[i as int][j], old@.len() as int, new@.len() as int));
            }
        }
        let hunk = hunk_from_group(&groups[i], old, new);
        let ghost before = hunks@;
        hunks.push(hunk);
        proof {
            assert(hunk_views(hunks@) =~= hunk_views(before).push(hunk@));
            assert(groups_hunks(gv.take(i as int + 1), ov, nv) =~= groups_hunks(
                gv.take(i as int),
                ov,
                nv,
            ).push(group_hunk(gv[i as int], ov, nv)));
        }
        i += 1;
    }
    proof {
        assert(gv.take(gv.len() as int) =~= gv);
    }
    hunks
}

/// The hunks between two texts.
pub fn text_hunks(old: &str, new: &str) -> (r: Vec<DiffHunk>)
    ensures
        hunk_views(r@) == hunks_between(old@, new@),
        review_laws::counts_agree(hunk_views(r@)),
        overlay_laws::numbered(hunk_views(r@)),
        review_laws::describes(hunk_views(r@), line_tokens(old@), line_tokens(new@)),
{
    let groups = diff_line_groups(old, new, 3);
    let old_lines = line_texts(old);
    let new_lines = line_texts(new);
    proof {
        let (o, n) = (line_tokens(old@), line_tokens(new@));
        lemma_script_in_range(group_views(groups@), o, n);
        assert(text::views(old_lines@).len() == o.len());
        assert(text::views(new_lines@).len() == n.len());
        review_laws::law_script_describes(group_views(groups@), o, n);
        overlay_laws::law_hunks_are_numbered(group_views(groups@), o, n);
    }
    hunks_from_groups(&groups, &old_lines, &new_lines)
}

/// The difference of the file `path`: text hunks where both sides are valid
/// UTF-8, else a binary difference without hunks.
pub open spec fn file_diff(
    path: Seq<char>,
    old: Seq<u8>,
    new: Seq<u8>,
    kind: DiffKind,
) -> FileDiffView {
    let is_text = valid_utf8(old) && valid_utf8(new);
    FileDiffView {
        path,
        kind,
        binary: !is_text,
        hunks: if is_text {
            hunks_between(decode_utf8(old), decode_utf8(new))
        } else {
            Seq::empty()
        },
    }
}

/// The difference of the file `path` between `old` and `new`.
pub fn build_file_diff(path: &str, old: &Vec<u8>, new: &Vec<u8>, kind: DiffKind) -> (r: FileDiff)
    ensures
        r@ == file_diff(path@, old@, new@, kind),
        review_laws::file_tells(r@, old@, new@),
{
    match (utf8_text(old), utf8_text(new)) {
        (Some(o), Some(n)) => FileDiff {
            path: path.to_owned(),
            kind,
            binary: false,
            hunks: text_hunks(o.as_str(), n.as_str()),
        },
        _ => {
            let hunks: Vec<DiffHunk> = Vec::new();
            proof {
                assert(hunk_views(hunks@) =~= Seq::empty());
            }
            FileDiff { path: path.to_owned(), kind, binary: true, hunks }
        },
    }
}

/// Whether a component starts at `i`.
pub open spec fn is_start(p: Seq<char>, i: int) -> bool {
    i <= 0 || p[i - 1] == '/'
}

/// Whether a component ends before `i`.
pub open spec fn is_end(p: Seq<char>, i: int) -> bool {
    i >= p.len() || p[i] == '/'
}

/// Whether place `i` of a path belongs to a component `.` or `..`.
pub open spec fn in_dots(p: Seq<char>, i: int) -> bool {
    p[i] == '.' && {
        ||| is_start(p, i) && is_end(p, i + 1)
        ||| is_start(p, i) && i + 1 < p.len() && p[i + 1] == '.' && is_end(p, i + 2)
        ||| i > 0 && p[i - 1] == '.' && is_start(p, i - 1) && is_end(p, i + 1)
    }
}

/// The rank of place `i` of a path: the separator ranks first, so that paths are
/// ordered component by component; then the components `.` and `..`, and then the
/// characters of names.
pub open spec fn path_rank(p: Seq<char>, i: int) -> int {
    if p[i] == '/' {
        0
    } else if in_dots(p, i) {
        1
    } else {
        p[i] as int + 2
    }
}

/// The ranks of a path.
pub open spec fn path_key(p: Seq<char>) -> Seq<int> {
    Seq::new(p.len(), |i: int| path_rank(p, i))
}

/// Whether ranks stand before others, the first that differ deciding.
pub open spec fn key_lt(a: Seq<int>, b: Seq<int>) -> bool
    decreases a.len(),
{
    if b.len() == 0 {
        false
    } else if a.len() == 0 {
        true
    } else if a[0] == b[0] {
        key_lt(a.skip(1), b.skip(1))
    } else {
        a[0] < b[0]
    }
}

/// Whether the path `a` stands before `b`.
pub open spec fn path_lt(a: Seq<char>, b: Seq<char>) -> bool {
    key_lt(path_key(a), path_key(b))
}

proof fn lemma_key_irreflexive(a: Seq<int>)
    ensures
        !key_lt(a, a),
    decreases a.len(),
{
    if a.len() > 0 {
        lemma_key_irreflexive(a.skip(1));
    }
}

proof fn lemma_key_total(a: Seq<int>, b: Seq<int>)
    ensures
        key_lt(a, b) || key_lt(b, a) || a == b,
    decreases a.len(),
{
    if a.len() > 0 && b.len() > 0 && a[0] == b[0] {
        lemma_key_total(a.skip(1), b.skip(1));
        if a.skip(1) == b.skip(1) {
            assert(a =~= seq![a[0]] + a.skip(1));
            assert(b =~= seq![b[0]] + b.skip(1));
        }
    } else if a.len() == 0 && b.len() == 0 {
        assert(a =~= b);
    }
}

proof fn lemma_key_transitive(a: Seq<int>, b: Seq<int>, c: Seq<int>)
    requires
        key_lt(a, b),
        key_lt(b, c),
    ensures
        key_lt(a, c),
    decreases a.len(),
{
    if a.len() > 0 && b.len() > 0 && c.len() > 0 && a[0] == b[0] && b[0] == c[0] {
        lemma_key_transitive(a.skip(1), b.skip(1), c.skip(1));
    }
}

proof fn lemma_key_decided(a: Seq<int>, b: Seq<int>, n: int)
    requires
        0 <= n <= a.len(),
        n <= b.len(),
        forall|i: int| 0 <= i < n ==> #[trigger] a[i] == b[i],
        n < a.len() && n < b.len() ==> a[n] != b[n],
    ensures
        key_lt(a, b) == (n < b.len() && (n == a.len() || a[n] < b[n])),
    decreases n,
{
    if n > 0 {
        let (x, y) = (a.skip(1), b.skip(1));
        assert(a[0] == b[0]);
        assert forall|i: int| 0 <= i < n - 1 implies #[trigger] x[i] == y[i] by {
            assert(a[i + 1] == b[i + 1]);
        }
        lemma_key_decided(x, y, n - 1);
    }
}

/// The first place at which two paths differ in rank decides their order; where
/// there is none, the shorter one stands first.
pub proof fn lemma_path_decided(a: Seq<char>, b: Seq<char>, n: int)
    requires
        0 <= n <= a.len(),
        n <= b.len(),
        forall|i: int| 0 <= i < n ==> #[trigger] path_rank(a, i) == path_rank(b, i),
        n < a.len() && n < b.len() ==> path_rank(a, n) != path_rank(b, n),
    ensures
        path_lt(a, b) == (n < b.len() && (n == a.len() || path_rank(a, n) < path_rank(b, n))),
{
    let (x, y) = (path_key(a), path_key(b));
    assert forall|i: int| 0 <= i < n implies #[trigger] x[i] == y[i] by {
        assert(path_rank(a, i) == path_rank(b, i));
    }
    lemma_key_decided(x, y, n);
}

pub proof fn lemma_path_irreflexive(a: Seq<char>)
    ensures
        !path_lt(a, a),
{
    lemma_key_irreflexive(path_key(a));
}

proof fn lemma_same_rank(a: char, b: char)
    ensures
        0 <= a as int,
        0 <= b as int,
        a as int == b as int ==> a == b,
{
}

pub proof fn lemma_path_total(a: Seq<char>, b: Seq<char>)
    ensures
        path_lt(a, b) || path_lt(b, a) || a == b,
{
    let (x, y) = (path_key(a), path_key(b));
    lemma_key_total(x, y);
    if x == y {
        assert(x.len() == a.len() && y.len() == b.len());
        assert forall|i: int| 0 <= i < a.len() implies a[i] == b[i] by {
            assert(x[i] == path_rank(a, i) && y[i] == path_rank(b, i));
            lemma_same_rank(a[i], b[i]);
        }
        assert(a =~= b);
    }
}

pub proof fn lemma_path_transitive(a: Seq<char>, b: Seq<char>, c: Seq<char>)
    requires
        path_lt(a, b),
        path_lt(b, c),
    ensures
        path_lt(a, c),
{
    lemma_key_transitive(path_key(a), path_key(b), path_key(c));
}

/// The rank of a character of a name.
fn name_rank(c: char) -> (r: u32)
    ensures
        r == c as int + 2,
{
    let code: u32 = c as u32;
    code + 2
}

/// The rank of place `i` of a path.
fn rank_at(p: &Vec<char>, i: usize) -> (r: u32)
    requires
        i < p@.len(),
    ensures
        r == path_rank(p@, i as int),
{
    let n = p.len();
    if p[i] == '/' {
        return 0;
    }
    if p[i] == '.' {
        let starts = i == 0 || p[i - 1] == '/';
        let ends = n - i == 1 || p[i + 1] == '/';
        let first = starts && n - i > 1 && p[i + 1] == '.' && (n - i == 2 || p[i + 2] == '/');
        let second = i > 0 && p[i - 1] == '.' && (i == 1 || p[i - 2] == '/') && ends;
        if (starts && ends) || first || second {
            return 1;
        }
    }
    name_rank(p[i])
}

/// Whether the path `a` stands before `b`.
pub fn path_before(a: &str, b: &str) -> (r: bool)
    ensures
        r == path_lt(a@, b@),
{
    let x = text::to_chars(a);
    let y = text::to_chars(b);
    let mut i: usize = 0;
    while i < x.len() && i < y.len()
        invariant
            i <= x@.len(),
            i <= y@.len(),
            x@ == a@,
            y@ == b@,
            forall|j: int| 0 <= j < i ==> #[trigger] path_rank(a@, j) == path_rank(b@, j),
        decreases x@.len() - i,
    {
        let (s, t) = (rank_at(&x, i), rank_at(&y, i));
        if s != t {
            proof {
                lemma_path_decided(a@, b@, i as int);
            }
            return s < t;
        }
        i += 1;
    }
    proof {
        lemma_path_decided(a@, b@, i as int);
    }
    i < y.len()
}

/// A path, or the rest of one, without what names nothing: a separator before
/// another or at the end, and a `.` behind a separator.
pub open spec fn trimmed_path(p: Seq<char>) -> Seq<char>
    decreases p.len(),
{
    if p.len() == 0 {
        Seq::empty()
    } else if p[0] == '/' && (p.len() == 1 || p[1] == '/') {
        trimmed_path(p.skip(1))
    } else if p[0] == '/' && p[1] == '.' && (p.len() == 2 || p[2] == '/') {
        trimmed_path(p.skip(2))
    } else {
        seq![p[0]] + trimmed_path(p.skip(1))
    }
}

/// The one spelling of a path: two that name the same components have the same.
pub open spec fn normal_path(p: Seq<char>) -> Seq<char> {
    if p.len() > 0 && p[0] == '/' && trimmed_path(p).len() == 0 {
        "/"@
    } else {
        trimmed_path(p)
    }
}

/// The one spelling of a path.
fn normalize(path: &str) -> (r: String)
    ensures
        r@ == normal_path(path@),
{
    let v = text::to_chars(path);
    let mut out: Vec<char> = Vec::new();
    let mut i: usize = 0;
    proof {
        assert(v@.skip(0) =~= v@);
        assert(out@ + trimmed_path(v@) =~= trimmed_path(v@));
    }
    while i < v.len()
        invariant
            i <= v@.len(),
            out@ + trimmed_path(v@.skip(i as int)) == trimmed_path(v@),
        decreases v@.len() - i,
    {
        let ghost rest = v@.skip(i as int);
        let ghost before = out@;
        proof {
            assert(rest[0] == v@[i as int]);
            assert(rest.skip(1) =~= v@.skip(i + 1));
            if i + 1 < v@.len() {
                assert(rest[1] == v@[i + 1]);
                assert(rest.skip(2) =~= v@.skip(i + 2));
            }
            if i + 2 < v@.len() {
                assert(rest[2] == v@[i + 2]);
            }
        }
        if v[i] == '/' && (v.len() - i == 1 || v[i + 1] == '/') {
            i += 1;
        } else if v[i] == '/' && v[i + 1] == '.' && (v.len() - i == 2 || v[i + 2] == '/') {
            i += 2;
        } else {
            out.push(v[i]);
            proof {
                assert(out@ + trimmed_path(rest.skip(1)) =~= before + (seq![rest[0]] + trimmed_path(
                    rest.skip(1),
                )));
            }
            i += 1;
        }
    }
    proof {
        assert(v@.skip(i as int) =~= Seq::empty());
        assert(out@ + Seq::<char>::empty() =~= out@);
    }
    if v.len() > 0 && v[0] == '/' && out.len() == 0 {
        "/".to_owned()
    } else {
        text::from_chars(&out)
    }
}

/// Whether nothing in a path names nothing: behind each separator comes a
/// character that is neither a separator nor a dot.
pub open spec fn is_plain_path(p: Seq<char>) -> bool {
    &&& p.len() > 0
    &&& forall|i: int|
        0 <= i < p.len() && #[trigger] p[i] == '/' ==> i + 1 < p.len() && p[i + 1] != '/' && p[i + 1]
            != '.'
}

proof fn lemma_trimmed_plain(p: Seq<char>)
    requires
        p.len() == 0 || is_plain_path(p),
    ensures
        trimmed_path(p) == p,
    decreases p.len(),
{
    if p.len() > 0 {
        let rest = p.skip(1);
        assert forall|i: int| 0 <= i < rest.len() && #[trigger] rest[i] == '/' implies i + 1
            < rest.len() && rest[i + 1] != '/' && rest[i + 1] != '.' by {
            assert(p[i + 1] == '/');
        }
        lemma_trimmed_plain(rest);
        assert(seq![p[0]] + rest =~= p);
    } else {
        assert(p =~= Seq::empty());
    }
}

/// A plain path is spelled as it is.
pub proof fn lemma_plain_path(p: Seq<char>)
    requires
        is_plain_path(p),
    ensures
        normal_path(p) == p,
{
    lemma_trimmed_plain(p);
}

/// A flat mapping of relative path to file content.
///
/// Every regular file is listed explicitly, directories are implicit. The
/// entries are kept in path order, each path once.
pub struct Tree {
    entries: Vec<(String, Vec<u8>)>,
}

impl Tree {
    /// The entries in order.
    pub closed spec fn model(&self) -> Seq<(Seq<char>, Seq<u8>)> {
        self.entries@.map_values(|e: (String, Vec<u8>)| (e.0@, e.1@))
    }

    /// The entries stand in strict path order.
    pub open spec fn wf(&self) -> bool {
        sorted_entries(self.model())
    }

    /// The empty tree.
    pub fn new() -> (r: Tree)
        ensures
            r.wf(),
            r.model().len() == 0,
            forall|p: Seq<char>| content_at(r.model(), p) is None,
    {
        Tree { entries: Vec::new() }
    }

    /// Puts `content` at `path`, in place of what was there. Paths that name the
    /// same components are one.
    pub fn insert(&mut self, path: &str, content: Vec<u8>)
        requires
            old(self).wf(),
        ensures
            final(self).wf(),
            content_at(final(self).model(), normal_path(path@)) == Some(content@),
            forall|p: Seq<char>|
                p != normal_path(path@) ==> content_at(final(self).model(), p) == content_at(
                    old(self).model(),
                    p,
                ),
    {
        let key = normalize(path);
        let path = key.as_str();
        let ghost m0 = self.model();
        let mut i: usize = 0;
        while i < self.entries.len() && path_before(self.entries[i].0.as_str(), path)
            invariant
                i <= self.entries@.len(),
                self.model() == m0,
                sorted_entries(m0),
                m0.len() == self.entries@.len(),
                forall|j: int| 0 <= j < i ==> path_lt((#[trigger] m0[j]).0, path@),
            decreases self.entries@.len() - i,
        {
            proof {
                assert(m0[i as int].0 == self.entries@[i as int].0@);
            }
            i += 1;
        }
        let ghost e0 = self.entries@;
        proof {
            if i < m0.len() {
                assert(m0[i as int].0 == self.entries@[i as int].0@);
                lemma_path_total(m0[i as int].0, path@);
            }
        }
        if i < self.entries.len() && text::str_eq(self.entries[i].0.as_str(), path) {
            self.entries.set(i, (path.to_owned(), content));
            proof {
                assert(self.model() =~= m0.update(i as int, (path@, content@)));
                lemma_update_entry(m0, i as int, content@);
            }
        } else {
            let entry = (path.to_owned(), content);
            self.entries.insert(i, entry);
            proof {
                assert(self.model() =~= m0.insert(i as int, (path@, content@)));
                lemma_insert_entry(m0, i as int, path@, content@);
            }
        }
    }
}

/// Whether the entries stand in strict path order.
pub open spec fn sorted_entries(m: Seq<(Seq<char>, Seq<u8>)>) -> bool {
    forall|i: int, j: int| 0 <= i < j < m.len() ==> path_lt((#[trigger] m[i]).0, (#[trigger] m[j]).0)
}

/// The content at path `p`, if the tree has one.
pub open spec fn content_at(m: Seq<(Seq<char>, Seq<u8>)>, p: Seq<char>) -> Option<Seq<u8>> {
    if exists|i: int| 0 <= i < m.len() && (#[trigger] m[i]).0 == p {
        Some(m[choose|i: int| 0 <= i < m.len() && (#[trigger] m[i]).0 == p].1)
    } else {
        None
    }
}

pub proof fn lemma_content_at(m: Seq<(Seq<char>, Seq<u8>)>, i: int)
    requires
        sorted_entries(m),
        0 <= i < m.len(),
    ensures
        content_at(m, m[i].0) == Some(m[i].1),
{
    let p = m[i].0;
    let k = choose|k: int| 0 <= k < m.len() && (#[trigger] m[k]).0 == p;
    assert(0 <= k < m.len() && m[k].0 == p);
    lemma_path_irreflexive(p);
}

proof fn lemma_update_entry(m: Seq<(Seq<char>, Seq<u8>)>, i: int, content: Seq<u8>)
    requires
        sorted_entries(m),
        0 <= i < m.len(),
    ensures
        sorted_entries(m.update(i, (m[i].0, content))),
        content_at(m.update(i, (m[i].0, content)), m[i].0) == Some(content),
        forall|p: Seq<char>|
            p != m[i].0 ==> content_at(m.update(i, (m[i].0, content)), p) == content_at(m, p),
{
    let u = m.update(i, (m[i].0, content));
    assert forall|a: int, b: int| 0 <= a < b < u.len() implies path_lt(
        (#[trigger] u[a]).0,
        (#[trigger] u[b]).0,
    ) by {
        assert(u[a].0 == m[a].0 && u[b].0 == m[b].0);
    }
    lemma_content_at(u, i);
    assert forall|p: Seq<char>| p != m[i].0 implies content_at(u, p) == content_at(m, p) by {
        if exists|k: int| 0 <= k < m.len() && (#[trigger] m[k]).0 == p {
            let k = choose|k: int| 0 <= k < m.len() && (#[trigger] m[k]).0 == p;
            assert(u[k] == m[k]);
            lemma_content_at(m, k);
            lemma_content_at(u, k);
        } else {
            assert forall|k: int| 0 <= k < u.len() implies (#[trigger] u[k]).0 != p by {
                assert(u[k].0 == m[k].0);
            }
        }
    }
}

proof fn lemma_insert_entry(m: Seq<(Seq<char>, Seq<u8>)>, i: int, path: Seq<char>, content: Seq<u8>)
    requires
        sorted_entries(m),
        0 <= i <= m.len(),
        forall|j: int| 0 <= j < i ==> path_lt((#[trigger] m[j]).0, path),
        i < m.len() ==> path_lt(path, m[i].0),
    ensures
        sorted_entries(m.insert(i, (path, content))),
        content_at(m.insert(i, (path, content)), path) == Some(content),
        forall|p: Seq<char>|
            p != path ==> content_at(m.insert(i, (path, content)), p) == content_at(m, p),
{
    let u = m.insert(i, (path, content));
    assert forall|j: int| i <= j < m.len() implies path_lt(path, (#[trigger] m[j]).0) by {
        if j > i {
            lemma_path_transitive(path, m[i].0, m[j].0);
        }
    }
    assert forall|a: int, b: int| 0 <= a < b < u.len() implies path_lt(
        (#[trigger] u[a]).0,
        (#[trigger] u[b]).0,
    ) by {
        if a < i && b > i {
            assert(u[a] == m[a] && u[b] == m[b - 1]);
        } else if a < i && b < i {
            assert(u[a] == m[a] && u[b] == m[b]);
        } else if a > i {
            assert(u[a] == m[a - 1] && u[b] == m[b - 1]);
        } else if a == i {
            assert(u[b] == m[b - 1]);
        } else {
            assert(u[a] == m[a]);
        }
    }
    assert(u[i] == (path, content));
    lemma_content_at(u, i);
    assert forall|p: Seq<char>| p != path implies content_at(u, p) == content_at(m, p) by {
        if exists|k: int| 0 <= k < m.len() && (#[trigger] m[k]).0 == p {
            let k = choose|k: int| 0 <= k < m.len() && (#[trigger] m[k]).0 == p;
            let k2 = if k < i {
                k
            } else {
                k + 1
            };
            assert(u[k2] == m[k]);
            lemma_content_at(m, k);
            lemma_content_at(u, k2);
        } else {
            assert forall|k: int| 0 <= k < u.len() implies (#[trigger] u[k]).0 != p by {
                if k < i {
                    assert(u[k] == m[k]);
                } else if k > i {
                    assert(u[k] == m[k - 1]);
                }
            }
        }
    }
}

/// The difference at path `p`, if the two trees differ there.
pub open spec fn diff_at(
    base: Seq<(Seq<char>, Seq<u8>)>,
    overlay: Seq<(Seq<char>, Seq<u8>)>,
    p: Seq<char>,
) -> Option<FileDiffView> {
    match (content_at(base, p), content_at(overlay, p)) {
        (None, None) => None,
        (None, Some(new)) => Some(file_diff(p, Seq::empty(), new, DiffKind::Added)),
        (Some(old), None) => Some(file_diff(p, old, Seq::empty(), DiffKind::Deleted)),
        (Some(old), Some(new)) => if old == new {
            None
        } else {
            Some(file_diff(p, old, new, DiffKind::Modified))
        },
    }
}

/// The models of a list of file differences.
pub open spec fn diff_views(v: Seq<FileDiff>) -> Seq<FileDiffView> {
    v.map_values(|d: FileDiff| d@)
}

/// Whether `out` lists the differences of the two trees at the paths for which
/// `done` holds: in strict path order, each exactly once.
pub open spec fn lists_diffs(
    out: Seq<FileDiffView>,
    base: Seq<(Seq<char>, Seq<u8>)>,
    overlay: Seq<(Seq<char>, Seq<u8>)>,
    done: spec_fn(Seq<char>) -> bool,
) -> bool {
    &&& forall|i: int, j: int|
        0 <= i < j < out.len() ==> path_lt((#[trigger] out[i]).path, (#[trigger] out[j]).path)
    &&& forall|i: int|
        0 <= i < out.len() ==> done((#[trigger] out[i]).path) && diff_at(base, overlay, out[i].path)
            == Some(out[i])
    &&& forall|p: Seq<char>|
        done(p) && #[trigger] diff_at(base, overlay, p) is Some ==> exists|i: int|
            0 <= i < out.len() && (#[trigger] out[i]).path == p
}

/// The content of `p` in a tree; empty where it has none.
pub open spec fn content_or_empty(m: Seq<(Seq<char>, Seq<u8>)>, p: Seq<char>) -> Seq<u8> {
    match content_at(m, p) {
        Some(content) => content,
        None => Seq::empty(),
    }
}

/// Whether the hunks of a difference tell how the file's content in the base
/// becomes that in the overlay.
pub open spec fn diff_tells(
    d: FileDiff,
    base: Seq<(Seq<char>, Seq<u8>)>,
    overlay: Seq<(Seq<char>, Seq<u8>)>,
) -> bool {
    review_laws::file_tells(
        d@,
        content_or_empty(base, d@.path),
        content_or_empty(overlay, d@.path),
    )
}

/// Whether `p` stands before entry `i` of the base and entry `j` of the
/// overlay.
spec fn before_both(
    base: Seq<(Seq<char>, Seq<u8>)>,
    overlay: Seq<(Seq<char>, Seq<u8>)>,
    i: int,
    j: int,
    p: Seq<char>,
) -> bool {
    (i < base.len() ==> path_lt(p, base[i].0)) && (j < overlay.len() ==> path_lt(p, overlay[j].0))
}

/// File-level differences between a base tree and an overlay tree, in path
/// order.
///
/// Paths present on both sides with identical bytes are omitted.
pub fn diff_trees(base: &Tree, overlay: &Tree) -> (r: Vec<FileDiff>)
    requires
        base.wf(),
        overlay.wf(),
    ensures
        lists_diffs(diff_views(r@), base.model(), overlay.model(), |p: Seq<char>| true),
        forall|i: int| 0 <= i < r@.len() ==> diff_tells(#[trigger] r@[i], base.model(), overlay.model()),
{
    let mut out: Vec<FileDiff> = Vec::new();
    let mut i: usize = 0;
    let mut j: usize = 0;
    let ghost b = base.model();
    let ghost o = overlay.model();
    let empty: Vec<u8> = Vec::new();
    proof {
        assert forall|p: Seq<char>| #[trigger] before_both(b, o, 0, 0, p) implies diff_at(b, o, p) is None by {
            lemma_absent_between(b, 0, p);
            lemma_absent_between(o, 0, p);
        }
        assert(diff_views(out@) =~= Seq::empty());
    }
    while i < base.entries.len() || j < overlay.entries.len()
        invariant
            i <= b.len(),
            j <= o.len(),
            b == base.model(),
            o == overlay.model(),
            b.len() == base.entries@.len(),
            o.len() == overlay.entries@.len(),
            sorted_entries(b),
            sorted_entries(o),
            entries_before(b, i as int, o, j as int),
            entries_before(o, j as int, b, i as int),
            empty@ == Seq::<u8>::empty(),
            lists_diffs(diff_views(out@), b, o, |p: Seq<char>| before_both(b, o, i as int, j as int, p)),
            forall|k: int| 0 <= k < out@.len() ==> diff_tells(#[trigger] out@[k], b, o),
        decreases b.len() - i + o.len() - j,
    {
        let take_base: bool;
        let take_overlay: bool;
        proof {
            if i < b.len() {
                assert(b[i as int] == (base.entries@[i as int].0@, base.entries@[i as int].1@));
            }
            if j < o.len() {
                assert(o[j as int] == (overlay.entries@[j as int].0@, overlay.entries@[j as int].1@));
            }
            if i < b.len() && j < o.len() {
                lemma_path_total(b[i as int].0, o[j as int].0);
            }
        }
        if i == base.entries.len() {
            take_base = false;
            take_overlay = true;
        } else if j == overlay.entries.len() {
            take_base = true;
            take_overlay = false;
        } else if path_before(base.entries[i].0.as_str(), overlay.entries[j].0.as_str()) {
            take_base = true;
            take_overlay = false;
        } else if path_before(overlay.entries[j].0.as_str(), base.entries[i].0.as_str()) {
            take_base = false;
            take_overlay = true;
        } else {
            take_base = true;
            take_overlay = true;
        }
        let ghost before = diff_views(out@);
        let ghost p = if take_base {
            b[i as int].0
        } else {
            o[j as int].0
        };
        let ghost i2 = if take_base {
            i + 1
        } else {
            i as int
        };
        let ghost j2 = if take_overlay {
            j + 1
        } else {
            j as int
        };
        let mut found: Option<FileDiff> = None;
        if take_base && take_overlay {
            if !bytes_eq(&base.entries[i].1, &overlay.entries[j].1) {
                found = Some(
                    build_file_diff(
                        overlay.entries[j].0.as_str(),
                        &base.entries[i].1,
                        &overlay.entries[j].1,
                        DiffKind::Modified,
                    ),
                );
            }
        } else if take_overlay {
            found = Some(
                build_file_diff(
                    overlay.entries[j].0.as_str(),
                    &empty,
                    &overlay.entries[j].1,
                    DiffKind::Added,
                ),
            );
        } else {
            found = Some(
                build_file_diff(
                    base.entries[i].0.as_str(),
                    &base.entries[i].1,
                    &empty,
                    DiffKind::Deleted,
                ),
            );
        }
        proof {
            lemma_merge_step(b, o, i as int, j as int, i2, j2, p);
        }
        match found {
            Some(d) => {
                proof {
                    assert(diff_views(out@.push(d)) =~= before.push(d@));
                    lemma_lists_extend(before, b, o, i as int, j as int, i2, j2, p, Some(d@));
                    assert(diff_tells(d, b, o));
                }
                out.push(d);
            },
            None => {
                proof {
                    lemma_lists_extend(before, b, o, i as int, j as int, i2, j2, p, None);
                }
            },
        }
        if take_base {
            i += 1;
        }
        if take_overlay {
            j += 1;
        }
    }
    proof {
        let done = |p: Seq<char>| before_both(b, o, i as int, j as int, p);
        assert forall|p: Seq<char>| #[trigger] done(p) by {}
        assert forall|p: Seq<char>| #[trigger] diff_at(b, o, p) is Some implies exists|k: int|
            0 <= k < diff_views(out@).len() && (#[trigger] diff_views(out@)[k]).path == p by {
            assert(done(p));
        }
    }
    out
}

/// Whether two byte sequences are the same.
pub(crate) fn bytes_eq(a: &Vec<u8>, b: &Vec<u8>) -> (r: bool)
    ensures
        r == (a@ == b@),
{
    if a.len() != b.len() {
        return false;
    }
    let mut i: usize = 0;
    while i < a.len()
        invariant
            i <= a@.len(),
            a@.len() == b@.len(),
            forall|j: int| 0 <= j < i ==> a@[j] == b@[j],
        decreases a@.len() - i,
    {
        if a[i] != b[i] {
            return false;
        }
        i += 1;
    }
    proof {
        assert(a@ =~= b@);
    }
    true
}

/// A path between two neighbouring entries is no entry.
proof fn lemma_absent_between(m: Seq<(Seq<char>, Seq<u8>)>, n: int, p: Seq<char>)
    requires
        sorted_entries(m),
        0 <= n <= m.len(),
        n < m.len() ==> path_lt(p, m[n].0),
        forall|k: int| 0 <= k < n ==> path_lt((#[trigger] m[k]).0, p),
    ensures
        content_at(m, p) is None,
{
    assert forall|k: int| 0 <= k < m.len() implies (#[trigger] m[k]).0 != p by {
        lemma_path_irreflexive(p);
        if k > n {
            lemma_path_transitive(p, m[n].0, m[k].0);
        }
    }
}

/// Whether the first `n` entries of `m` stand before entry `at` of `other`.
spec fn entries_before(
    m: Seq<(Seq<char>, Seq<u8>)>,
    n: int,
    other: Seq<(Seq<char>, Seq<u8>)>,
    at: int,
) -> bool {
    at < other.len() ==> forall|k: int|
        0 <= k < n ==> path_lt((#[trigger] m[k]).0, other[at].0)
}

/// Taking the smaller of two heads adds exactly that path to what is done.
proof fn lemma_merge_step(
    b: Seq<(Seq<char>, Seq<u8>)>,
    o: Seq<(Seq<char>, Seq<u8>)>,
    i: int,
    j: int,
    i2: int,
    j2: int,
    p: Seq<char>,
)
    requires
        sorted_entries(b),
        sorted_entries(o),
        0 <= i <= b.len(),
        0 <= j <= o.len(),
        entries_before(b, i, o, j),
        entries_before(o, j, b, i),
        i2 == i || i2 == i + 1,
        j2 == j || j2 == j + 1,
        i2 > i || j2 > j,
        i2 > i ==> i < b.len() && b[i].0 == p,
        j2 > j ==> j < o.len() && o[j].0 == p,
        i2 == i && i < b.len() ==> path_lt(p, b[i].0),
        j2 == j && j < o.len() ==> path_lt(p, o[j].0),
    ensures
        content_at(b, p) == (if i2 > i {
            Some(b[i].1)
        } else {
            None
        }),
        content_at(o, p) == (if j2 > j {
            Some(o[j].1)
        } else {
            None
        }),
        entries_before(b, i2, o, j2),
        entries_before(o, j2, b, i2),
        before_both(b, o, i2, j2, p),
        forall|q: Seq<char>| #[trigger]
            before_both(b, o, i, j, q) ==> before_both(b, o, i2, j2, q) && path_lt(q, p),
        forall|q: Seq<char>| #[trigger]
            before_both(b, o, i2, j2, q) && q != p && !before_both(b, o, i, j, q) ==> diff_at(
                b,
                o,
                q,
            ) is None,
{
    assert forall|k: int| 0 <= k < i implies path_lt((#[trigger] b[k]).0, p) by {}
    assert forall|k: int| 0 <= k < j implies path_lt((#[trigger] o[k]).0, p) by {}
    if i2 > i {
        lemma_content_at(b, i);
    } else {
        lemma_absent_between(b, i, p);
    }
    if j2 > j {
        lemma_content_at(o, j);
    } else {
        lemma_absent_between(o, j, p);
    }
    if i2 < b.len() {
        assert(path_lt(p, b[i2].0));
        assert forall|k: int| 0 <= k < j2 implies path_lt((#[trigger] o[k]).0, b[i2].0) by {
            if k < j {
                lemma_path_transitive(o[k].0, p, b[i2].0);
            }
        }
    }
    if j2 < o.len() {
        assert(path_lt(p, o[j2].0));
        assert forall|k: int| 0 <= k < i2 implies path_lt((#[trigger] b[k]).0, o[j2].0) by {
            if k < i {
                lemma_path_transitive(b[k].0, p, o[j2].0);
            }
        }
    }
    assert forall|q: Seq<char>| #[trigger] before_both(b, o, i, j, q) implies before_both(
        b,
        o,
        i2,
        j2,
        q,
    ) && path_lt(q, p) by {
        if i2 < b.len() {
            lemma_path_transitive(q, p, b[i2].0);
        }
        if j2 < o.len() {
            lemma_path_transitive(q, p, o[j2].0);
        }
    }
    assert forall|q: Seq<char>| #[trigger]
        before_both(b, o, i2, j2, q) && q != p && !before_both(b, o, i, j, q) implies diff_at(
        b,
        o,
        q,
    ) is None by {
        lemma_path_total(q, p);
        if path_lt(q, p) {
            if i < b.len() && i2 == i {
                lemma_path_transitive(q, p, b[i].0);
            }
            if j < o.len() && j2 == j {
                lemma_path_transitive(q, p, o[j].0);
            }
        } else {
            assert forall|k: int| 0 <= k < i2 implies path_lt((#[trigger] b[k]).0, q) by {
                if k < i {
                    lemma_path_transitive(b[k].0, p, q);
                }
            }
            assert forall|k: int| 0 <= k < j2 implies path_lt((#[trigger] o[k]).0, q) by {
                if k < j {
                    lemma_path_transitive(o[k].0, p, q);
                }
            }
            lemma_absent_between(b, i2, q);
            lemma_absent_between(o, j2, q);
        }
    }
}

/// What is listed up to one step of the merge extends to the next step.
proof fn lemma_lists_extend(
    out: Seq<FileDiffView>,
    b: Seq<(Seq<char>, Seq<u8>)>,
    o: Seq<(Seq<char>, Seq<u8>)>,
    i: int,
    j: int,
    i2: int,
    j2: int,
    p: Seq<char>,
    found: Option<FileDiffView>,
)
    requires
        lists_diffs(out, b, o, |q: Seq<char>| before_both(b, o, i, j, q)),
        before_both(b, o, i2, j2, p),
        forall|q: Seq<char>| #[trigger]
            before_both(b, o, i, j, q) ==> before_both(b, o, i2, j2, q) && path_lt(q, p),
        forall|q: Seq<char>| #[trigger]
            before_both(b, o, i2, j2, q) && q != p && !before_both(b, o, i, j, q) ==> diff_at(
                b,
                o,
                q,
            ) is None,
        diff_at(b, o, p) == found,
        found is Some ==> found->0.path == p,
    ensures
        lists_diffs(
            match found {
                Some(d) => out.push(d),
                None => out,
            },
            b,
            o,
            |q: Seq<char>| before_both(b, o, i2, j2, q),
        ),
{
    let done = |q: Seq<char>| before_both(b, o, i, j, q);
    let done2 = |q: Seq<char>| before_both(b, o, i2, j2, q);
    let out2 = match found {
        Some(d) => out.push(d),
        None => out,
    };
    assert forall|k: int| 0 <= k < out.len() implies before_both(b, o, i, j, (#[trigger] out[k]).path) by {
        assert(done(out[k].path));
    }
    assert forall|x: int, y: int| 0 <= x < y < out2.len() implies path_lt(
        (#[trigger] out2[x]).path,
        (#[trigger] out2[y]).path,
    ) by {
        assert(out2[x] == out[x]);
        if y < out.len() {
            assert(out2[y] == out[y]);
        }
    }
    assert forall|k: int| 0 <= k < out2.len() implies done2((#[trigger] out2[k]).path) && diff_at(
        b,
        o,
        out2[k].path,
    ) == Some(out2[k]) by {
        if k < out.len() {
            assert(out2[k] == out[k]);
            assert(before_both(b, o, i, j, out[k].path));
        }
    }
    assert forall|q: Seq<char>| done2(q) && #[trigger] diff_at(b, o, q) is Some implies exists|k: int|
        0 <= k < out2.len() && (#[trigger] out2[k]).path == q by {
        assert(before_both(b, o, i2, j2, q));
        if q == p {
            assert(out2[out.len() as int].path == q);
        } else {
            assert(before_both(b, o, i, j, q));
            assert(done(q));
            let k = choose|k: int| 0 <= k < out.len() && (#[trigger] out[k]).path == q;
            assert(out2[k] == out[k]);
        }
    }
}

/// One line of a hunk in unified format.
pub open spec fn unified_line(l: (LineKind, Seq<char>)) -> Seq<char> {
    let mark = match l.0 {
        LineKind::Context => ' ',
        LineKind::Added => '+',
        LineKind::Removed => '-',
    };
    seq![mark] + l.1 + seq!['\n']
}

/// The lines of a hunk in unified format.
pub open spec fn unified_lines(lines: Seq<(LineKind, Seq<char>)>) -> Seq<char>
    decreases lines.len(),
{
    if lines.len() == 0 {
        Seq::empty()
    } else {
        unified_lines(lines.drop_last()) + unified_line(lines.last())
    }
}

/// The header line of a hunk in unified format.
pub open spec fn unified_hunk_header(h: HunkView) -> Seq<char> {
    "@@ -"@ + text::decimal(h.old_start as nat) + ","@ + text::decimal(h.old_count as nat) + " +"@
        + text::decimal(h.new_start as nat) + ","@ + text::decimal(h.new_count as nat) + " @@\n"@
}

/// The hunks in unified format.
pub open spec fn unified_hunks(hunks: Seq<HunkView>) -> Seq<char>
    decreases hunks.len(),
{
    if hunks.len() == 0 {
        Seq::empty()
    } else {
        unified_hunks(hunks.drop_last()) + unified_hunk_header(hunks.last()) + unified_lines(
            hunks.last().lines,
        )
    }
}

/// The name of the old side in a unified header.
pub open spec fn old_label(d: FileDiffView) -> Seq<char> {
    match d.kind {
        DiffKind::Added => "/dev/null"@,
        _ => "a/"@ + d.path,
    }
}

/// The name of the new side in a unified header.
pub open spec fn new_label(d: FileDiffView) -> Seq<char> {
    match d.kind {
        DiffKind::Deleted => "/dev/null"@,
        _ => "b/"@ + d.path,
    }
}

/// A file's difference in unified format.
pub open spec fn unified_text(d: FileDiffView) -> Seq<char> {
    "--- "@ + old_label(d) + "\n+++ "@ + new_label(d) + "\n"@ + (if d.binary {
        "Binary files differ\n"@
    } else {
        unified_hunks(d.hunks)
    })
}

/// Appends one line of a hunk in unified format.
fn push_unified_line(out: &mut String, line: &DiffLine)
    ensures
        final(out)@ == old(out)@ + unified_line(line@),
{
    let ghost before = out@;
    match line {
        DiffLine::Context(s) => {
            out.push(' ');
            out.append(s.as_str());
        },
        DiffLine::Added(s) => {
            out.push('+');
            out.append(s.as_str());
        },
        DiffLine::Removed(s) => {
            out.push('-');
            out.append(s.as_str());
        },
    }
    out.push('\n');
    proof {
        assert(out@ =~= before + unified_line(line@));
    }
}

/// Appends a hunk in unified format.
fn push_unified_hunk(out: &mut String, hunk: &DiffHunk)
    ensures
        final(out)@ == old(out)@ + unified_hunk_header(hunk@) + unified_lines(hunk@.lines),
{
    let ghost before = out@;
    let a = text::u64_to_string(hunk.old_start as u64);
    let b = text::u64_to_string(hunk.old_count as u64);
    let c = text::u64_to_string(hunk.new_start as u64);
    let d = text::u64_to_string(hunk.new_count as u64);
    out.append("@@ -");
    out.append(a.as_str());
    out.append(",");
    out.append(b.as_str());
    out.append(" +");
    out.append(c.as_str());
    out.append(",");
    out.append(d.as_str());
    out.append(" @@\n");
    let ghost head = before + unified_hunk_header(hunk@);
    let ghost all = line_views(hunk.lines@);
    proof {
        assert(out@ =~= head);
        assert(all.take(0) =~= Seq::empty());
        assert(head + unified_lines(all.take(0)) =~= head);
    }
    let mut i: usize = 0;
    while i < hunk.lines.len()
        invariant
            i <= hunk.lines@.len(),
            all == line_views(hunk.lines@),
            out@ == head + unified_lines(all.take(i as int)),
        decreases hunk.lines@.len() - i,
    {
        push_unified_line(out, &hunk.lines[i]);
        proof {
            assert(all.take(i as int + 1).drop_last() =~= all.take(i as int));
            assert(all.take(i as int + 1).last() == hunk.lines@[i as int]@);
            assert(out@ =~= head + unified_lines(all.take(i as int + 1)));
        }
        i += 1;
    }
    proof {
        assert(all.take(all.len() as int) =~= all);
    }
}

/// Renders a [`FileDiff`] as a git-style unified diff block: one file header,
/// then the hunks.
pub fn to_unified_string(diff: &FileDiff) -> (r: String)
    ensures
        r@ == unified_text(diff@),
{
    let mut out = String::new();
    out.append("--- ");
    match diff.kind {
        DiffKind::Added => {
            out.append("/dev/null");
        },
        _ => {
            out.append("a/");
            out.append(diff.path.as_str());
        },
    }
    proof {
        assert(out@ =~= "--- "@ + old_label(diff@));
    }
    out.append("\n+++ ");
    let ghost so_far = out@;
    match diff.kind {
        DiffKind::Deleted => {
            out.append("/dev/null");
        },
        _ => {
            out.append("b/");
            out.append(diff.path.as_str());
        },
    }
    proof {
        assert(out@ =~= so_far + new_label(diff@));
    }
    out.append("\n");
    if diff.binary {
        out.append("Binary files differ\n");
        return out;
    }
    let ghost head = out@;
    let ghost all = hunk_views(diff.hunks@);
    proof {
        assert(all.take(0) =~= Seq::empty());
        assert(head + unified_hunks(all.take(0)) =~= head);
    }
    let mut i: usize = 0;
    while i < diff.hunks.len()
        invariant
            i <= diff.hunks@.len(),
            all == hunk_views(diff.hunks@),
            out@ == head + unified_hunks(all.take(i as int)),
        decreases diff.hunks@.len() - i,
    {
        push_unified_hunk(&mut out, &diff.hunks[i]);
        proof {
            assert(all.take(i as int + 1).drop_last() =~= all.take(i as int));
            assert(all.take(i as int + 1).last() == diff.hunks@[i as int]@);
            assert(out@ =~= head + unified_hunks(all.take(i as int + 1)));
        }
        i += 1;
    }
    proof {
        assert(all.take(all.len() as int) =~= all);
    }
    out
}

/// A tree does not differ from itself.
pub proof fn law_no_differences_to_itself(
    out: Seq<FileDiffView>,
    tree: Seq<(Seq<char>, Seq<u8>)>,
)
    requires
        lists_diffs(out, tree, tree, |p: Seq<char>| true),
    ensures
        out.len() == 0,
{
    if out.len() > 0 {
        assert(diff_at(tree, tree, out[0].path) == Some(out[0]));
    }
}

proof fn lemma_listed_alike(
    a: Seq<FileDiffView>,
    b: Seq<FileDiffView>,
    base: Seq<(Seq<char>, Seq<u8>)>,
    overlay: Seq<(Seq<char>, Seq<u8>)>,
    k: int,
)
    requires
        lists_diffs(a, base, overlay, |p: Seq<char>| true),
        lists_diffs(b, base, overlay, |p: Seq<char>| true),
        0 <= k < a.len(),
    ensures
        k < b.len(),
        a[k] == b[k],
    decreases k,
{
    assert forall|i: int| 0 <= i < k implies i < b.len() && a[i] == b[i] by {
        lemma_listed_alike(a, b, base, overlay, i);
    }
    let p = a[k].path;
    assert(diff_at(base, overlay, p) == Some(a[k]));
    let j = choose|j: int| 0 <= j < b.len() && (#[trigger] b[j]).path == p;
    assert(diff_at(base, overlay, p) == Some(b[j]));
    lemma_path_irreflexive(p);
    if j < k {
        assert(path_lt(a[j].path, a[k].path));
    }
    if j > k {
        let q = b[k].path;
        assert(path_lt(q, p));
        lemma_path_irreflexive(q);
        assert(diff_at(base, overlay, q) == Some(b[k]));
        let m = choose|m: int| 0 <= m < a.len() && (#[trigger] a[m]).path == q;
        if m < k {
            assert(path_lt(b[m].path, b[k].path));
        } else if m > k {
            assert(path_lt(a[k].path, a[m].path));
            lemma_path_transitive(p, q, p);
        }
    }
}

proof fn lemma_listed_prefix(
    a: Seq<FileDiffView>,
    b: Seq<FileDiffView>,
    base: Seq<(Seq<char>, Seq<u8>)>,
    overlay: Seq<(Seq<char>, Seq<u8>)>,
    n: int,
)
    requires
        lists_diffs(a, base, overlay, |p: Seq<char>| true),
        lists_diffs(b, base, overlay, |p: Seq<char>| true),
        0 <= n <= a.len(),
    ensures
        n <= b.len(),
        a.take(n) == b.take(n),
    decreases n,
{
    if n > 0 {
        lemma_listed_prefix(a, b, base, overlay, n - 1);
        lemma_listed_alike(a, b, base, overlay, n - 1);
        assert(a.take(n) =~= a.take(n - 1).push(a[n - 1]));
        assert(b.take(n) =~= b.take(n - 1).push(b[n - 1]));
    } else {
        assert(a.take(0) =~= b.take(0));
    }
}

/// What is listed is decided by the trees alone: two lists of the differences
/// of the same trees are equal.
pub proof fn law_differences_are_decided(
    a: Seq<FileDiffView>,
    b: Seq<FileDiffView>,
    base: Seq<(Seq<char>, Seq<u8>)>,
    overlay: Seq<(Seq<char>, Seq<u8>)>,
)
    requires
        lists_diffs(a, base, overlay, |p: Seq<char>| true),
        lists_diffs(b, base, overlay, |p: Seq<char>| true),
    ensures
        a == b,
{
    let n = a.len() as int;
    lemma_listed_prefix(a, b, base, overlay, n);
    lemma_listed_prefix(b, a, base, overlay, b.len() as int);
    assert(a.take(n) =~= a);
    assert(b.take(n) =~= b);
}

} // verus!
