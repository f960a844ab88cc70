//! What the differences of files hold, and how they are written.

use vstd::prelude::*;
use vstd::utf8::{decode_utf8, valid_utf8};
use crate::diff_render;
use crate::overlay;
use crate::overlay::{DiffKind, FileDiffView, HunkView, LineKind, LineOp, OpTag};
use crate::review;
use crate::review_laws;
use crate::text;

verus! {

/// Whether the hunks number the lines of both texts from one: a hunk that shows
/// lines of a text names the first of them, and one that shows none names zero.
pub open spec fn numbered(hunks: Seq<HunkView>) -> bool {
    forall|i: int|
        0 <= i < hunks.len() ==> {
            let h = #[trigger] hunks[i];
            &&& h.old_start == (if h.old_count == 0 {
                0
            } else {
                review::hunk_start(h) + 1
            })
            &&& h.new_start == (if h.new_count == 0 {
                0
            } else {
                review_laws::new_start_of(hunks, i) + 1
            })
        }
}

/// The hunks of a script number the lines of both texts from one.
pub proof fn law_hunks_are_numbered(
    groups: Seq<Seq<LineOp>>,
    old: Seq<Seq<char>>,
    new: Seq<Seq<char>>,
)
    requires
        overlay::is_script(groups, old, new),
    ensures
        numbered(overlay::groups_hunks(groups, overlay::shown(old), overlay::shown(new))),
{
    let hunks = overlay::groups_hunks(groups, overlay::shown(old), overlay::shown(new));
    assert forall|i: int| 0 <= i < hunks.len() implies #[trigger] review_laws::placed(
        hunks,
        groups,
        old,
        new,
        i,
    ) by {
        review_laws::lemma_placed(groups, old, new, i);
    }
    assert forall|i: int| 0 <= i < hunks.len() implies review_laws::new_start_of(hunks, i)
        == overlay::group_start(groups[i]).1 && review::hunk_start(#[trigger] hunks[i])
        == overlay::group_start(groups[i]).0 by {
        review_laws::lemma_script_positions(hunks, groups, old, new, i);
        assert(review_laws::placed(hunks, groups, old, new, i));
        let (a, b) = (overlay::groups_end(groups, i), overlay::group_start(groups[i]));
        assert(old.subrange(a.0, b.0).len() == new.subrange(a.1, b.1).len());
    }
}

/// What an operation shows: equal lines as context, lines that go as removed,
/// lines that come as added; of a replacement first what goes, then what comes.
pub proof fn law_lines_of_an_operation(
    op: LineOp,
    old: Seq<Seq<char>>,
    new: Seq<Seq<char>>,
    i: int,
)
    requires
        op.old_lo <= op.old_hi <= old.len(),
        op.new_lo <= op.new_hi <= new.len(),
        0 <= i < overlay::op_lines(op, old, new).len(),
    ensures
        ({
            let line = overlay::op_lines(op, old, new)[i];
            let (gone, come) = (op.old_hi - op.old_lo, op.new_hi - op.new_lo);
            match op.tag {
                OpTag::Equal => line == (LineKind::Context, old[op.old_lo + i]),
                OpTag::Delete => line == (LineKind::Removed, old[op.old_lo + i]),
                OpTag::Insert => line == (LineKind::Added, new[op.new_lo + i]),
                OpTag::Replace => if i < gone {
                    line == (LineKind::Removed, old[op.old_lo + i])
                } else {
                    line == (LineKind::Added, new[op.new_lo + (i - gone)])
                },
            }
        }),
        op.tag == OpTag::Replace ==> overlay::op_lines(op, old, new).len() == (op.old_hi
            - op.old_lo) + (op.new_hi - op.new_lo),
{
}

/// The lines of a group are those of its operations, one behind the other.
pub proof fn law_lines_of_a_group(
    a: Seq<LineOp>,
    b: Seq<LineOp>,
    op: LineOp,
    old: Seq<Seq<char>>,
    new: Seq<Seq<char>>,
)
    ensures
        overlay::group_lines(seq![op], old, new) == overlay::op_lines(op, old, new),
        overlay::group_lines(a + b, old, new) == overlay::group_lines(a, old, new)
            + overlay::group_lines(b, old, new),
    decreases b.len(),
{
    reveal_with_fuel(overlay::group_lines, 2);
    assert(seq![op].drop_last() =~= Seq::empty());
    assert(overlay::group_lines(seq![op], old, new) =~= overlay::op_lines(op, old, new));
    if b.len() == 0 {
        assert(a + b =~= a);
        assert(overlay::group_lines(a, old, new) + overlay::group_lines(b, old, new)
            =~= overlay::group_lines(a, old, new));
    } else {
        law_lines_of_a_group(a, b.drop_last(), op, old, new);
        assert((a + b).drop_last() =~= a + b.drop_last());
        assert((a + b).last() == b.last());
        assert(overlay::group_lines(a + b, old, new) =~= overlay::group_lines(a, old, new)
            + overlay::group_lines(b, old, new));
    }
}

/// What a difference of two trees tells of a file: that it was added, deleted or
/// modified, by whether each tree has it; nothing where it is the same in both.
pub proof fn law_kind_of_a_difference(
    base: Seq<(Seq<char>, Seq<u8>)>,
    over: Seq<(Seq<char>, Seq<u8>)>,
    p: Seq<char>,
)
    ensures
        ({
            let (old, new) = (overlay::content_at(base, p), overlay::content_at(over, p));
            let d = overlay::diff_at(base, over, p);
            &&& d is None <==> old == new
            &&& d is Some ==> (d->0).path == p
            &&& old is None && new is Some ==> (d->0).kind == DiffKind::Added
            &&& old is Some && new is None ==> (d->0).kind == DiffKind::Deleted
            &&& old is Some && new is Some && old != new ==> (d->0).kind == DiffKind::Modified
            &&& d is Some ==> ((d->0).binary <==> (old is Some && !valid_utf8(old->0)) || (
            new is Some && !valid_utf8(new->0)))
            &&& d is Some && (d->0).binary ==> (d->0).hunks.len() == 0
        }),
{
    lemma_empty_is_text();
}

proof fn lemma_empty_is_text()
    ensures
        valid_utf8(Seq::empty()),
{
    let none = Seq::<u8>::empty();
    assert(valid_utf8(none)) by {
        reveal(valid_utf8);
    }
}

/// The content at a path is what the tree holds there, whatever else it holds.
pub proof fn law_content_at_a_path(m: Seq<(Seq<char>, Seq<u8>)>, p: Seq<char>, i: int)
    requires
        overlay::sorted_entries(m),
    ensures
        0 <= i < m.len() && m[i].0 == p ==> overlay::content_at(m, p) == Some(m[i].1),
        (forall|j: int| 0 <= j < m.len() ==> (#[trigger] m[j]).0 != p) ==> overlay::content_at(
            m,
            p,
        ) is None,
{
    if 0 <= i < m.len() && m[i].0 == p {
        overlay::lemma_content_at(m, i);
    }
}

/// A line of a difference is written with a mark before it: a blank for context,
/// `+` for what comes, `-` for what goes.
pub proof fn law_written_line(t: Seq<char>)
    ensures
        overlay::unified_line((LineKind::Context, t)) == seq![' '] + t + seq!['\n'],
        overlay::unified_line((LineKind::Added, t)) == seq!['+'] + t + seq!['\n'],
        overlay::unified_line((LineKind::Removed, t)) == seq!['-'] + t + seq!['\n'],
{
}

/// Lines are written one behind the other, and so are hunks, each behind a header
/// with the places and the numbers of its lines.
pub proof fn law_written_hunks(
    lines: Seq<(LineKind, Seq<char>)>,
    line: (LineKind, Seq<char>),
    hunks: Seq<HunkView>,
    h: HunkView,
)
    ensures
        overlay::unified_lines(lines.push(line)) == overlay::unified_lines(lines)
            + overlay::unified_line(line),
        overlay::unified_lines(Seq::empty()) == Seq::<char>::empty(),
        overlay::unified_hunks(hunks.push(h)) == overlay::unified_hunks(hunks) + (("@@ -"@
            + text::decimal(h.old_start as nat) + ","@ + text::decimal(h.old_count as nat) + " +"@
            + text::decimal(h.new_start as nat) + ","@ + text::decimal(h.new_count as nat)
            + " @@\n"@) + overlay::unified_lines(h.lines)),
        overlay::unified_hunks(Seq::empty()) == Seq::<char>::empty(),
{
    assert(lines.push(line).drop_last() =~= lines);
    assert(hunks.push(h).drop_last() =~= hunks);
    let head = overlay::unified_hunk_header(h);
    assert(overlay::unified_hunks(hunks) + head + overlay::unified_lines(h.lines)
        =~= overlay::unified_hunks(hunks) + (head + overlay::unified_lines(h.lines)));
}

/// A difference is written with the names of both sides first: the path on both,
/// but nothing for the side on which the file is not; then its hunks, or that
/// the files are binary.
pub proof fn law_written_difference(d: FileDiffView)
    ensures
        overlay::unified_text(d) == "--- "@ + (if d.kind == DiffKind::Added {
            "/dev/null"@
        } else {
            "a/"@ + d.path
        }) + "\n+++ "@ + (if d.kind == DiffKind::Deleted {
            "/dev/null"@
        } else {
            "b/"@ + d.path
        }) + "\n"@ + (if d.binary {
            "Binary files differ\n"@
        } else {
            overlay::unified_hunks(d.hunks)
        }),
{
}

/// How many lines are of a kind is what a count of them gives, over lines, hunks
/// and files.
pub proof fn law_counted_lines(
    lines: Seq<(LineKind, Seq<char>)>,
    kind: LineKind,
)
    ensures
        diff_render::count_lines(lines, kind) == lines.filter(
            |l: (LineKind, Seq<char>)| l.0 == kind,
        ).len(),
    decreases lines.len(),
{
    reveal(Seq::filter);
    if lines.len() > 0 {
        law_counted_lines(lines.drop_last(), kind);
    }
}

/// The count of several hunks or files is the sum of theirs.
pub proof fn law_counts_add_up(
    a: Seq<HunkView>,
    h: HunkView,
    files: Seq<FileDiffView>,
    d: FileDiffView,
    kind: LineKind,
)
    ensures
        diff_render::count_hunks(Seq::empty(), kind) == 0,
        diff_render::count_hunks(a.push(h), kind) == diff_render::count_hunks(a, kind)
            + diff_render::count_lines(h.lines, kind),
        diff_render::count_files(Seq::empty(), kind) == 0,
        diff_render::count_files(files.push(d), kind) == diff_render::count_files(files, kind)
            + diff_render::count_hunks(d.hunks, kind),
{
    assert(a.push(h).drop_last() =~= a);
    assert(files.push(d).drop_last() =~= files);
}

/// Whether a text is a name: a component of a path that is neither `.` nor `..`.
pub open spec fn is_name(s: Seq<char>) -> bool {
    &&& s.len() > 0
    &&& !s.contains('/')
    &&& exists|i: int| 0 <= i < s.len() && #[trigger] s[i] != '.'
}

/// A directory stands before what is in it, and what is in a directory before
/// what stands behind the directory: the first components that differ decide, by
/// their characters. Here the paths differ in their first component.
pub proof fn law_first_component_decides(
    a: Seq<char>,
    b: Seq<char>,
    x: Seq<char>,
    y: Seq<char>,
)
    requires
        is_name(a),
        is_name(b),
        a != b,
    ensures
        overlay::path_lt(a, b) == text::lex_lt(a, b),
        overlay::path_lt(a + seq!['/'] + x, b + seq!['/'] + y) == text::lex_lt(a, b),
        overlay::path_lt(a, a + seq!['/'] + x),
{
    let (p, q) = (a + seq!['/'] + x, b + seq!['/'] + y);
    lemma_ranks_of_name(a, a);
    lemma_ranks_of_name(b, b);
    lemma_ranks_of_name(a, p);
    lemma_ranks_of_name(b, q);
    let n = lemma_first_difference(a, b);
    assert forall|i: int| 0 <= i < n implies #[trigger] overlay::path_rank(p, i)
        == overlay::path_rank(q, i) by {
        assert(a[i] == b[i]);
        assert(overlay::path_rank(p, i) == a[i] as int + 2);
        assert(overlay::path_rank(q, i) == b[i] as int + 2);
    }
    assert forall|i: int| 0 <= i < n implies #[trigger] overlay::path_rank(a, i)
        == overlay::path_rank(b, i) by {
        assert(a[i] == b[i]);
        assert(overlay::path_rank(a, i) == a[i] as int + 2);
        assert(overlay::path_rank(b, i) == b[i] as int + 2);
    }
    lemma_place_rank(a, p, n);
    lemma_place_rank(b, q, n);
    lemma_place_rank(a, a, n);
    lemma_place_rank(b, b, n);
    if n < a.len() && n < b.len() {
        lemma_char_number(a[n], b[n]);
    }
    overlay::lemma_path_decided(a, b, n);
    overlay::lemma_path_decided(p, q, n);
    let m = a.len() as int;
    assert forall|i: int| 0 <= i < m implies #[trigger] overlay::path_rank(a, i)
        == overlay::path_rank(p, i) by {
        assert(overlay::path_rank(p, i) == a[i] as int + 2);
        assert(overlay::path_rank(a, i) == a[i] as int + 2);
    }
    overlay::lemma_path_decided(a, p, m);
}

proof fn lemma_char_number(a: char, b: char)
    ensures
        0 <= a as int,
        0 <= b as int,
        (a as int == b as int) == (a == b),
        ((a as int) < (b as int)) == (a < b),
{
}

/// The rank at place `n` of a path that begins with a name.
proof fn lemma_place_rank(name: Seq<char>, path: Seq<char>, n: int)
    requires
        is_name(name),
        0 <= n <= name.len(),
        path == name || (path.len() > name.len() && path[name.len() as int] == '/'),
        forall|i: int|
            0 <= i < name.len() ==> #[trigger] overlay::path_rank(path, i) == name[i] as int + 2,
    ensures
        n < name.len() ==> overlay::path_rank(path, n) == name[n] as int + 2 && name[n] as int + 2
            >= 2,
        n == name.len() && path.len() > name.len() ==> overlay::path_rank(path, n) == 0,
{
    if n < name.len() {
        lemma_char_number(name[n], name[n]);
    }
}

proof fn lemma_ranks_of_name(name: Seq<char>, path: Seq<char>)
    requires
        is_name(name),
        path == name || (path.len() > name.len() && path[name.len() as int] == '/' && path.take(
            name.len() as int,
        ) == name) || exists|x: Seq<char>| path == #[trigger] (name + seq!['/'] + x),
    ensures
        forall|i: int|
            0 <= i < name.len() ==> #[trigger] overlay::path_rank(path, i) == name[i] as int + 2,
{
    let n = name.len() as int;
    assert forall|i: int| 0 <= i < n implies path[i] == name[i] by {
        if path != name && path.len() > n && path.take(n) == name {
            assert(path.take(n)[i] == path[i]);
        }
    }
    assert forall|i: int| 0 <= i < n implies #[trigger] overlay::path_rank(path, i) == name[i]
        as int + 2 by {
        assert(path[i] == name[i]);
        assert(name[i] != '/') by {
            if name[i] == '/' {
                assert(name.contains('/'));
            }
        }
        assert(!overlay::in_dots(path, i)) by {
            if overlay::in_dots(path, i) {
                let k = choose|k: int| 0 <= k < name.len() && #[trigger] name[k] != '.';
                assert(forall|j: int| 0 <= j < n ==> path[j] != '/') by {
                    assert forall|j: int| 0 <= j < n implies path[j] != '/' by {
                        if path[j] == '/' {
                            assert(name[j] == '/');
                            assert(name.contains('/'));
                        }
                    }
                }
                assert(path[k] == name[k]);
                if overlay::is_start(path, i) {
                    assert(i == 0);
                    if overlay::is_end(path, 1) {
                        assert(n == 1);
                    } else {
                        assert(n == 2);
                    }
                } else {
                    assert(i == 1 && path[0] == '.');
                    assert(n == 2);
                }
            }
        }
    }
}

/// The first place at which two texts differ; where there is none, the shorter
/// one ends there.
proof fn lemma_first_difference(a: Seq<char>, b: Seq<char>) -> (n: int)
    requires
        a != b,
    ensures
        0 <= n <= a.len(),
        n <= b.len(),
        forall|i: int| 0 <= i < n ==> a[i] == b[i],
        n < a.len() && n < b.len() ==> a[n] != b[n],
        !(n == a.len() && n == b.len()),
        text::lex_lt(a, b) == (n < b.len() && (n == a.len() || a[n] < b[n])),
    decreases a.len(),
{
    if a.len() == 0 || b.len() == 0 {
        if a.len() == 0 && b.len() == 0 {
            assert(a =~= b);
        }
        0
    } else if a[0] != b[0] {
        0
    } else {
        let (s, t) = (a.skip(1), b.skip(1));
        if s == t {
            assert(a =~= seq![a[0]] + s);
            assert(b =~= seq![b[0]] + t);
        }
        let n = lemma_first_difference(s, t);
        assert forall|i: int| 0 <= i < n + 1 implies a[i] == b[i] by {
            if i > 0 {
                assert(a[i] == s[i - 1] && b[i] == t[i - 1]);
            }
        }
        if n + 1 < a.len() {
            assert(a[n + 1] == s[n]);
        }
        if n + 1 < b.len() {
            assert(b[n + 1] == t[n]);
        }
        n + 1
    }
}

} // verus!
