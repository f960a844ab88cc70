//! Figures for the review of differences.

use vstd::prelude::*;
use vstd::string::*;
use vstd::utf8::{decode_utf8, encode_utf8, valid_utf8};
use crate::overlay;
use crate::overlay::{
    diff_trees, DiffHunk, DiffKind, DiffLine, FileDiff, FileDiffView, HunkView, LineKind, Tree,
};
use crate::review_laws;

verus! {

/// How many lines were added and removed.
#[derive(Clone, Copy, PartialEq, Eq, Structural, Debug)]
pub struct DiffStats {
    pub adds: usize,
    pub dels: usize,
}

impl Default for DiffStats {
    fn default() -> (r: Self)
        ensures
            r.adds == 0,
            r.dels == 0,
    {
        DiffStats { adds: 0, dels: 0 }
    }
}

/// How many lines are of a kind.
pub open spec fn count_lines(lines: Seq<(LineKind, Seq<char>)>, kind: LineKind) -> nat
    decreases lines.len(),
{
    if lines.len() == 0 {
        0
    } else {
        count_lines(lines.drop_last(), kind) + if lines.last().0 == kind {
            1nat
        } else {
            0nat
        }
    }
}

/// How many lines of hunks are of a kind.
pub open spec fn count_hunks(hunks: Seq<HunkView>, kind: LineKind) -> nat
    decreases hunks.len(),
{
    if hunks.len() == 0 {
        0
    } else {
        count_hunks(hunks.drop_last(), kind) + count_lines(hunks.last().lines, kind)
    }
}

/// How many lines of files are of a kind.
pub open spec fn count_files(files: Seq<FileDiffView>, kind: LineKind) -> nat
    decreases files.len(),
{
    if files.len() == 0 {
        0
    } else {
        count_files(files.drop_last(), kind) + count_hunks(files.last().hunks, kind)
    }
}

proof fn lemma_lines_prefix(lines: Seq<(LineKind, Seq<char>)>, kind: LineKind, n: int)
    requires
        0 <= n <= lines.len(),
    ensures
        count_lines(lines.take(n), kind) <= count_lines(lines, kind),
    decreases lines.len() - n,
{
    if n < lines.len() {
        lemma_lines_prefix(lines, kind, n + 1);
        assert(lines.take(n + 1).drop_last() =~= lines.take(n));
    } else {
        assert(lines.take(n) =~= lines);
    }
}

proof fn lemma_hunks_prefix(hunks: Seq<HunkView>, kind: LineKind, n: int)
    requires
        0 <= n <= hunks.len(),
    ensures
        count_hunks(hunks.take(n), kind) <= count_hunks(hunks, kind),
    decreases hunks.len() - n,
{
    if n < hunks.len() {
        lemma_hunks_prefix(hunks, kind, n + 1);
        assert(hunks.take(n + 1).drop_last() =~= hunks.take(n));
    } else {
        assert(hunks.take(n) =~= hunks);
    }
}

proof fn lemma_files_prefix(files: Seq<FileDiffView>, kind: LineKind, n: int)
    requires
        0 <= n <= files.len(),
    ensures
        count_files(files.take(n), kind) <= count_files(files, kind),
    decreases files.len() - n,
{
    if n < files.len() {
        lemma_files_prefix(files, kind, n + 1);
        assert(files.take(n + 1).drop_last() =~= files.take(n));
    } else {
        assert(files.take(n) =~= files);
    }
}

fn hunk_stats(hunk: &DiffHunk, before: DiffStats) -> (r: DiffStats)
    requires
        before.adds + count_lines(hunk@.lines, LineKind::Added) <= usize::MAX,
        before.dels + count_lines(hunk@.lines, LineKind::Removed) <= usize::MAX,
    ensures
        r.adds == before.adds + count_lines(hunk@.lines, LineKind::Added),
        r.dels == before.dels + count_lines(hunk@.lines, LineKind::Removed),
{
    let ghost all = hunk@.lines;
    let mut s = before;
    let mut i: usize = 0;
    proof {
        assert(all.take(0) =~= Seq::empty());
    }
    while i < hunk.lines.len()
        invariant
            i <= hunk.lines@.len(),
            all == overlay::line_views(hunk.lines@),
            before.adds + count_lines(all, LineKind::Added) <= usize::MAX,
            before.dels + count_lines(all, LineKind::Removed) <= usize::MAX,
            s.adds == before.adds + count_lines(all.take(i as int), LineKind::Added),
            s.dels == before.dels + count_lines(all.take(i as int), LineKind::Removed),
        decreases hunk.lines@.len() - i,
    {
        proof {
            assert(all.take(i as int + 1).drop_last() =~= all.take(i as int));
            assert(all.take(i as int + 1).last() == hunk.lines@[i as int]@);
            lemma_lines_prefix(all, LineKind::Added, i as int + 1);
            lemma_lines_prefix(all, LineKind::Removed, i as int + 1);
        }
        match &hunk.lines[i] {
            DiffLine::Added(_) => {
                s.adds = s.adds + 1;
            },
            DiffLine::Removed(_) => {
                s.dels = s.dels + 1;
            },
            DiffLine::Context(_) => {},
        }
        i += 1;
    }
    proof {
        assert(all.take(all.len() as int) =~= all);
    }
    s
}

/// How many lines of a file were added and removed.
pub fn file_stats(file: &FileDiff) -> (r: DiffStats)
    requires
        count_hunks(file@.hunks, LineKind::Added) <= usize::MAX,
        count_hunks(file@.hunks, LineKind::Removed) <= usize::MAX,
    ensures
        r.adds == count_hunks(file@.hunks, LineKind::Added),
        r.dels == count_hunks(file@.hunks, LineKind::Removed),
{
    let ghost all = file@.hunks;
    let mut s = DiffStats::default();
    let mut i: usize = 0;
    proof {
        assert(all.take(0) =~= Seq::empty());
    }
    while i < file.hunks.len()
        invariant
            i <= file.hunks@.len(),
            all == overlay::hunk_views(file.hunks@),
            count_hunks(all, LineKind::Added) <= usize::MAX,
            count_hunks(all, LineKind::Removed) <= usize::MAX,
            s.adds == count_hunks(all.take(i as int), LineKind::Added),
            s.dels == count_hunks(all.take(i as int), LineKind::Removed),
        decreases file.hunks@.len() - i,
    {
        proof {
            assert(all.take(i as int + 1).drop_last() =~= all.take(i as int));
            assert(all.take(i as int + 1).last() == file.hunks@[i as int]@);
            lemma_hunks_prefix(all, LineKind::Added, i as int + 1);
            lemma_hunks_prefix(all, LineKind::Removed, i as int + 1);
        }
        s = hunk_stats(&file.hunks[i], s);
        i += 1;
    }
    proof {
        assert(all.take(all.len() as int) =~= all);
    }
    s
}

/// How many lines of all files were added and removed.
pub fn aggregate_stats(diffs: &[FileDiff]) -> (r: DiffStats)
    requires
        count_files(overlay::diff_views(diffs@), LineKind::Added) <= usize::MAX,
        count_files(overlay::diff_views(diffs@), LineKind::Removed) <= usize::MAX,
    ensures
        r.adds == count_files(overlay::diff_views(diffs@), LineKind::Added),
        r.dels == count_files(overlay::diff_views(diffs@), LineKind::Removed),
{
    let ghost all = overlay::diff_views(diffs@);
    let mut s = DiffStats::default();
    let mut i: usize = 0;
    proof {
        assert(all.take(0) =~= Seq::empty());
    }
    while i < diffs.len()
        invariant
            i <= diffs@.len(),
            all == overlay::diff_views(diffs@),
            count_files(all, LineKind::Added) <= usize::MAX,
            count_files(all, LineKind::Removed) <= usize::MAX,
            s.adds == count_files(all.take(i as int), LineKind::Added),
            s.dels == count_files(all.take(i as int), LineKind::Removed),
        decreases diffs@.len() - i,
    {
        proof {
            assert(all.take(i as int + 1).drop_last() =~= all.take(i as int));
            assert(all.take(i as int + 1).last() == diffs@[i as int]@);
            lemma_files_prefix(all, LineKind::Added, i as int + 1);
            lemma_files_prefix(all, LineKind::Removed, i as int + 1);
        }
        let one = file_stats(&diffs[i]);
        s = DiffStats { adds: s.adds + one.adds, dels: s.dels + one.dels };
        i += 1;
    }
    proof {
        assert(all.take(all.len() as int) =~= all);
    }
    s
}

/// The sample's changed file, before.
pub const LIB_OLD: &'static str =
    "//! Cuartel core library.\nuse std::collections::HashMap;\n\npub fn greet(name: &str) -> String {\n    format!(\"hello, {}\", name)\n}\n\npub fn count(items: &[u32]) -> usize {\n    items.len()\n}\n\npub fn total(items: &[u32]) -> u32 {\n    items.iter().sum()\n}\n";

/// The sample's changed file, after.
pub const LIB_NEW: &'static str =
    "//! Cuartel core library.\nuse std::collections::BTreeMap;\n\npub fn greet(name: &str) -> String {\n    format!(\"hello, {name}\")\n}\n\npub fn count(items: &[u32]) -> usize {\n    items.len()\n}\n\npub fn total(items: &[u32]) -> u64 {\n    items.iter().map(|n| *n as u64).sum()\n}\n";

/// The sample's new file.
pub const VIEW_NEW: &'static str =
    "//! Diff review panel.\npub struct DiffView;\n\nimpl DiffView {\n    pub fn new() -> Self { Self }\n}\n";

/// The sample's deleted file.
pub const LEGACY_OLD: &'static str =
    "# Legacy notes\n\nThis file predates the rewrite and should be removed.\n";

/// The bytes of the sample's image, but for the last.
pub open spec fn icon(last: u8) -> Seq<u8> {
    seq![0x89u8, 0x50, 0x4e, 0x47, 0x0d, 0x0a, 0x1a, 0x0a, 0x00, last]
}

/// The files of the sample before the change.
pub open spec fn sample_base(p: Seq<char>) -> Option<Seq<u8>> {
    if p == "src/lib.rs"@ {
        Some(encode_utf8(LIB_OLD@))
    } else if p == "docs/legacy.md"@ {
        Some(encode_utf8(LEGACY_OLD@))
    } else if p == "assets/icon.png"@ {
        Some(icon(1))
    } else {
        None
    }
}

/// The files of the sample after the change.
pub open spec fn sample_overlay(p: Seq<char>) -> Option<Seq<u8>> {
    if p == "src/lib.rs"@ {
        Some(encode_utf8(LIB_NEW@))
    } else if p == "src/diff_view.rs"@ {
        Some(encode_utf8(VIEW_NEW@))
    } else if p == "assets/icon.png"@ {
        Some(icon(2))
    } else {
        None
    }
}

/// Whether `out` lists the differences of two trees that hold the sample.
pub open spec fn lists_sample(
    out: Seq<FileDiffView>,
    base: Seq<(Seq<char>, Seq<u8>)>,
    over: Seq<(Seq<char>, Seq<u8>)>,
) -> bool {
    &&& overlay::lists_diffs(out, base, over, |p: Seq<char>| true)
    &&& forall|p: Seq<char>| #[trigger] overlay::content_at(base, p) == sample_base(p)
    &&& forall|p: Seq<char>| #[trigger] overlay::content_at(over, p) == sample_overlay(p)
}

/// Whether a difference is of this path and kind; a binary one has no hunks, any
/// other has some.
pub open spec fn is_sample(
    d: FileDiffView,
    path: Seq<char>,
    kind: DiffKind,
    binary: bool,
) -> bool {
    &&& d.path == path
    &&& d.kind == kind
    &&& d.binary == binary
    &&& binary == (d.hunks.len() == 0)
}

/// Whether `out` is the sample's four differences, in order of their paths.
pub open spec fn is_sample_list(out: Seq<FileDiffView>) -> bool {
    &&& out.len() == 4
    &&& is_sample(out[0], "assets/icon.png"@, DiffKind::Modified, true)
    &&& is_sample(out[1], "docs/legacy.md"@, DiffKind::Deleted, false)
    &&& is_sample(out[2], "src/diff_view.rs"@, DiffKind::Added, false)
    &&& is_sample(out[3], "src/lib.rs"@, DiffKind::Modified, false)
}

proof fn lemma_sample_texts()
    ensures
        LIB_OLD@ != LIB_NEW@,
        VIEW_NEW@.len() > 0,
        LEGACY_OLD@.len() > 0,
{
    reveal_strlit(
        "//! Cuartel core library.\nuse std::collections::HashMap;\n\npub fn greet(name: &str) -> String {\n    format!(\"hello, {}\", name)\n}\n\npub fn count(items: &[u32]) -> usize {\n    items.len()\n}\n\npub fn total(items: &[u32]) -> u32 {\n    items.iter().sum()\n}\n",
    );
    reveal_strlit(
        "//! Cuartel core library.\nuse std::collections::BTreeMap;\n\npub fn greet(name: &str) -> String {\n    format!(\"hello, {name}\")\n}\n\npub fn count(items: &[u32]) -> usize {\n    items.len()\n}\n\npub fn total(items: &[u32]) -> u64 {\n    items.iter().map(|n| *n as u64).sum()\n}\n",
    );
    reveal_strlit(
        "//! Diff review panel.\npub struct DiffView;\n\nimpl DiffView {\n    pub fn new() -> Self { Self }\n}\n",
    );
    reveal_strlit(
        "# Legacy notes\n\nThis file predates the rewrite and should be removed.\n",
    );
    assert(LIB_OLD@[48] == 'H');
    assert(LIB_NEW@[48] == 'B');
}

proof fn lemma_sample_paths()
    ensures
        overlay::path_lt("assets/icon.png"@, "docs/legacy.md"@),
        overlay::path_lt("docs/legacy.md"@, "src/diff_view.rs"@),
        overlay::path_lt("src/diff_view.rs"@, "src/lib.rs"@),
{
    reveal_strlit("src/lib.rs");
    reveal_strlit("src/diff_view.rs");
    reveal_strlit("docs/legacy.md");
    reveal_strlit("assets/icon.png");
    overlay::lemma_path_decided("assets/icon.png"@, "docs/legacy.md"@, 0);
    overlay::lemma_path_decided("docs/legacy.md"@, "src/diff_view.rs"@, 0);
    overlay::lemma_path_decided("src/diff_view.rs"@, "src/lib.rs"@, 4);
}

/// Four paths in order that a list in order holds, and no other, are the list.
proof fn lemma_four_in_order(
    out: Seq<FileDiffView>,
    a: Seq<char>,
    b: Seq<char>,
    c: Seq<char>,
    d: Seq<char>,
)
    requires
        overlay::path_lt(a, b),
        overlay::path_lt(b, c),
        overlay::path_lt(c, d),
        forall|i: int, j: int|
            0 <= i < j < out.len() ==> overlay::path_lt(
                (#[trigger] out[i]).path,
                (#[trigger] out[j]).path,
            ),
        forall|i: int|
            0 <= i < out.len() ==> (#[trigger] out[i]).path == a || out[i].path == b || out[i].path == c
                || out[i].path == d,
        exists|i: int| 0 <= i < out.len() && (#[trigger] out[i]).path == a,
        exists|i: int| 0 <= i < out.len() && (#[trigger] out[i]).path == b,
        exists|i: int| 0 <= i < out.len() && (#[trigger] out[i]).path == c,
        exists|i: int| 0 <= i < out.len() && (#[trigger] out[i]).path == d,
    ensures
        out.len() == 4,
        out[0].path == a,
        out[1].path == b,
        out[2].path == c,
        out[3].path == d,
{
    let i = choose|i: int| 0 <= i < out.len() && (#[trigger] out[i]).path == a;
    let j = choose|i: int| 0 <= i < out.len() && (#[trigger] out[i]).path == b;
    let k = choose|i: int| 0 <= i < out.len() && (#[trigger] out[i]).path == c;
    let l = choose|i: int| 0 <= i < out.len() && (#[trigger] out[i]).path == d;
    lemma_in_order(out, i, j);
    lemma_in_order(out, j, k);
    lemma_in_order(out, k, l);
    lemma_is_one_of(out, 0, i, j, k, l);
    lemma_is_one_of(out, 1, i, j, k, l);
    lemma_is_one_of(out, 2, i, j, k, l);
    lemma_is_one_of(out, 3, i, j, k, l);
    if out.len() > 4 {
        lemma_is_one_of(out, 4, i, j, k, l);
    }
}

proof fn lemma_is_one_of(out: Seq<FileDiffView>, x: int, i: int, j: int, k: int, l: int)
    requires
        0 <= x < out.len(),
        0 <= i < j < k < l < out.len(),
        forall|i: int, j: int|
            0 <= i < j < out.len() ==> overlay::path_lt(
                (#[trigger] out[i]).path,
                (#[trigger] out[j]).path,
            ),
        out[x].path == out[i].path || out[x].path == out[j].path || out[x].path == out[k].path
            || out[x].path == out[l].path,
    ensures
        x == i || x == j || x == k || x == l,
{
    overlay::lemma_path_irreflexive(out[x].path);
}

proof fn lemma_in_order(out: Seq<FileDiffView>, i: int, j: int)
    requires
        0 <= i < out.len(),
        0 <= j < out.len(),
        overlay::path_lt(out[i].path, out[j].path),
        forall|i: int, j: int|
            0 <= i < j < out.len() ==> overlay::path_lt(
                (#[trigger] out[i]).path,
                (#[trigger] out[j]).path,
            ),
    ensures
        i < j,
{
    overlay::lemma_path_irreflexive(out[i].path);
    if j < i {
        overlay::lemma_path_transitive(out[i].path, out[j].path, out[i].path);
    }
}

proof fn lemma_is_binary(last: u8)
    ensures
        !valid_utf8(icon(last)),
{
    assert(icon(last)[0] == 0x89);
}

proof fn lemma_encoded(t: Seq<char>)
    ensures
        valid_utf8(encode_utf8(t)),
        decode_utf8(encode_utf8(t)) == t,
{
    vstd::utf8::encode_utf8_valid_utf8(t);
    vstd::utf8::encode_utf8_decode_utf8(t);
}

/// The difference at each path of the sample; there is none elsewhere.
proof fn lemma_sample_at(
    base: Seq<(Seq<char>, Seq<u8>)>,
    over: Seq<(Seq<char>, Seq<u8>)>,
    p: Seq<char>,
)
    requires
        overlay::content_at(base, p) == sample_base(p),
        overlay::content_at(over, p) == sample_overlay(p),
    ensures
        overlay::diff_at(base, over, p) == (if p == "assets/icon.png"@ {
            Some(overlay::file_diff(p, icon(1), icon(2), DiffKind::Modified))
        } else if p == "docs/legacy.md"@ {
            Some(
                overlay::file_diff(
                    p,
                    encode_utf8(LEGACY_OLD@),
                    Seq::empty(),
                    DiffKind::Deleted,
                ),
            )
        } else if p == "src/diff_view.rs"@ {
            Some(overlay::file_diff(p, Seq::empty(), encode_utf8(VIEW_NEW@), DiffKind::Added))
        } else if p == "src/lib.rs"@ {
            Some(
                overlay::file_diff(
                    p,
                    encode_utf8(LIB_OLD@),
                    encode_utf8(LIB_NEW@),
                    DiffKind::Modified,
                ),
            )
        } else {
            None
        }),
{
    reveal_strlit("src/lib.rs");
    reveal_strlit("src/diff_view.rs");
    reveal_strlit("docs/legacy.md");
    reveal_strlit("assets/icon.png");
    assert("src/lib.rs"@.len() == 10);
    assert("src/diff_view.rs"@.len() == 16);
    assert("docs/legacy.md"@.len() == 14);
    assert("assets/icon.png"@.len() == 15);
    lemma_sample_texts();
    lemma_encoded(LIB_OLD@);
    lemma_encoded(LIB_NEW@);
    assert(icon(1)[9] != icon(2)[9]);
}

/// What lists the sample's differences is the four of them.
proof fn lemma_sample_list(
    out: Seq<FileDiffView>,
    base: Seq<(Seq<char>, Seq<u8>)>,
    over: Seq<(Seq<char>, Seq<u8>)>,
)
    requires
        lists_sample(out, base, over),
        forall|i: int|
            0 <= i < out.len() ==> review_laws::file_tells(
                #[trigger] out[i],
                overlay::content_or_empty(base, out[i].path),
                overlay::content_or_empty(over, out[i].path),
            ),
    ensures
        is_sample_list(out),
{
    let icon_path = "assets/icon.png"@;
    let legacy = "docs/legacy.md"@;
    let view = "src/diff_view.rs"@;
    let lib = "src/lib.rs"@;
    lemma_sample_paths();
    lemma_sample_at(base, over, icon_path);
    lemma_sample_at(base, over, legacy);
    lemma_sample_at(base, over, view);
    lemma_sample_at(base, over, lib);
    overlay::lemma_path_irreflexive(icon_path);
    overlay::lemma_path_irreflexive(legacy);
    overlay::lemma_path_irreflexive(view);
    overlay::lemma_path_transitive(icon_path, legacy, view);
    overlay::lemma_path_transitive(icon_path, view, lib);
    overlay::lemma_path_transitive(legacy, view, lib);
    assert forall|i: int| 0 <= i < out.len() implies (#[trigger] out[i]).path == icon_path
        || out[i].path == legacy || out[i].path == view || out[i].path == lib by {
        lemma_sample_at(base, over, out[i].path);
    }
    assert(overlay::diff_at(base, over, icon_path) is Some);
    assert(overlay::diff_at(base, over, legacy) is Some);
    assert(overlay::diff_at(base, over, view) is Some);
    assert(overlay::diff_at(base, over, lib) is Some);
    lemma_four_in_order(out, icon_path, legacy, view, lib);
    lemma_sample_hunks(out[0], out[1], out[2], out[3]);
}

proof fn lemma_sample_hunks(
    a: FileDiffView,
    b: FileDiffView,
    c: FileDiffView,
    d: FileDiffView,
)
    requires
        a == overlay::file_diff("assets/icon.png"@, icon(1), icon(2), DiffKind::Modified),
        b == overlay::file_diff(
            "docs/legacy.md"@,
            encode_utf8(LEGACY_OLD@),
            Seq::empty(),
            DiffKind::Deleted,
        ),
        c == overlay::file_diff(
            "src/diff_view.rs"@,
            Seq::empty(),
            encode_utf8(VIEW_NEW@),
            DiffKind::Added,
        ),
        d == overlay::file_diff(
            "src/lib.rs"@,
            encode_utf8(LIB_OLD@),
            encode_utf8(LIB_NEW@),
            DiffKind::Modified,
        ),
        review_laws::file_tells(b, encode_utf8(LEGACY_OLD@), Seq::empty()),
        review_laws::file_tells(c, Seq::empty(), encode_utf8(VIEW_NEW@)),
        review_laws::file_tells(d, encode_utf8(LIB_OLD@), encode_utf8(LIB_NEW@)),
    ensures
        is_sample(a, "assets/icon.png"@, DiffKind::Modified, true),
        is_sample(b, "docs/legacy.md"@, DiffKind::Deleted, false),
        is_sample(c, "src/diff_view.rs"@, DiffKind::Added, false),
        is_sample(d, "src/lib.rs"@, DiffKind::Modified, false),
{
    let none = Seq::<u8>::empty();
    lemma_sample_texts();
    lemma_is_binary(1);
    lemma_encoded(LEGACY_OLD@);
    lemma_encoded(VIEW_NEW@);
    lemma_encoded(LIB_OLD@);
    lemma_encoded(LIB_NEW@);
    assert(valid_utf8(none) && decode_utf8(none).len() == 0);
    review_laws::law_different_texts_have_hunks(b, encode_utf8(LEGACY_OLD@), none);
    review_laws::law_different_texts_have_hunks(c, none, encode_utf8(VIEW_NEW@));
    review_laws::law_different_texts_have_hunks(d, encode_utf8(LIB_OLD@), encode_utf8(LIB_NEW@));
}

fn icon_bytes(last: u8) -> (r: Vec<u8>)
    ensures
        r@ == icon(last),
{
    let mut v: Vec<u8> = Vec::new();
    v.push(0x89);
    v.push(0x50);
    v.push(0x4e);
    v.push(0x47);
    v.push(0x0d);
    v.push(0x0a);
    v.push(0x1a);
    v.push(0x0a);
    v.push(0x00);
    v.push(last);
    proof {
        assert(v@ =~= icon(last));
    }
    v
}

/// Differences to look at: a changed file with several hunks, a new one, a
/// deleted one, and one that is no text.
pub fn fixture_diffs() -> (r: Vec<FileDiff>)
    ensures
        exists|base: Seq<(Seq<char>, Seq<u8>)>, over: Seq<(Seq<char>, Seq<u8>)>|
            #[trigger] lists_sample(overlay::diff_views(r@), base, over),
        is_sample_list(overlay::diff_views(r@)),
{
    proof {
        reveal_strlit("src/lib.rs");
        reveal_strlit("src/diff_view.rs");
        reveal_strlit("docs/legacy.md");
        reveal_strlit("assets/icon.png");
        assert("src/lib.rs"@.len() == 10);
        assert("src/diff_view.rs"@.len() == 16);
        assert("docs/legacy.md"@.len() == 14);
        assert("assets/icon.png"@.len() == 15);
        overlay::lemma_plain_path("src/lib.rs"@);
        overlay::lemma_plain_path("src/diff_view.rs"@);
        overlay::lemma_plain_path("docs/legacy.md"@);
        overlay::lemma_plain_path("assets/icon.png"@);
    }
    let mut base = Tree::new();
    base.insert("src/lib.rs", LIB_OLD.as_bytes_vec());
    base.insert("docs/legacy.md", LEGACY_OLD.as_bytes_vec());
    base.insert("assets/icon.png", icon_bytes(1));
    let mut over = Tree::new();
    over.insert("src/lib.rs", LIB_NEW.as_bytes_vec());
    over.insert("src/diff_view.rs", VIEW_NEW.as_bytes_vec());
    over.insert("assets/icon.png", icon_bytes(2));
    let out = diff_trees(&base, &over);
    proof {
        let dv = overlay::diff_views(out@);
        assert(lists_sample(dv, base.model(), over.model()));
        assert forall|i: int| 0 <= i < dv.len() implies review_laws::file_tells(
            #[trigger] dv[i],
            overlay::content_or_empty(base.model(), dv[i].path),
            overlay::content_or_empty(over.model(), dv[i].path),
        ) by {
            assert(overlay::diff_tells(out@[i], base.model(), over.model()));
        }
        lemma_sample_list(dv, base.model(), over.model());
    }
    out
}

} // verus!
