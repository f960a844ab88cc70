//! Differences between trees, their counts, and reviews of them.

use std::collections::BTreeSet;

use cuartel::diff_render::{aggregate_stats, file_stats, fixture_diffs, DiffStats};
use cuartel::overlay::{
    build_file_diff, diff_trees, path_before, text_hunks, to_unified_string, DiffHunk, DiffKind,
    DiffLine, FileDiff, Tree,
};
use cuartel::review::{
    apply_hunks, execution_report, hunks_in_range, needs_original, plan_review,
    reconstruct_added, FileReview, ReviewAction, ReviewError,
};

fn tree<const N: usize>(entries: [(&str, &[u8]); N]) -> Tree {
    let mut t = Tree::new();
    for (p, b) in entries {
        t.insert(p, b.to_vec());
    }
    t
}

#[test]
fn empty_trees_produce_no_diff() {
    assert!(diff_trees(&Tree::new(), &Tree::new()).is_empty());
}

#[test]
fn identical_trees_produce_no_diff() {
    let t = tree([("a.txt", b"hello\n"), ("b.txt", b"world\n")]);
    let u = tree([("a.txt", b"hello\n"), ("b.txt", b"world\n")]);
    assert!(diff_trees(&t, &u).is_empty());
}

#[test]
fn added_file_is_reported() {
    let base = Tree::new();
    let overlay = tree([("new.txt", b"line1\nline2\n")]);
    let diffs = diff_trees(&base, &overlay);
    assert_eq!(diffs.len(), 1);
    let d = &diffs[0];
    assert_eq!(d.path, "new.txt");
    assert_eq!(d.kind, DiffKind::Added);
    assert!(!d.binary);
    assert_eq!(d.hunks.len(), 1);
    let h = &d.hunks[0];
    assert_eq!(h.old_start, 0);
    assert_eq!(h.old_count, 0);
    assert_eq!(h.new_start, 1);
    assert_eq!(h.new_count, 2);
    assert_eq!(h.lines, vec![DiffLine::Added("line1".into()), DiffLine::Added("line2".into())]);
}

#[test]
fn deleted_file_is_reported() {
    let base = tree([("gone.txt", b"only\n")]);
    let overlay = Tree::new();
    let diffs = diff_trees(&base, &overlay);
    assert_eq!(diffs.len(), 1);
    let d = &diffs[0];
    assert_eq!(d.kind, DiffKind::Deleted);
    let h = &d.hunks[0];
    assert_eq!(h.old_start, 1);
    assert_eq!(h.old_count, 1);
    assert_eq!(h.new_start, 0);
    assert_eq!(h.new_count, 0);
    assert_eq!(h.lines, vec![DiffLine::Removed("only".into())]);
}

#[test]
fn modified_file_captures_context_and_changes() {
    let base = tree([("f.txt", b"a\nb\nc\nd\ne\n")]);
    let overlay = tree([("f.txt", b"a\nb\nC\nd\ne\n")]);
    let diffs = diff_trees(&base, &overlay);
    assert_eq!(diffs.len(), 1);
    let d = &diffs[0];
    assert_eq!(d.kind, DiffKind::Modified);
    assert_eq!(d.hunks.len(), 1);
    let h = &d.hunks[0];
    assert!(h.lines.contains(&DiffLine::Removed("c".into())));
    assert!(h.lines.contains(&DiffLine::Added("C".into())));
    assert!(h.lines.contains(&DiffLine::Context("a".into())));
    assert!(h.lines.contains(&DiffLine::Context("e".into())));
}

#[test]
fn unchanged_files_are_omitted_from_mixed_tree() {
    let base = tree([("keep.txt", b"same\n"), ("edit.txt", b"old\n")]);
    let overlay = tree([("keep.txt", b"same\n"), ("edit.txt", b"new\n")]);
    let diffs = diff_trees(&base, &overlay);
    assert_eq!(diffs.len(), 1);
    assert_eq!(diffs[0].path, "edit.txt");
}

#[test]
fn output_is_sorted_by_path() {
    let base = tree([("z.txt", b"z\n"), ("a.txt", b"a\n")]);
    let overlay = tree([("z.txt", b"Z\n"), ("a.txt", b"A\n"), ("m.txt", b"m\n")]);
    let diffs = diff_trees(&base, &overlay);
    let paths: Vec<String> = diffs.iter().map(|d| d.path.clone()).collect();
    assert_eq!(paths, vec!["a.txt".to_string(), "m.txt".to_string(), "z.txt".to_string()]);
}

#[test]
fn binary_file_is_flagged_without_hunks() {
    let base = tree([("img.bin", &[0x00, 0xff, 0xfe][..])]);
    let overlay = tree([("img.bin", &[0x00, 0xff, 0xfd][..])]);
    let diffs = diff_trees(&base, &overlay);
    assert_eq!(diffs.len(), 1);
    assert!(diffs[0].binary);
    assert!(diffs[0].hunks.is_empty());
    assert_eq!(diffs[0].kind, DiffKind::Modified);
}

#[test]
fn modified_then_deleted_file_is_deleted() {
    let base = tree([("x.txt", b"one\n")]);
    let overlay = Tree::new();
    let diffs = diff_trees(&base, &overlay);
    assert_eq!(diffs[0].kind, DiffKind::Deleted);
}

#[test]
fn unified_string_renders_added_file_against_dev_null() {
    let base = Tree::new();
    let overlay = tree([("new.txt", b"hi\n")]);
    let diffs = diff_trees(&base, &overlay);
    let s = to_unified_string(&diffs[0]);
    assert!(s.starts_with("--- /dev/null\n+++ b/new.txt\n"));
    assert!(s.contains("@@ -0,0 +1,1 @@"));
    assert!(s.contains("+hi"));
}

#[test]
fn unified_string_renders_binary_marker() {
    let base = tree([("b.bin", &[0xff][..])]);
    let overlay = tree([("b.bin", &[0xfe][..])]);
    let diffs = diff_trees(&base, &overlay);
    let s = to_unified_string(&diffs[0]);
    assert!(s.contains("Binary files differ"));
}

#[test]
fn crlf_line_endings_do_not_leak_into_output() {
    let base = tree([("f.txt", b"a\r\nb\r\n")]);
    let overlay = tree([("f.txt", b"a\r\nB\r\n")]);
    let diffs = diff_trees(&base, &overlay);
    let h = &diffs[0].hunks[0];
    for line in &h.lines {
        let s = match line {
            DiffLine::Context(s) | DiffLine::Added(s) | DiffLine::Removed(s) => s,
        };
        assert!(!s.ends_with('\r'), "line still has CR: {s:?}");
        assert!(!s.ends_with('\n'), "line still has LF: {s:?}");
    }
}

#[test]
fn unified_text_is_exact() {
    let d = build_file_diff(
        "d/f.txt",
        &b"a\nb\nc\n".to_vec(),
        &b"a\nB\nc\n".to_vec(),
        DiffKind::Modified,
    );
    assert_eq!(
        to_unified_string(&d),
        "--- a/d/f.txt\n+++ b/d/f.txt\n@@ -1,3 +1,3 @@\n a\n-b\n+B\n c\n"
    );
}

#[test]
fn paths_are_compared_part_by_part() {
    assert!(path_before("a/z", "a-b"));
    assert!(!path_before("a-b", "a/z"));
    assert!(path_before("a", "a/b"));
    assert!(!path_before("a/b", "a/b"));
    assert!(path_before("..", "-a") && path_before("x/../y", "x/-"));
    assert!(path_before("./x", "..") && path_before("..", "../a"));
    assert!(path_before("-a", "...") && path_before("-a", ".a"));
    let paths = ["a/z", "a-b", "..", ".", "-", "./-", "../-", "...", ".a", "a/../b", "a/-", "/", "/a"];
    for x in paths {
        for y in paths {
            let std = std::path::PathBuf::from(x) < std::path::PathBuf::from(y);
            assert_eq!(path_before(x, y), std, "{x} {y}");
        }
    }
}

#[test]
fn inserting_twice_keeps_the_last_content() {
    let mut t = tree([("a", b"1")]);
    t.insert("a", b"2".to_vec());
    let u = tree([("a", b"2")]);
    assert!(diff_trees(&t, &u).is_empty());
}

#[test]
fn fixture_covers_every_diff_kind() {
    let diffs = fixture_diffs();
    let kinds: Vec<&DiffKind> = diffs.iter().map(|d| &d.kind).collect();
    assert!(kinds.contains(&&DiffKind::Added));
    assert!(kinds.contains(&&DiffKind::Modified));
    assert!(kinds.contains(&&DiffKind::Deleted));
    assert!(diffs.iter().any(|d| d.binary));
}

#[test]
fn fixture_includes_non_empty_modified_hunks() {
    let diffs = fixture_diffs();
    let modified = diffs
        .iter()
        .find(|d| d.kind == DiffKind::Modified && !d.binary)
        .expect("fixture should include a non-binary modified file");
    assert!(!modified.hunks.is_empty());
    assert!(modified.hunks.iter().flat_map(|h| &h.lines).any(|l| matches!(l, DiffLine::Added(_))));
    assert!(modified
        .hunks
        .iter()
        .flat_map(|h| &h.lines)
        .any(|l| matches!(l, DiffLine::Removed(_))));
}

#[test]
fn file_stats_counts_only_changed_lines() {
    let diffs = fixture_diffs();
    let added =
        diffs.iter().find(|d| d.kind == DiffKind::Added).expect("fixture has an added file");
    let stats = file_stats(added);
    assert!(stats.adds > 0);
    assert_eq!(stats.dels, 0);

    let deleted =
        diffs.iter().find(|d| d.kind == DiffKind::Deleted).expect("fixture has a deleted file");
    let stats = file_stats(deleted);
    assert_eq!(stats.adds, 0);
    assert!(stats.dels > 0);
}

#[test]
fn file_stats_excludes_context_lines() {
    let diffs = fixture_diffs();
    let modified = diffs.iter().find(|d| d.kind == DiffKind::Modified && !d.binary).unwrap();
    let stats = file_stats(modified);
    let context_count = modified
        .hunks
        .iter()
        .flat_map(|h| &h.lines)
        .filter(|l| matches!(l, DiffLine::Context(_)))
        .count();
    assert!(context_count > 0, "fixture should include context lines");
    assert!(stats.adds + stats.dels < context_count + stats.adds + stats.dels);
}

#[test]
fn binary_file_reports_zero_stats() {
    let diffs = fixture_diffs();
    let binary = diffs.iter().find(|d| d.binary).expect("fixture has a binary file");
    let stats = file_stats(binary);
    assert_eq!(stats, DiffStats::default());
}

#[test]
fn aggregate_stats_sums_across_files() {
    let diffs = fixture_diffs();
    let total = aggregate_stats(&diffs);
    let manual = diffs.iter().fold((0usize, 0usize), |(a, d), f| {
        let s = file_stats(f);
        (a + s.adds, d + s.dels)
    });
    assert_eq!((total.adds, total.dels), manual);
}

#[test]
fn aggregate_stats_empty_input_is_zero() {
    let stats = aggregate_stats(&vec![]);
    assert_eq!(stats, DiffStats::default());
}

const FIFTEEN: &str = "1\n2\n3\n4\n5\n6\n7\n8\n9\n10\n11\n12\n13\n14\n15\n";
const FIFTEEN_NEW: &str = "1\n2\n3\nFOUR\n5\n6\n7\n8\n9\n10\n11\n12\n13\nFOURTEEN\n15\n";

fn diffs_of(old: &str, new: &str) -> Vec<FileDiff> {
    diff_trees(&tree([("f.txt", old.as_bytes())]), &tree([("f.txt", new.as_bytes())]))
}

#[test]
fn accept_all_hunks_reproduces_new_file() {
    let old = "a\nb\nc\nd\ne\n";
    let new = "a\nb\nC\nd\ne\n";
    let diffs = diffs_of(old, new);
    let diff = &diffs[0];
    let accepted: BTreeSet<usize> = (0..diff.hunks.len()).collect();
    let result = apply_hunks(old, &diff.hunks, &accepted);
    assert_eq!(result, new);
}

#[test]
fn reject_all_hunks_reproduces_original() {
    let old = "a\nb\nc\nd\ne\n";
    let new = "a\nb\nC\nd\ne\n";
    let diffs = diffs_of(old, new);
    let diff = &diffs[0];
    let accepted: BTreeSet<usize> = BTreeSet::new();
    let result = apply_hunks(old, &diff.hunks, &accepted);
    assert_eq!(result, old);
}

#[test]
fn accept_first_hunk_only() {
    let diffs = diffs_of(FIFTEEN, FIFTEEN_NEW);
    let diff = &diffs[0];
    assert!(diff.hunks.len() >= 2, "expected 2 hunks, got {}", diff.hunks.len());
    let accepted: BTreeSet<usize> = [0].into();
    let result = apply_hunks(FIFTEEN, &diff.hunks, &accepted);
    assert!(result.contains("FOUR\n"), "first hunk should be applied");
    assert!(!result.contains("FOURTEEN"), "second hunk should NOT be applied");
    assert!(result.contains("14\n"), "original line 14 should remain");
}

#[test]
fn accept_second_hunk_only() {
    let diffs = diffs_of(FIFTEEN, FIFTEEN_NEW);
    let diff = &diffs[0];
    assert!(diff.hunks.len() >= 2);
    let accepted: BTreeSet<usize> = [1].into();
    let result = apply_hunks(FIFTEEN, &diff.hunks, &accepted);
    assert!(result.contains("4\n"), "original line 4 should remain");
    assert!(result.contains("FOURTEEN"), "second hunk should be applied");
}

#[test]
fn apply_hunks_empty_original() {
    let old = "";
    let new = "hello\nworld\n";
    let diffs = diffs_of(old, new);
    let diff = &diffs[0];
    let accepted: BTreeSet<usize> = (0..diff.hunks.len()).collect();
    let result = apply_hunks(old, &diff.hunks, &accepted);
    assert_eq!(result, new);
}

#[test]
fn preserves_trailing_newline() {
    let old = "a\nb\n";
    let new = "a\nB\n";
    let diffs = diffs_of(old, new);
    let diff = &diffs[0];
    let accepted: BTreeSet<usize> = (0..diff.hunks.len()).collect();
    let result = apply_hunks(old, &diff.hunks, &accepted);
    assert!(result.ends_with('\n'));
}

#[test]
fn accept_all_populates_set() {
    let r = FileReview::accept_all(0, 5);
    assert_eq!(r.accepted_hunks.len(), 5);
    assert!(r.accepted_hunks.contains(&0));
    assert!(r.accepted_hunks.contains(&4));
}

#[test]
fn reject_all_is_empty_set() {
    let r = FileReview::reject_all(0);
    assert!(r.accepted_hunks.is_empty());
}

fn none() -> Vec<Result<String, String>> {
    vec![Err("no such file".into())]
}

#[test]
fn plan_and_execute_added_file() {
    let base = Tree::new();
    let overlay = tree([("new.txt", b"hello\nworld\n")]);
    let diffs = diff_trees(&base, &overlay);
    let decisions = vec![FileReview::accept_all(0, diffs[0].hunks.len())];
    assert!(!needs_original(&diffs, &decisions[0]));
    let plan = plan_review(&diffs, &decisions, &none()).unwrap();
    assert_eq!(plan.actions.len(), 1);
    match &plan.actions[0] {
        ReviewAction::Write { path, content } => {
            assert_eq!(path, "new.txt");
            assert_eq!(content, b"hello\nworld\n");
        }
        other => panic!("unexpected: {:?}", other),
    }
    let report = execution_report(&plan, &vec![false]);
    assert_eq!(report.files_written, 1);
    assert_eq!(reconstruct_added(&diffs[0]), b"hello\nworld\n".to_vec());
}

#[test]
fn plan_and_execute_deleted_file() {
    let base = tree([("gone.txt", b"original\n")]);
    let overlay = Tree::new();
    let diffs = diff_trees(&base, &overlay);
    let decisions = vec![FileReview::accept_all(0, diffs[0].hunks.len())];
    let plan = plan_review(&diffs, &decisions, &none()).unwrap();
    assert!(matches!(&plan.actions[0], ReviewAction::Delete { path } if path == "gone.txt"));
    let report = execution_report(&plan, &vec![true]);
    assert_eq!(report.files_deleted, 1);
}

#[test]
fn plan_and_execute_modified_with_partial_hunks() {
    let diffs = diffs_of(FIFTEEN, FIFTEEN_NEW);
    assert!(diffs[0].hunks.len() >= 2);
    let decisions = vec![FileReview { file_index: 0, accepted_hunks: [0].into() }];
    assert!(needs_original(&diffs, &decisions[0]));
    assert!(hunks_in_range(FIFTEEN, &diffs[0].hunks));
    let plan = plan_review(&diffs, &decisions, &vec![Ok(FIFTEEN.to_string())]).unwrap();
    let report = execution_report(&plan, &vec![true]);
    assert_eq!(report.files_written, 1);
    let result = match &plan.actions[0] {
        ReviewAction::Write { content, .. } => String::from_utf8(content.clone()).unwrap(),
        other => panic!("unexpected: {:?}", other),
    };
    assert!(result.contains("FOUR\n"));
    assert!(!result.contains("FOURTEEN"));
}

#[test]
fn rejected_file_is_skipped() {
    let old = "original\n";
    let diffs = diffs_of(old, "changed\n");
    let decisions = vec![FileReview::reject_all(0)];
    let plan = plan_review(&diffs, &decisions, &vec![Ok(old.to_string())]).unwrap();
    assert!(plan.actions.is_empty());
    assert_eq!(plan.skipped.len(), 1);
    let report = execution_report(&plan, &vec![]);
    assert_eq!(report.files_skipped, 1);
    assert_eq!(report.files_written, 0);
}

#[test]
fn binary_modified_is_skipped() {
    let base = tree([("img.bin", &[0xff, 0xfe][..])]);
    let overlay = tree([("img.bin", &[0xff, 0xfd][..])]);
    let diffs = diff_trees(&base, &overlay);
    assert!(diffs[0].binary);
    let decisions = vec![FileReview { file_index: 0, accepted_hunks: [0].into() }];
    let plan = plan_review(&diffs, &decisions, &none()).unwrap();
    assert!(plan.actions.is_empty());
    assert_eq!(plan.skipped.len(), 1);
}

#[test]
fn deleted_file_already_missing_is_ok() {
    let base = tree([("gone.txt", b"x\n")]);
    let overlay = Tree::new();
    let diffs = diff_trees(&base, &overlay);
    let decisions = vec![FileReview::accept_all(0, diffs[0].hunks.len())];
    let plan = plan_review(&diffs, &decisions, &none()).unwrap();
    let report = execution_report(&plan, &vec![false]);
    assert_eq!(report.files_deleted, 0);
}

#[test]
fn decisions_must_name_a_file_that_can_be_read() {
    let diffs = diffs_of("a\n", "b\n");
    let far = vec![FileReview::accept_all(3, 1)];
    assert!(matches!(
        plan_review(&diffs, &far, &none()),
        Err(ReviewError::FileIndexOutOfRange(3))
    ));
    let near = vec![FileReview::accept_all(0, 1)];
    match plan_review(&diffs, &near, &none()) {
        Err(ReviewError::ReadOriginal { path, message }) => {
            assert_eq!(path, "f.txt");
            assert_eq!(message, "no such file");
        }
        other => panic!("unexpected: {:?}", other),
    }
}

#[test]
fn hunks_beyond_the_file_are_told_apart() {
    let h = DiffHunk {
        old_start: 9,
        old_count: 1,
        new_start: 9,
        new_count: 1,
        lines: vec![DiffLine::Removed("x".into()), DiffLine::Added("y".into())],
    };
    assert!(!hunks_in_range("a\nb\n", &vec![h]));
    assert!(hunks_in_range("a\nb\n", &text_hunks("a\nb\n", "a\nc\n")));
}

#[test]
fn differences_come_out_the_same_each_time() {
    let base = tree([("a", b"1\n"), ("b/c", b"2\n"), ("d", b"3\n")]);
    let overlay = tree([("b/c", b"2\nx\n"), ("d", b"3\n"), ("e", b"4\n")]);
    let first = diff_trees(&base, &overlay);
    assert_eq!(first, diff_trees(&base, &overlay));
    let paths: Vec<&str> = first.iter().map(|d| d.path.as_str()).collect();
    assert_eq!(paths, vec!["a", "b/c", "e"]);
    assert!(diff_trees(&overlay, &overlay).is_empty());
}

fn counts_its_lines(hunk: &DiffHunk) -> bool {
    let old = hunk.lines.iter().filter(|l| !matches!(l, DiffLine::Added(_))).count();
    let new = hunk.lines.iter().filter(|l| !matches!(l, DiffLine::Removed(_))).count();
    hunk.old_count == old && hunk.new_count == new
}

fn rebuild(old: &str, new: &str) -> (String, String) {
    let hunks = text_hunks(old, new);
    assert!(hunks.iter().all(counts_its_lines), "{old:?} {new:?}");
    assert!(hunks_in_range(old, &hunks));
    let all: BTreeSet<usize> = (0..hunks.len()).collect();
    (apply_hunks(old, &hunks, &all), apply_hunks(old, &hunks, &BTreeSet::new()))
}

#[test]
fn hunks_rebuild_both_texts() {
    let text = |bits: usize, n: usize| -> String {
        (0..n).map(|i| if bits >> i & 1 == 0 { "x\n" } else { "y\n" }).collect()
    };
    for n in 0..6 {
        for bits in 0..1 << n {
            let old = text(bits, n);
            for m in 0..6 {
                for other in 0..1 << m {
                    let new = text(other, m);
                    assert_eq!(rebuild(&old, &new), (new.clone(), old.clone()));
                }
            }
        }
    }
}

#[test]
fn a_hunk_counts_the_lines_it_shows() {
    let hunks = text_hunks("x\ny\n", "y\ny\n");
    assert_eq!(hunks.len(), 1);
    assert_eq!((hunks[0].old_start, hunks[0].old_count), (1, 2));
    assert_eq!((hunks[0].new_start, hunks[0].new_count), (1, 2));
    assert_eq!(rebuild("x\ny\n", "y\ny\n"), ("y\ny\n".to_string(), "x\ny\n".to_string()));
}

#[test]
fn text_outside_hunks_is_copied_verbatim() {
    for text in ["", "a", "a\n", "a\n\n", "\n", "\n\n\n", "a\r\nb\r\n", "a\rb", "a\r", "a\r\n\nb"] {
        assert_eq!(apply_hunks(text, &[], &BTreeSet::new()), text);
    }
    let old = "1\r\n2\r\n3\r\n4\r\n5\r\n6\r\n\r\n";
    let new = "one\n2\r\n3\r\n4\r\n5\r\n6\r\n\r\n";
    assert_eq!(rebuild(old, new), (new.to_string(), old.to_string()));
    assert_eq!(rebuild("a\rb\n", "a\rc\n"), ("a\rc\n".to_string(), "a\rb\n".to_string()));
    assert_eq!(rebuild("a\nb", "a\nc"), ("a\nc".to_string(), "a\nb".to_string()));
    assert_eq!(rebuild("a\n\n", "b\n\n"), ("b\n\n".to_string(), "a\n\n".to_string()));
    // An added line ends in `\n`: hunks do not say how lines end.
    assert_eq!(rebuild("a\r\n", "b\r\n"), ("b\n".to_string(), "a\r\n".to_string()));
    assert_eq!(rebuild("a\n", "b"), ("b\n".to_string(), "a\n".to_string()));
}

#[test]
fn paths_of_the_same_components_are_one() {
    let mut base = Tree::new();
    base.insert("a//b", b"1\n".to_vec());
    base.insert("./c/.", b"2\n".to_vec());
    base.insert("/x/./y/", b"3\n".to_vec());
    let mut over = Tree::new();
    over.insert("a/b", b"1\n".to_vec());
    over.insert("./c", b"2\n".to_vec());
    over.insert("//x/y", b"3\n".to_vec());
    assert!(diff_trees(&base, &over).is_empty());
    over.insert("a/./b", b"4\n".to_vec());
    let diffs = diff_trees(&base, &over);
    assert_eq!(diffs.len(), 1);
    assert_eq!(diffs[0].path, "a/b");
}

#[test]
fn the_sample_has_every_kind_of_difference() {
    let diffs = fixture_diffs();
    let shapes: Vec<(&str, DiffKind, bool, bool)> = diffs
        .iter()
        .map(|d| (d.path.as_str(), d.kind, d.binary, d.hunks.is_empty()))
        .collect();
    assert_eq!(
        shapes,
        vec![
            ("assets/icon.png", DiffKind::Modified, true, true),
            ("docs/legacy.md", DiffKind::Deleted, false, false),
            ("src/diff_view.rs", DiffKind::Added, false, false),
            ("src/lib.rs", DiffKind::Modified, false, false),
        ]
    );
}

#[test]
fn an_added_text_is_a_line_of_its_own() {
    let hunk = DiffHunk {
        old_start: 1,
        old_count: 1,
        new_start: 1,
        new_count: 2,
        lines: vec![DiffLine::Added("x\n".into()), DiffLine::Context("a".into())],
    };
    assert_eq!(apply_hunks("a\nb\n", &[hunk], &BTreeSet::from([0])), "x\n\na\nb\n");
}
