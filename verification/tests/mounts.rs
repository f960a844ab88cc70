//! Workspaces, what of them goes into a machine, and checkpoints.

use std::collections::BTreeSet;

use cuartel::agent::AgentType;
use cuartel::checkpoint::{
    check_delete, plan_create, require, Checkpoint, CreateCheckpoint,
};
use cuartel::config::{AppConfig, OnboardingConfig, ThemeMode};
use cuartel::db::checkpoints::CheckpointRow;
use cuartel::db::workspaces::WorkspaceRow;
use cuartel::fork::{prepare_fork, ForkRequest};
use cuartel::json::{Json, JsonNumber};
use cuartel::rivet::filesystem::BatchWriteResult;
use cuartel::session::{Session, SessionState};
use cuartel::workspace::{
    create, remap, rename, resolve_project_dir, upsert_for_path, HostPath, Upsert, Workspace,
};
use cuartel::workspace_mount::{
    check_written, collect_mount_plan, mount_report, uploaded_bytes, vm_path_for_rel, write_batches, HostEntry,
    HostKind, HostRoot, MountOptions, SkipEntry, SkipReason, DEFAULT_BATCH_SIZE,
    DEFAULT_MAX_FILE_SIZE,
};

fn host(exists: bool, is_dir: bool, canonical: Result<String, String>) -> HostPath {
    HostPath { exists, is_dir, canonical }
}

fn file(path: &str, size: u64) -> HostEntry {
    let name = path.rsplit('/').next().unwrap().to_string();
    HostEntry { name: Some(name), path: path.into(), kind: HostKind::File { size } }
}

fn dir(path: &str, entries: Vec<HostEntry>) -> HostEntry {
    let name = path.rsplit('/').next().unwrap().to_string();
    HostEntry { name: Some(name), path: path.into(), kind: HostKind::Directory { entries } }
}

fn fixture_project() -> HostRoot {
    HostRoot::Directory {
        entries: vec![
            dir(
                "/p/src",
                vec![
                    file("/p/src/main.rs", 12),
                    file("/p/src/lib.rs", 6),
                    dir("/p/src/util", vec![file("/p/src/util/helper.rs", 9)]),
                ],
            ),
            file("/p/README.md", 9),
            dir("/p/.git", vec![file("/p/.git/HEAD", 20)]),
            dir(
                "/p/node_modules",
                vec![dir("/p/node_modules/foo", vec![file("/p/node_modules/foo/index.js", 19)])],
            ),
            dir("/p/target", vec![dir("/p/target/debug", vec![file("/p/target/debug/artifact", 6)])]),
        ],
    }
}

#[test]
fn mount_options_default_exclude_has_common_ignores() {
    let opts = MountOptions::default();
    assert!(opts.exclude.iter().any(|s| s == ".git"));
    assert!(opts.exclude.iter().any(|s| s == "node_modules"));
    assert!(opts.exclude.iter().any(|s| s == "target"));
    assert_eq!(opts.mount_point, "/workspace");
    assert_eq!(opts.max_file_size, DEFAULT_MAX_FILE_SIZE);
    assert_eq!(opts.batch_size, DEFAULT_BATCH_SIZE);
}

#[test]
fn normalized_mount_point_requires_absolute() {
    let opts = MountOptions::default().with_mount_point("workspace".into());
    assert!(opts.normalized_mount_point().is_err());
}

#[test]
fn normalized_mount_point_rejects_root() {
    let opts = MountOptions::default().with_mount_point("/".into());
    assert!(opts.normalized_mount_point().is_err());
}

#[test]
fn normalized_mount_point_trims_trailing_slash() {
    let opts = MountOptions::default().with_mount_point("/workspace/".into());
    assert_eq!(opts.normalized_mount_point().unwrap(), "/workspace");
}

#[test]
fn with_batch_size_clamps_to_at_least_one() {
    let opts = MountOptions::default().with_batch_size(0);
    assert_eq!(opts.batch_size, 1);
}

#[test]
fn vm_path_joins_with_forward_slash() {
    let p = vm_path_for_rel("/workspace", "src/main.rs").unwrap();
    assert_eq!(p, "/workspace/src/main.rs");
}

#[test]
fn vm_path_empty_rel_returns_mount_point() {
    let p = vm_path_for_rel("/workspace", "").unwrap();
    assert_eq!(p, "/workspace");
}

#[test]
fn vm_path_rejects_parent_component() {
    assert!(vm_path_for_rel("/workspace", "../escape").is_none());
}

#[test]
fn collect_mount_plan_files_and_directories_sorted() {
    let opts = MountOptions::default();
    let plan = collect_mount_plan(&fixture_project(), "/p", &opts).unwrap();
    let file_paths: Vec<&str> = plan.files.iter().map(|f| f.vm_path.as_str()).collect();
    assert_eq!(
        file_paths,
        vec![
            "/workspace/README.md",
            "/workspace/src/lib.rs",
            "/workspace/src/main.rs",
            "/workspace/src/util/helper.rs",
        ]
    );
    assert_eq!(
        plan.directories,
        vec!["/workspace/src".to_string(), "/workspace/src/util".to_string()]
    );
}

#[test]
fn collect_mount_plan_skips_default_excludes() {
    let opts = MountOptions::default();
    let plan = collect_mount_plan(&fixture_project(), "/p", &opts).unwrap();
    let excluded: Vec<&SkipEntry> =
        plan.skipped.iter().filter(|s| matches!(s.reason, SkipReason::Excluded)).collect();
    let names: BTreeSet<&str> =
        excluded.iter().filter_map(|s| s.host_path.rsplit('/').next()).collect();
    assert!(names.contains(".git"));
    assert!(names.contains("node_modules"));
    assert!(names.contains("target"));
    for f in &plan.files {
        assert!(!f.vm_path.contains("node_modules"), "{:?}", f.vm_path);
        assert!(!f.vm_path.contains(".git"), "{:?}", f.vm_path);
        assert!(!f.vm_path.contains("/target/"), "{:?}", f.vm_path);
    }
}

#[test]
fn collect_mount_plan_skips_files_larger_than_max_size() {
    let root =
        HostRoot::Directory { entries: vec![file("/p/tiny.txt", 2), file("/p/huge.bin", 1024)] };
    let opts = MountOptions::default().with_max_file_size(100);
    let plan = collect_mount_plan(&root, "/p", &opts).unwrap();
    let file_names: Vec<&str> =
        plan.files.iter().filter_map(|f| f.host_path.rsplit('/').next()).collect();
    assert_eq!(file_names, vec!["tiny.txt"]);
    let skipped_huge = plan.skipped.iter().find(|s| s.host_path.ends_with("/huge.bin"));
    assert!(matches!(
        skipped_huge.map(|s| &s.reason),
        Some(SkipReason::TooLarge { size: 1024 })
    ));
}

#[test]
fn collect_mount_plan_errors_on_missing_root() {
    let opts = MountOptions::default();
    assert!(collect_mount_plan(&HostRoot::Missing, "/nowhere", &opts).is_err());
}

#[test]
fn collect_mount_plan_errors_on_file_root() {
    let opts = MountOptions::default();
    assert!(collect_mount_plan(&HostRoot::NotDirectory, "/p/single.txt", &opts).is_err());
}

#[test]
fn collect_mount_plan_errors_on_invalid_mount_point() {
    let root = HostRoot::Directory { entries: vec![] };
    let opts = MountOptions::default().with_mount_point("relative".into());
    assert!(collect_mount_plan(&root, "/p", &opts).is_err());
}

#[test]
fn custom_exclude_replaces_defaults() {
    let opts = MountOptions::default().with_exclude(vec!["README.md".to_string()]);
    let plan = collect_mount_plan(&fixture_project(), "/p", &opts).unwrap();
    assert!(plan.files.iter().any(|f| f.vm_path == "/workspace/.git/HEAD"));
    assert!(!plan.files.iter().any(|f| f.vm_path.ends_with("README.md")));
}

#[test]
fn mount_plan_total_size_sums_files() {
    let plan = collect_mount_plan(&fixture_project(), "/p", &MountOptions::default()).unwrap();
    let expected: u64 = plan.files.iter().map(|f| f.size).sum();
    assert_eq!(plan.total_size(), expected);
    assert!(expected > 0);
    assert_eq!(expected, 36);
}

#[test]
fn mount_point_customization_changes_vm_paths() {
    let opts = MountOptions::default().with_mount_point("/projects/demo".into());
    let plan = collect_mount_plan(&fixture_project(), "/p", &opts).unwrap();
    assert!(plan.files.iter().all(|f| f.vm_path.starts_with("/projects/demo/")));
    assert!(plan.directories.iter().all(|d| d.starts_with("/projects/demo/")));
}

#[test]
fn collect_mount_plan_skips_symlinks() {
    let link = HostEntry {
        name: Some("link.txt".into()),
        path: "/p/link.txt".into(),
        kind: HostKind::Other,
    };
    let root = HostRoot::Directory { entries: vec![file("/p/real.txt", 4), link] };
    let plan = collect_mount_plan(&root, "/p", &MountOptions::default()).unwrap();
    let file_names: Vec<&str> =
        plan.files.iter().filter_map(|f| f.host_path.rsplit('/').next()).collect();
    assert_eq!(file_names, vec!["real.txt"]);
    assert!(plan.skipped.iter().any(|s| {
        matches!(s.reason, SkipReason::NotRegularFile) && s.host_path.ends_with("/link.txt")
    }));
}

#[test]
fn names_that_are_no_text_are_skipped() {
    let odd = HostEntry {
        name: None,
        path: "/p/\u{fffd}".into(),
        kind: HostKind::File { size: 1 },
    };
    let root = HostRoot::Directory { entries: vec![odd] };
    let plan = collect_mount_plan(&root, "/p", &MountOptions::default()).unwrap();
    assert!(plan.files.is_empty());
    assert!(matches!(plan.skipped[0].reason, SkipReason::NonUtf8Path));
}

#[test]
fn writes_go_out_in_batches() {
    let plan = collect_mount_plan(&fixture_project(), "/p", &MountOptions::default()).unwrap();
    let contents: Vec<Vec<u8>> = plan.files.iter().map(|f| vec![7u8; f.size as usize]).collect();
    let bytes: u64 = plan.files.iter().map(|f| f.size).sum();
    assert_eq!(uploaded_bytes(&contents), Some(bytes));
    let batches = write_batches(&plan.files, contents, 3);
    assert_eq!(batches.len(), 2);
    assert_eq!(batches[0].len(), 3);
    assert_eq!(batches[1].len(), 1);
    assert_eq!(batches[1][0].path, "/workspace/src/util/helper.rs");
    let report = mount_report("/workspace".into(), plan, 36);
    assert_eq!(report.files_uploaded, 4);
    assert_eq!(report.directories_created, 3);
    assert_eq!(report.bytes_uploaded, 36);
}

#[test]
fn a_failed_write_is_told() {
    let ok = BatchWriteResult { path: "/a".into(), success: true, error: None };
    let bad = BatchWriteResult { path: "/b".into(), success: false, error: Some("EROFS".into()) };
    let mute = BatchWriteResult { path: "/c".into(), success: false, error: None };
    assert_eq!(check_written(&vec![ok]), Ok(()));
    assert_eq!(check_written(&vec![bad]), Err("writeFile failed for /b: EROFS".into()));
    assert_eq!(check_written(&vec![mute]), Err("writeFile failed for /c: unknown error".into()));
}

#[test]
fn resolve_rejects_missing_path() {
    assert!(resolve_project_dir("/nowhere", host(false, false, Err("gone".into()))).is_err());
}

#[test]
fn resolve_rejects_file() {
    assert!(resolve_project_dir("/p/f.txt", host(true, false, Ok("/p/f.txt".into()))).is_err());
    assert_eq!(resolve_project_dir("/q/../p", host(true, true, Ok("/p".into()))), Ok("/p".into()));
    assert_eq!(resolve_project_dir("/p", host(true, true, Ok("/p".into()))), Ok("/p".into()));
    assert_eq!(
        resolve_project_dir("/p", host(true, true, Err("denied".into()))),
        Err("denied".into())
    );
}

#[test]
fn create_derives_name_from_basename() {
    let ws = create("id".into(), None, "/tmp/cuartel-ws-test-basename", false, "t".into()).unwrap();
    assert_eq!(ws.name, "cuartel-ws-test-basename");
    assert_eq!(ws.path, "/tmp/cuartel-ws-test-basename");
}

#[test]
fn create_rejects_duplicate_path() {
    create("1".into(), Some("a"), "/tmp/dup", false, "t".into()).unwrap();
    assert!(create("2".into(), Some("b"), "/tmp/dup", true, "t".into()).is_err());
}

fn row_of(id: &str, name: &str, path: &str) -> WorkspaceRow {
    WorkspaceRow {
        id: id.into(),
        name: name.into(),
        path: path.into(),
        created_at: "t0".into(),
        updated_at: "t0".into(),
    }
}

#[test]
fn upsert_returns_existing_for_same_path() {
    let first = match upsert_for_path("1".into(), Some("a"), "/tmp/u", None, "t".into()) {
        Upsert::Insert(row) => row,
        other => panic!("unexpected: {:?}", other),
    };
    let first_id = first.id.clone();
    let second = match upsert_for_path("2".into(), Some("b"), "/tmp/u", Some(first), "t".into()) {
        Upsert::Existing(w) => w,
        other => panic!("unexpected: {:?}", other),
    };
    assert_eq!(first_id, second.id);
    assert_eq!(second.name, "a");
}

#[test]
fn rename_updates_name_only() {
    let ws = row_of("1", "old", "/tmp/r");
    let renamed = rename("1", Some(ws), "new", "t1".into()).unwrap();
    assert_eq!(renamed.name, "new");
    assert_eq!(renamed.path, "/tmp/r");
    assert_eq!(rename("9", None, "new", "t1".into()), Err("workspace 9 not found".into()));
}

#[test]
fn remap_updates_path() {
    let ws = row_of("1", "w", "/tmp/a");
    let moved = remap("1", Some(ws), "/tmp/b", "t1".into()).unwrap();
    assert_eq!(moved.path, "/tmp/b");
    assert_eq!(Workspace::from_row(moved).name, "w");
}

fn base_params(session_id: &str) -> CreateCheckpoint {
    CreateCheckpoint {
        session_id: session_id.into(),
        rivet_checkpoint_id: None,
        parent_checkpoint_id: None,
        label: None,
        metadata: None,
    }
}

fn stored(id: &str, params: CreateCheckpoint) -> Checkpoint {
    let parent_exists = true;
    let x = plan_create(params, parent_exists).unwrap();
    Checkpoint::from_row(CheckpointRow {
        id: id.into(),
        session_id: x.session_id,
        rivet_checkpoint_id: x.rivet_checkpoint_id,
        parent_checkpoint_id: x.parent_checkpoint_id,
        label: x.label,
        metadata: x.metadata,
        created_at: "t".into(),
        updated_at: "t".into(),
    })
}

fn tokens(n: u64) -> Json {
    Json::Object(vec![("tokens".into(), Json::Number(JsonNumber::Unsigned(n)))])
}

#[test]
fn create_and_get() {
    let cp = stored(
        "c1",
        CreateCheckpoint {
            label: Some("turn 1".into()),
            metadata: Some(tokens(100)),
            ..base_params("sess1")
        },
    );
    assert_eq!(cp.session_id, "sess1");
    assert_eq!(cp.label.as_deref(), Some("turn 1"));
    assert_eq!(cp.metadata, tokens(100));
    let got = require("c1", Some(cp)).unwrap();
    assert_eq!(got.id, "c1");
}

#[test]
fn require_missing_errors() {
    assert!(require("nonexistent", None).is_err());
}

#[test]
fn create_with_parent() {
    let child = stored(
        "c2",
        CreateCheckpoint {
            parent_checkpoint_id: Some("c1".into()),
            label: Some("fork".into()),
            ..base_params("sess1")
        },
    );
    assert_eq!(child.parent_checkpoint_id.as_deref(), Some("c1"));
}

#[test]
fn create_with_invalid_parent_errors() {
    let result = plan_create(
        CreateCheckpoint {
            parent_checkpoint_id: Some("nonexistent".into()),
            ..base_params("sess1")
        },
        false,
    );
    assert!(result.is_err());
}

#[test]
fn delete_blocked_by_children() {
    let err = check_delete("root", 1).unwrap_err();
    assert!(err.contains("dependent fork"));
    assert!(check_delete("root", 0).is_ok());
}

#[test]
fn metadata_defaults_to_empty_object() {
    let cp = stored("c1", base_params("sess1"));
    assert_eq!(cp.metadata, Json::Object(vec![]));
}

#[test]
fn nested_metadata_reads_back() {
    let m = Json::Object(vec![
        ("a".into(), Json::Array(vec![Json::Null, Json::Number(JsonNumber::Negative(-5))])),
        ("b\n\"".into(), Json::Str("é\u{1}".into())),
    ]);
    let cp = stored("c", CreateCheckpoint { metadata: Some(m.clone()), ..base_params("s") });
    assert_eq!(cp.metadata, m);
}

fn fork_request(checkpoint_id: &str, session_id: &str) -> ForkRequest {
    ForkRequest {
        checkpoint_id: checkpoint_id.into(),
        session_id: session_id.into(),
        new_session_id: "sess-fork".into(),
    }
}

#[test]
fn prepare_fork_success() {
    let cp = stored(
        "cp-1",
        CreateCheckpoint {
            rivet_checkpoint_id: Some("rivet_abc".into()),
            label: Some("turn 3".into()),
            ..base_params("sess1")
        },
    );
    let params = prepare_fork(Some(&cp), &fork_request("cp-1", "sess1")).unwrap();
    let fork = stored("cp-2", params);
    assert_eq!(fork.session_id, "sess-fork");
    assert_eq!(fork.parent_checkpoint_id.as_deref(), Some("cp-1"));
    assert!(fork.label.as_deref().unwrap().contains("fork from turn 3"));
    assert_eq!(fork.metadata.get_str("forked_from_session"), Some("sess1"));
}

#[test]
fn prepare_fork_wrong_session() {
    let cp = stored(
        "cp-1",
        CreateCheckpoint { rivet_checkpoint_id: Some("rivet_abc".into()), ..base_params("sess1") },
    );
    let err = prepare_fork(Some(&cp), &fork_request("cp-1", "sess2")).unwrap_err();
    assert!(err.contains("belongs to session sess1"));
}

#[test]
fn prepare_fork_unlinked_checkpoint() {
    let cp = stored("cp-1", base_params("sess1"));
    let err = prepare_fork(Some(&cp), &fork_request("cp-1", "sess1")).unwrap_err();
    assert!(err.contains("unlinked checkpoint"));
}

#[test]
fn prepare_fork_missing_checkpoint() {
    let err = prepare_fork(None, &fork_request("nonexistent", "sess1")).unwrap_err();
    assert!(err.contains("not found"));
}

#[test]
fn forks_without_a_label_go_by_a_short_id() {
    let cp = stored(
        "0123456789",
        CreateCheckpoint { rivet_checkpoint_id: Some("r".into()), ..base_params("sess1") },
    );
    let params = prepare_fork(Some(&cp), &fork_request("0123456789", "sess1")).unwrap();
    assert_eq!(params.label.as_deref(), Some("fork from 01234567"));
}

#[test]
fn settings_have_defaults() {
    let cfg = AppConfig::initial(Some("/data"));
    assert_eq!(cfg.rivet_port, 6420);
    assert_eq!(cfg.data_dir, "/data/cuartel");
    assert_eq!(cfg.theme.mode, ThemeMode::Dark);
    let first = OnboardingConfig::default();
    assert_eq!(first, OnboardingConfig { default_harness: None, completed: false });
    assert_ne!(
        first,
        OnboardingConfig { default_harness: Some(AgentType::Pi), completed: true }
    );
    assert_eq!(OnboardingConfig::path("/data"), "/data/onboarding.json");
    assert_eq!(OnboardingConfig::path("/data/"), "/data/onboarding.json");
    assert_eq!(OnboardingConfig::path(""), "onboarding.json");
}

#[test]
fn sessions_follow_their_transitions() {
    let mut s = Session::new("s".into(), "w".into(), "local".into(), "pi".into());
    assert_eq!(s.state, SessionState::Created);
    s.transition(SessionState::Booting).unwrap();
    s.transition(SessionState::Ready).unwrap();
    assert!(s.transition(SessionState::Created).is_err());
    assert_eq!(s.state, SessionState::Ready);
    s.transition(SessionState::Running).unwrap();
    s.transition(SessionState::Error("boom".into())).unwrap();
    assert_eq!(s.state, SessionState::Error("boom".into()));
    assert!(SessionState::Error("x".into()).describe().contains("x"));
}

#[test]
fn every_copied_file_has_its_directory() {
    let plan = collect_mount_plan(&fixture_project(), "/p", &MountOptions::default()).unwrap();
    let paths = plan.files.iter().map(|f| &f.vm_path).chain(plan.directories.iter());
    for path in paths {
        let (parent, name) = path.rsplit_once('/').unwrap();
        assert!(!name.is_empty());
        assert!(parent == "/workspace" || plan.directories.iter().any(|d| d == parent));
    }
    assert_eq!(plan.files.len(), 4);
}

#[test]
fn registering_again_finds_the_first_workspace() {
    let first = match upsert_for_path("w1".into(), None, "/p/app", None, "t1".into()) {
        Upsert::Insert(row) => row,
        Upsert::Existing(_) => panic!("nothing was there"),
    };
    assert_eq!(first.name, "app");
    match upsert_for_path("w2".into(), Some("other"), "/p/app", Some(first), "t2".into()) {
        Upsert::Existing(w) => {
            assert_eq!((w.id.as_str(), w.name.as_str()), ("w1", "app"));
            assert_eq!((w.path.as_str(), w.created_at.as_str()), ("/p/app", "t1"));
        }
        Upsert::Insert(_) => panic!("it was there"),
    }
}
