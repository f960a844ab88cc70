//! Pipelines, the files that stages hand on, and workflows.

use cuartel::agent::AgentType;
use cuartel::file_passing::{
    plan_transfers, vm_input_dir, vm_input_file, vm_output_dir, Artifact, ArtifactId,
    ArtifactKind, FilePassingError, StageManifest, HANDOFF_DIR, INPUT_SUBDIR, OUTPUT_SUBDIR,
};
use cuartel::json::{string, Json, JsonNumber};
use cuartel::pipeline::{
    interpolate_prompt, Pipeline, PipelineError, PipelineRunState, PipelineStage, StageId,
    StageState,
};
use cuartel::pipeline_run::{PipelineRun, StageRun};
use cuartel::time::Timestamp;
use cuartel::workflow::{
    StepAction, StepId, StepState, WorkflowDefinition, WorkflowError, WorkflowExecution,
    WorkflowState, WorkflowStep,
};

fn stage(id: &str, agent_type: AgentType, prompt: &str, deps: &[&str]) -> PipelineStage {
    PipelineStage {
        id: StageId::new(id),
        agent_type,
        prompt_template: prompt.into(),
        depends_on: deps.iter().map(|d| StageId::new(d)).collect(),
    }
}

fn coder_reviewer_tester() -> Pipeline {
    let mut p = Pipeline::new("p1", "Code Review Pipeline");
    p.add_stage(stage("coder", AgentType::ClaudeCode, "Implement feature X", &[]));
    p.add_stage(stage(
        "review",
        AgentType::ClaudeCode,
        "Review the changes from the coder: {{coder}}",
        &["coder"],
    ));
    p.add_stage(stage("tester", AgentType::Pi, "Write tests for: {{coder}}", &["coder"]));
    p
}

fn diamond_pipeline() -> Pipeline {
    let mut p = Pipeline::new("p2", "Diamond");
    p.add_stage(stage("start", AgentType::Pi, "Begin", &[]));
    p.add_stage(stage("left", AgentType::ClaudeCode, "Left path: {{start}}", &["start"]));
    p.add_stage(stage("right", AgentType::Codex, "Right path: {{start}}", &["start"]));
    p.add_stage(stage("merge", AgentType::Pi, "Merge {{left}} and {{right}}", &["left", "right"]));
    p
}

fn run_of<'a>(run: &'a PipelineRun, id: &str) -> &'a StageRun {
    run.stages.iter().find(|s| s.stage_id.as_str() == id).unwrap()
}

fn sorted(mut ids: Vec<StageId>) -> Vec<StageId> {
    ids.sort_by(|a, b| a.0.cmp(&b.0));
    ids
}

#[test]
fn validate_accepts_valid_dag() {
    coder_reviewer_tester().validate().unwrap();
    diamond_pipeline().validate().unwrap();
}

#[test]
fn validate_rejects_empty_pipeline() {
    let p = Pipeline::new("e", "Empty");
    assert!(matches!(p.validate(), Err(PipelineError::EmptyPipeline)));
}

#[test]
fn validate_rejects_duplicate_stage_ids() {
    let mut p = Pipeline::new("d", "Dup");
    p.add_stage(stage("a", AgentType::Pi, "", &[]));
    p.add_stage(stage("a", AgentType::Pi, "", &[]));
    assert!(matches!(p.validate(), Err(PipelineError::DuplicateStage(_))));
}

#[test]
fn validate_rejects_unknown_dependency() {
    let mut p = Pipeline::new("u", "Unknown dep");
    p.add_stage(stage("a", AgentType::Pi, "", &["ghost"]));
    assert!(matches!(p.validate(), Err(PipelineError::UnknownDependency { .. })));
}

#[test]
fn validate_rejects_cycle() {
    let mut p = Pipeline::new("c", "Cycle");
    p.add_stage(stage("a", AgentType::Pi, "", &["b"]));
    p.add_stage(stage("b", AgentType::Pi, "", &["a"]));
    assert!(matches!(p.validate(), Err(PipelineError::CycleDetected(_))));
}

#[test]
fn topological_order_respects_dependencies() {
    let order = coder_reviewer_tester().topological_order().unwrap();
    let pos = |id: &str| order.iter().position(|s| s.0 == id).unwrap();
    assert!(pos("coder") < pos("review"));
    assert!(pos("coder") < pos("tester"));
}

#[test]
fn topological_order_diamond_has_merge_last() {
    let order = diamond_pipeline().topological_order().unwrap();
    let pos = |id: &str| order.iter().position(|s| s.0 == id).unwrap();
    assert!(pos("start") < pos("left"));
    assert!(pos("start") < pos("right"));
    assert!(pos("left") < pos("merge"));
    assert!(pos("right") < pos("merge"));
}

#[test]
fn ready_stages_returns_roots_initially() {
    let p = coder_reviewer_tester();
    let ready = p.ready_stages(&vec![]);
    assert_eq!(ready, vec![StageId::new("coder")]);
}

#[test]
fn ready_stages_unlocks_dependents_after_completion() {
    let p = coder_reviewer_tester();
    let completed = vec![StageId::new("coder")];
    let ready = sorted(p.ready_stages(&completed));
    assert_eq!(ready, vec![StageId::new("review"), StageId::new("tester")]);
}

#[test]
fn ready_stages_diamond_merge_needs_both() {
    let p = diamond_pipeline();
    let completed = vec![StageId::new("start"), StageId::new("left")];
    let ready = p.ready_stages(&completed);
    assert_eq!(ready, vec![StageId::new("right")]);

    let completed = vec![StageId::new("start"), StageId::new("left"), StageId::new("right")];
    let ready = p.ready_stages(&completed);
    assert_eq!(ready, vec![StageId::new("merge")]);
}

#[test]
fn interpolate_prompt_replaces_placeholders() {
    let outputs = vec![(StageId::new("coder"), "diff: +foo -bar".to_string())];
    let result = interpolate_prompt("Review: {{coder}}", &outputs);
    assert_eq!(result, "Review: diff: +foo -bar");
}

#[test]
fn interpolate_prompt_handles_multiple_placeholders() {
    let outputs =
        vec![(StageId::new("left"), "L".to_string()), (StageId::new("right"), "R".to_string())];
    let result = interpolate_prompt("Merge {{left}} and {{right}}", &outputs);
    assert_eq!(result, "Merge L and R");
}

#[test]
fn interpolate_prompt_leaves_unknown_placeholders() {
    let result = interpolate_prompt("{{unknown}} stays", &vec![]);
    assert_eq!(result, "{{unknown}} stays");
}

#[test]
fn pipeline_run_lifecycle_happy_path() {
    let p = coder_reviewer_tester();
    let mut run = PipelineRun::new("run-1".into(), &p);
    assert_eq!(run.state, PipelineRunState::Pending);
    assert_eq!(run.stages.len(), 3);

    run.start().unwrap();
    assert_eq!(run.state, PipelineRunState::Running);

    let runnable = run.runnable_stages(&p);
    assert_eq!(runnable, vec![StageId::new("coder")]);

    run.start_stage(&StageId::new("coder"), "sess-1".into(), &p).unwrap();
    assert_eq!(run_of(&run, "coder").state, StageState::Running);
    assert!(run.runnable_stages(&p).is_empty());

    run.complete_stage(&StageId::new("coder"), "diff output".into()).unwrap();
    assert_eq!(run.state, PipelineRunState::Running);

    let runnable = sorted(run.runnable_stages(&p));
    assert_eq!(runnable, vec![StageId::new("review"), StageId::new("tester")]);

    run.start_stage(&StageId::new("review"), "sess-2".into(), &p).unwrap();
    run.start_stage(&StageId::new("tester"), "sess-3".into(), &p).unwrap();
    run.complete_stage(&StageId::new("review"), "fine".into()).unwrap();
    run.complete_stage(&StageId::new("tester"), "all pass".into()).unwrap();

    assert_eq!(run.state, PipelineRunState::Completed);
}

#[test]
fn pipeline_run_failure_skips_pending_stages() {
    let p = coder_reviewer_tester();
    let mut run = PipelineRun::new("run-2".into(), &p);
    run.start().unwrap();
    run.start_stage(&StageId::new("coder"), "sess-1".into(), &p).unwrap();
    run.fail_stage(&StageId::new("coder"), "compile error".into()).unwrap();

    assert_eq!(run.state, PipelineRunState::Failed);
    assert_eq!(run_of(&run, "review").state, StageState::Skipped);
    assert_eq!(run_of(&run, "tester").state, StageState::Skipped);
    assert!(run.runnable_stages(&p).is_empty());
}

#[test]
fn pipeline_run_cancel_skips_pending() {
    let p = coder_reviewer_tester();
    let mut run = PipelineRun::new("run-3".into(), &p);
    run.start().unwrap();
    run.start_stage(&StageId::new("coder"), "sess-1".into(), &p).unwrap();
    run.cancel();

    assert_eq!(run.state, PipelineRunState::Cancelled);
    assert_eq!(run_of(&run, "coder").state, StageState::Running);
    assert_eq!(run_of(&run, "review").state, StageState::Skipped);
}

#[test]
fn start_stage_rejects_unmet_dependencies() {
    let p = coder_reviewer_tester();
    let mut run = PipelineRun::new("run-4".into(), &p);
    run.start().unwrap();
    let err = run.start_stage(&StageId::new("review"), "sess-1".into(), &p).unwrap_err();
    assert!(matches!(err, PipelineError::DependenciesNotMet(_)));
}

#[test]
fn complete_stage_rejects_non_running() {
    let p = coder_reviewer_tester();
    let mut run = PipelineRun::new("run-5".into(), &p);
    run.start().unwrap();
    let err = run.complete_stage(&StageId::new("coder"), "out".into()).unwrap_err();
    assert!(matches!(err, PipelineError::InvalidTransition { .. }));
}

#[test]
fn completed_outputs_collects_finished_stage_outputs() {
    let p = coder_reviewer_tester();
    let mut run = PipelineRun::new("run-6".into(), &p);
    run.start().unwrap();
    run.start_stage(&StageId::new("coder"), "s1".into(), &p).unwrap();
    run.complete_stage(&StageId::new("coder"), "the diff".into()).unwrap();

    let outputs = run.completed_outputs();
    assert_eq!(outputs.len(), 1);
    assert_eq!(outputs[0].0, StageId::new("coder"));
    assert_eq!(outputs[0].1, "the diff");
}

#[test]
fn single_stage_pipeline_completes_immediately() {
    let mut p = Pipeline::new("s", "Single");
    p.add_stage(stage("only", AgentType::Pi, "do it", &[]));
    p.validate().unwrap();

    let mut run = PipelineRun::new("r".into(), &p);
    run.start().unwrap();
    run.start_stage(&StageId::new("only"), "s1".into(), &p).unwrap();
    run.complete_stage(&StageId::new("only"), "done".into()).unwrap();
    assert_eq!(run.state, PipelineRunState::Completed);
}

#[test]
fn errors_say_what_went_wrong() {
    let mut p = Pipeline::new("u", "Unknown dep");
    p.add_stage(stage("a", AgentType::Pi, "", &["ghost"]));
    match p.validate() {
        Err(e) => assert!(e.message().contains("ghost")),
        Ok(()) => panic!("accepted"),
    }
    let q = coder_reviewer_tester();
    let mut run = PipelineRun::new("r".into(), &q);
    assert!(matches!(
        run.start_stage(&StageId::new("none"), "s".into(), &q),
        Err(PipelineError::StageNotFound(_))
    ));
    run.start().unwrap();
    assert!(run.start().is_err());
}

#[test]
fn runs_keep_the_times_they_are_given() {
    let p = coder_reviewer_tester();
    let t = |secs: i64| Timestamp { secs, nanos: 0 };
    let mut run = PipelineRun::new_at("r".into(), &p, t(1));
    assert_eq!((run.created_at, run.updated_at), (t(1), t(1)));
    run.start_at(t(2)).unwrap();
    run.start_stage_at(&StageId::new("coder"), "s".into(), &p, t(3), t(4)).unwrap();
    assert_eq!(run_of(&run, "coder").started_at, Some(t(3)));
    run.fail_stage_at(&StageId::new("coder"), "e".into(), t(5), t(6)).unwrap();
    assert_eq!(run_of(&run, "coder").completed_at, Some(t(5)));
    assert_eq!(run_of(&run, "coder").error.as_deref(), Some("e"));
    assert_eq!(run.updated_at, t(6));
}

#[test]
fn artifact_vm_output_path() {
    let a = Artifact::file("diff", "changes.patch", "coder");
    assert_eq!(a.vm_output_path(), "/handoff/output/changes.patch");
}

#[test]
fn artifact_directory_vm_output_path() {
    let a = Artifact::directory("src", "src/", "coder");
    assert_eq!(a.vm_output_path(), "/handoff/output/src/");
    assert!(matches!(a.kind, ArtifactKind::Directory));
}

#[test]
fn stage_manifest_builder() {
    let m = StageManifest::new("coder")
        .produce(Artifact::file("diff", "changes.patch", "coder"))
        .consume("deps", "setup");
    assert_eq!(m.produces.len(), 1);
    assert_eq!(m.consumes.len(), 1);
    assert_eq!(m.consumes[0].source_stage, StageId::new("setup"));
}

#[test]
fn plan_transfers_simple_pipeline() {
    let coder =
        StageManifest::new("coder").produce(Artifact::file("diff", "changes.patch", "coder"));
    let review = StageManifest::new("review").consume("diff", "coder");

    let plan = plan_transfers(&vec![coder, review]).unwrap();
    assert_eq!(plan.len(), 1);

    let t = &plan.transfers[0];
    assert_eq!(t.artifact_id, ArtifactId::new("diff"));
    assert_eq!(t.source_stage, StageId::new("coder"));
    assert_eq!(t.target_stage, StageId::new("review"));
    assert_eq!(t.source_vm_path, "/handoff/output/changes.patch");
    assert_eq!(t.target_vm_path, "/handoff/input/coder/changes.patch");
}

#[test]
fn plan_transfers_fan_out() {
    let coder =
        StageManifest::new("coder").produce(Artifact::file("diff", "changes.patch", "coder"));
    let review = StageManifest::new("review").consume("diff", "coder");
    let tester = StageManifest::new("tester").consume("diff", "coder");

    let plan = plan_transfers(&vec![coder, review, tester]).unwrap();
    assert_eq!(plan.len(), 2);
    assert_eq!(plan.transfers[0].target_stage, StageId::new("review"));
    assert_eq!(plan.transfers[1].target_stage, StageId::new("tester"));
}

#[test]
fn plan_transfers_chain() {
    let a = StageManifest::new("a").produce(Artifact::file("f1", "out.txt", "a"));
    let b = StageManifest::new("b")
        .consume("f1", "a")
        .produce(Artifact::file("f2", "result.json", "b"));
    let c = StageManifest::new("c").consume("f2", "b");

    let plan = plan_transfers(&vec![a, b, c]).unwrap();
    assert_eq!(plan.len(), 2);
    assert_eq!(plan.transfers[0].source_stage, StageId::new("a"));
    assert_eq!(plan.transfers[0].target_stage, StageId::new("b"));
    assert_eq!(plan.transfers[1].source_stage, StageId::new("b"));
    assert_eq!(plan.transfers[1].target_stage, StageId::new("c"));
}

#[test]
fn plan_transfers_no_consumers_is_empty() {
    let coder =
        StageManifest::new("coder").produce(Artifact::file("diff", "changes.patch", "coder"));
    let plan = plan_transfers(&vec![coder]).unwrap();
    assert!(plan.is_empty());
}

#[test]
fn plan_transfers_rejects_missing_artifact() {
    let review = StageManifest::new("review").consume("ghost", "coder");
    let err = plan_transfers(&vec![review]).unwrap_err();
    assert!(matches!(err, FilePassingError::ArtifactNotFound { .. }));
    assert!(err.message().contains("ghost"));
}

#[test]
fn plan_transfers_rejects_duplicate_artifact_across_stages() {
    let a = StageManifest::new("a").produce(Artifact::file("same", "f.txt", "a"));
    let b = StageManifest::new("b").produce(Artifact::file("same", "f.txt", "b"));
    let err = plan_transfers(&vec![a, b]).unwrap_err();
    assert!(matches!(err, FilePassingError::DuplicateArtifact(_)));
}

#[test]
fn vm_directory_helpers() {
    let coder = StageId::new("coder");
    let review = StageId::new("review");
    assert_eq!(vm_output_dir(&coder), "/handoff/output");
    assert_eq!(vm_input_dir(&review, &coder), "/handoff/input/coder");
    assert_eq!(
        vm_input_file(&review, &coder, "changes.patch"),
        "/handoff/input/coder/changes.patch"
    );
    assert_eq!((HANDOFF_DIR, OUTPUT_SUBDIR, INPUT_SUBDIR), ("/handoff", "output", "input"));
}

#[test]
fn artifact_builder_methods() {
    let a = Artifact::file("x", "f.txt", "s").with_size(1024).with_hash("sha256:abc123");
    assert_eq!(a.size_bytes, Some(1024));
    assert_eq!(a.content_hash.as_deref(), Some("sha256:abc123"));
}

fn sample_definition() -> WorkflowDefinition {
    let mut def = WorkflowDefinition::new("wf-def-1", "Code Review Workflow", "ws-1");
    def.add_step(WorkflowStep::agent("code", AgentType::ClaudeCode, "Implement feature"));
    def.add_step(WorkflowStep::checkpoint("snap", "post-code"));
    def.add_step(WorkflowStep::wait_signal("approval", "human-review"));
    def.add_step(WorkflowStep::agent("test", AgentType::Pi, "Run test suite"));
    def
}

fn with_retries_definition() -> WorkflowDefinition {
    let mut def = WorkflowDefinition::new("wf-retry", "Retry test", "ws-1");
    def.add_step(
        WorkflowStep::agent("flaky", AgentType::Pi, "flaky task").with_retries(2).with_timeout(60),
    );
    def.add_step(WorkflowStep::agent("next", AgentType::Pi, "next"));
    def
}

#[test]
fn workflow_definition_finds_steps() {
    let def = sample_definition();
    assert!(def.step(&StepId::new("code")).is_some());
    assert!(def.step(&StepId::new("missing")).is_none());
    assert_eq!(def.step_index(&StepId::new("snap")), Some(1));
}

#[test]
fn workflow_execution_happy_path() {
    let def = sample_definition();
    let mut exec = WorkflowExecution::new("exec-1".into(), &def);
    assert_eq!(exec.state, WorkflowState::Pending);
    assert_eq!(exec.steps.len(), 4);

    exec.start().unwrap();
    assert_eq!(exec.state, WorkflowState::Running);

    let step_id = exec.begin_step().unwrap();
    assert_eq!(step_id, StepId::new("code"));
    exec.complete_step(string("diff output")).unwrap();
    assert_eq!(exec.current_step_index, 1);

    exec.begin_step().unwrap();
    exec.complete_step(string("checkpoint-id-123")).unwrap();

    exec.begin_step().unwrap();
    exec.pause_at_signal().unwrap();
    assert_eq!(exec.state, WorkflowState::Paused);

    exec.resume_from_signal(Json::Object(vec![("approved".into(), Json::Bool(true))])).unwrap();
    assert_eq!(exec.state, WorkflowState::Running);

    exec.begin_step().unwrap();
    exec.complete_step(string("all tests pass")).unwrap();

    assert_eq!(exec.state, WorkflowState::Completed);
    assert_eq!(exec.progress(), (4, 4));
}

#[test]
fn workflow_execution_failure_skips_remaining() {
    let def = sample_definition();
    let mut exec = WorkflowExecution::new("exec-2".into(), &def);
    exec.start().unwrap();
    exec.begin_step().unwrap();
    exec.fail_step("compile error".into(), &def).unwrap();

    assert_eq!(exec.state, WorkflowState::Failed);
    assert_eq!(exec.steps[0].state, StepState::Failed);
    assert_eq!(exec.steps[1].state, StepState::Skipped);
    assert_eq!(exec.steps[2].state, StepState::Skipped);
    assert_eq!(exec.steps[3].state, StepState::Skipped);
}

#[test]
fn workflow_execution_cancel() {
    let def = sample_definition();
    let mut exec = WorkflowExecution::new("exec-3".into(), &def);
    exec.start().unwrap();
    exec.begin_step().unwrap();
    exec.cancel();

    assert_eq!(exec.state, WorkflowState::Cancelled);
    assert_eq!(exec.steps[0].state, StepState::Running);
    assert_eq!(exec.steps[1].state, StepState::Skipped);
}

#[test]
fn workflow_retry_resets_to_pending() {
    let def = with_retries_definition();
    let mut exec = WorkflowExecution::new("exec-4".into(), &def);
    exec.start().unwrap();

    exec.begin_step().unwrap();
    assert_eq!(exec.steps[0].attempts, 1);
    exec.fail_step("transient error".into(), &def).unwrap();
    assert_eq!(exec.steps[0].state, StepState::Pending);
    assert_eq!(exec.state, WorkflowState::Running);

    exec.begin_step().unwrap();
    assert_eq!(exec.steps[0].attempts, 2);
    exec.fail_step("transient again".into(), &def).unwrap();
    assert_eq!(exec.steps[0].state, StepState::Pending);

    exec.begin_step().unwrap();
    assert_eq!(exec.steps[0].attempts, 3);
    exec.fail_step("final failure".into(), &def).unwrap();
    assert_eq!(exec.steps[0].state, StepState::Failed);
    assert_eq!(exec.state, WorkflowState::Failed);
}

#[test]
fn workflow_progress_tracks_completion() {
    let def = sample_definition();
    let mut exec = WorkflowExecution::new("exec-5".into(), &def);
    exec.start().unwrap();
    assert_eq!(exec.progress(), (0, 4));

    exec.begin_step().unwrap();
    exec.complete_step(Json::Null).unwrap();
    assert_eq!(exec.progress(), (1, 4));
}

#[test]
fn workflow_rejects_double_start() {
    let def = sample_definition();
    let mut exec = WorkflowExecution::new("exec-6".into(), &def);
    exec.start().unwrap();
    assert!(matches!(exec.start(), Err(WorkflowError::AlreadyTerminal)));
}

#[test]
fn workflow_is_terminal_for_completed_failed_cancelled() {
    let def = sample_definition();

    let mut exec = WorkflowExecution::new("t1".into(), &def);
    exec.state = WorkflowState::Completed;
    assert!(exec.is_terminal());

    exec.state = WorkflowState::Failed;
    assert!(exec.is_terminal());

    exec.state = WorkflowState::Cancelled;
    assert!(exec.is_terminal());

    exec.state = WorkflowState::Running;
    assert!(!exec.is_terminal());
}

#[test]
fn step_constructors_produce_correct_actions() {
    let agent = WorkflowStep::agent("a", AgentType::Pi, "do it");
    assert!(matches!(agent.action, StepAction::RunAgent { .. }));

    let cp = WorkflowStep::checkpoint("c", "snap");
    assert!(matches!(cp.action, StepAction::Checkpoint { .. }));

    let sig = WorkflowStep::wait_signal("s", "approval");
    assert!(matches!(sig.action, StepAction::WaitForSignal { .. }));

    let delay = WorkflowStep::delay("d", 30);
    assert!(matches!(delay.action, StepAction::Delay { seconds: 30 }));
}

#[test]
fn step_builder_methods() {
    let step = WorkflowStep::agent("a", AgentType::Pi, "x").with_timeout(120).with_retries(3);
    assert_eq!(step.timeout_seconds, Some(120));
    assert_eq!(step.retry_count, 3);
}

#[test]
fn workflow_steps_refuse_what_does_not_fit() {
    let def = sample_definition();
    let mut exec = WorkflowExecution::new("e".into(), &def);
    assert!(matches!(exec.begin_step(), Err(WorkflowError::NotRunning)));
    exec.start().unwrap();
    match exec.complete_step(Json::Number(JsonNumber::Unsigned(1))) {
        Err(e @ WorkflowError::InvalidTransition { .. }) => {
            assert!(e.message().contains("code"));
        }
        other => panic!("unexpected: {:?}", other),
    }
    exec.begin_step().unwrap();
    assert!(matches!(exec.begin_step(), Err(WorkflowError::InvalidTransition { .. })));
    exec.current_step_index = 9;
    assert!(matches!(exec.begin_step(), Err(WorkflowError::StepNotFound(_))));
}

#[test]
fn the_current_step_can_be_read_and_changed() {
    let mut exec = WorkflowExecution::new("e".into(), &sample_definition());
    let first = exec.current_step().unwrap().step_id.clone();
    assert_eq!(first, exec.steps[0].step_id);
    exec.current_step_mut().unwrap().attempts = 7;
    assert_eq!(exec.steps[0].attempts, 7);
    exec.current_step_index = exec.steps.len();
    assert!(exec.current_step().is_none());
    assert!(exec.current_step_mut().is_none());
}

#[test]
fn progress_follows_the_current_step() {
    let def = sample_definition();
    let mut exec = WorkflowExecution::new("e".into(), &def);
    exec.start().unwrap();
    while exec.state == WorkflowState::Running {
        assert_eq!(exec.progress(), (exec.current_step_index, def.steps.len()));
        for (i, step) in exec.steps.iter().enumerate() {
            let expected =
                if i < exec.current_step_index { StepState::Completed } else { StepState::Pending };
            assert_eq!(step.state, expected);
        }
        exec.begin_step().unwrap();
        exec.complete_step(Json::Null).unwrap();
    }
    assert_eq!(exec.state, WorkflowState::Completed);
    assert_eq!(exec.progress(), (def.steps.len(), def.steps.len()));
}

#[test]
fn stages_that_started_have_their_dependencies_done() {
    let p = diamond_pipeline();
    let mut run = PipelineRun::new("r".into(), &p);
    run.start().unwrap();
    let mut rounds = 0;
    while run.state == PipelineRunState::Running {
        assert!(!run.runnable_stages(&p).is_empty());
        for id in run.runnable_stages(&p) {
            run.start_stage(&id, "s".into(), &p).unwrap();
            for dep in &p.stage(&id).unwrap().depends_on {
                assert!(run.stages.iter().any(|r| r.stage_id == *dep && r.output.is_some()));
            }
            run.complete_stage(&id, "out".into()).unwrap();
        }
        rounds += 1;
    }
    assert_eq!(run.state, PipelineRunState::Completed);
    assert!(rounds >= 2);
    run.cancel();
    assert!(run.stages.iter().all(|r| r.state == StageState::Completed));
}
