//! Runs of a pipeline.

use vstd::prelude::*;
use vstd::string::*;
use crate::pipeline;
use crate::pipeline::{
    Pipeline, PipelineError, PipelineErrorView, PipelineRunState, PipelineStage, StageId,
    StageState,
};
use crate::text;
use crate::time::{utc_now, Timestamp};

verus! {

/// One stage of a run.
#[derive(Clone, Debug)]
pub struct StageRun {
    pub stage_id: StageId,
    pub state: StageState,
    pub session_id: Option<String>,
    pub output: Option<String>,
    pub error: Option<String>,
    pub started_at: Option<Timestamp>,
    pub completed_at: Option<Timestamp>,
}

/// A run of a pipeline. Its stages stand in order of their names, each name
/// once.
#[derive(Clone, Debug)]
pub struct PipelineRun {
    pub id: String,
    pub pipeline_id: String,
    pub state: PipelineRunState,
    pub stages: Vec<StageRun>,
    pub created_at: Timestamp,
    pub updated_at: Timestamp,
}

/// Whether the stages stand in order of their names, each name once.
pub open spec fn sorted_runs(stages: Seq<StageRun>) -> bool {
    forall|i: int, j: int|
        0 <= i < j < stages.len() ==> text::lex_lt(
            (#[trigger] stages[i]).stage_id@,
            (#[trigger] stages[j]).stage_id@,
        )
}

/// The position of the stage called `id`, or the number of stages.
pub open spec fn run_index(stages: Seq<StageRun>, id: Seq<char>) -> int
    decreases stages.len(),
{
    if stages.len() == 0 {
        0
    } else if stages[0].stage_id@ == id {
        0
    } else {
        1 + run_index(stages.skip(1), id)
    }
}

pub proof fn lemma_run_index(stages: Seq<StageRun>, id: Seq<char>, i: int)
    requires
        0 <= i <= stages.len(),
        forall|j: int| 0 <= j < i ==> (#[trigger] stages[j]).stage_id@ != id,
        i < stages.len() ==> stages[i].stage_id@ == id,
    ensures
        run_index(stages, id) == i,
    decreases stages.len(),
{
    if i > 0 {
        let rest = stages.skip(1);
        assert(stages[0].stage_id@ != id);
        assert forall|j: int| 0 <= j < i - 1 implies (#[trigger] rest[j]).stage_id@ != id by {
            assert(rest[j] == stages[j + 1]);
        }
        lemma_run_index(rest, id, i - 1);
    }
}

/// Whether the run has a stage called `id`.
pub open spec fn has_run(stages: Seq<StageRun>, id: Seq<char>) -> bool {
    exists|i: int| 0 <= i < stages.len() && (#[trigger] stages[i]).stage_id@ == id
}

/// Whether `r` is the stage `id` before it was started.
pub open spec fn fresh_stage(r: StageRun) -> bool {
    &&& r.state == StageState::Pending
    &&& r.session_id is None
    &&& r.output is None
    &&& r.error is None
    &&& r.started_at is None
    &&& r.completed_at is None
}

/// The position of the stage called `id`.
fn find_run(stages: &Vec<StageRun>, id: &StageId) -> (r: Option<usize>)
    ensures
        match r {
            Some(i) => i == run_index(stages@, id@) && i < stages@.len() && stages@[i as int].stage_id@
                == id@,
            None => run_index(stages@, id@) == stages@.len(),
        },
{
    let mut i: usize = 0;
    while i < stages.len()
        invariant
            i <= stages@.len(),
            forall|j: int| 0 <= j < i ==> (#[trigger] stages@[j]).stage_id@ != id@,
        decreases stages@.len() - i,
    {
        if stages[i].stage_id.same(id) {
            proof {
                lemma_run_index(stages@, id@, i as int);
            }
            return Some(i);
        }
        i += 1;
    }
    proof {
        lemma_run_index(stages@, id@, stages@.len() as int);
    }
    None
}

/// The stage `r` with a pending stage turned into a skipped one.
pub open spec fn skip_pending(r: StageRun) -> StageRun {
    if r.state == StageState::Pending {
        StageRun { state: StageState::Skipped, ..r }
    } else {
        r
    }
}

/// All stages with the pending ones skipped.
pub open spec fn all_skipped(stages: Seq<StageRun>) -> Seq<StageRun> {
    stages.map_values(|r: StageRun| skip_pending(r))
}

/// Skips the pending stages.
fn skip_all_pending(stages: &mut Vec<StageRun>)
    ensures
        final(stages)@ == all_skipped(old(stages)@),
{
    let ghost before = stages@;
    let mut i: usize = 0;
    while i < stages.len()
        invariant
            i <= stages@.len(),
            stages@.len() == before.len(),
            forall|j: int| 0 <= j < i ==> #[trigger] stages@[j] == skip_pending(before[j]),
            forall|j: int| i <= j < before.len() ==> #[trigger] stages@[j] == before[j],
        decreases stages@.len() - i,
    {
        if stages[i].state == StageState::Pending {
            stages[i].state = StageState::Skipped;
        }
        i += 1;
    }
    proof {
        assert(stages@ =~= all_skipped(before));
    }
}

/// Why stage `id` cannot be started now, if it cannot.
pub open spec fn start_fault(
    stages: Seq<StageRun>,
    defs: Seq<PipelineStage>,
    id: Seq<char>,
) -> Option<PipelineErrorView> {
    let d = pipeline::stage_index(defs, id);
    if d == defs.len() {
        Some(PipelineErrorView::StageNotFound(id))
    } else {
        match deps_fault(stages, defs[d].depends_on@, id, 0) {
            Some(e) => Some(e),
            None => {
                let i = run_index(stages, id);
                if i == stages.len() {
                    Some(PipelineErrorView::StageNotFound(id))
                } else if stages[i].state != StageState::Pending {
                    Some(
                        PipelineErrorView::InvalidTransition {
                            stage: id,
                            from: stages[i].state,
                            event: "start_stage"@,
                        },
                    )
                } else {
                    None
                }
            },
        }
    }
}

/// The first fault among the dependencies from the `from`-th on: one that the
/// run does not have, or one that is not completed.
pub open spec fn deps_fault(
    stages: Seq<StageRun>,
    deps: Seq<StageId>,
    id: Seq<char>,
    from: int,
) -> Option<PipelineErrorView>
    decreases deps.len() - from,
{
    if from >= deps.len() {
        None
    } else {
        let i = run_index(stages, deps[from]@);
        if i == stages.len() {
            Some(PipelineErrorView::StageNotFound(deps[from]@))
        } else if stages[i].state != StageState::Completed {
            Some(PipelineErrorView::DependenciesNotMet(id))
        } else {
            deps_fault(stages, deps, id, from + 1)
        }
    }
}

/// Why the running stage `id` cannot end by `event`, if it cannot.
pub open spec fn end_fault(stages: Seq<StageRun>, id: Seq<char>, event: Seq<char>) -> Option<
    PipelineErrorView,
> {
    let i = run_index(stages, id);
    if i == stages.len() {
        Some(PipelineErrorView::StageNotFound(id))
    } else if stages[i].state != StageState::Running {
        Some(PipelineErrorView::InvalidTransition { stage: id, from: stages[i].state, event })
    } else {
        None
    }
}

/// Whether every stage is completed.
pub open spec fn all_done(stages: Seq<StageRun>) -> bool {
    forall|i: int| 0 <= i < stages.len() ==> (#[trigger] stages[i]).state == StageState::Completed
}

/// The view of the result of a request.
pub open spec fn fault_of(r: Result<(), PipelineError>) -> Option<PipelineErrorView> {
    match r {
        Ok(_) => None,
        Err(e) => Some(e@),
    }
}

/// What starting a run does: a pending run becomes a running one.
pub open spec fn run_started(
    before: PipelineRun,
    after: PipelineRun,
    fault: Option<PipelineErrorView>,
    updated: Timestamp,
) -> bool {
    if before.state != PipelineRunState::Pending {
        after == before && fault == Some(
            PipelineErrorView::InvalidTransition {
                stage: "__pipeline__"@,
                from: StageState::Pending,
                event: "start"@,
            },
        )
    } else {
        fault is None && after == (PipelineRun {
            state: PipelineRunState::Running,
            updated_at: updated,
            ..before
        })
    }
}

/// What starting a stage does.
pub open spec fn stage_started(
    before: PipelineRun,
    after: PipelineRun,
    fault: Option<PipelineErrorView>,
    defs: Seq<PipelineStage>,
    id: Seq<char>,
    session_id: String,
    started: Timestamp,
    updated: Timestamp,
) -> bool {
    &&& fault == start_fault(before.stages@, defs, id)
    &&& fault is Some ==> after == before
    &&& fault is None ==> {
        let i = run_index(before.stages@, id);
        &&& after.stages@ == before.stages@.update(
            i,
            StageRun {
                state: StageState::Running,
                session_id: Some(session_id),
                started_at: Some(started),
                ..before.stages@[i]
            },
        )
        &&& after == (PipelineRun { stages: after.stages, updated_at: updated, ..before })
    }
}

/// What completing a stage does: the run is completed with its last stage.
pub open spec fn stage_completed(
    before: PipelineRun,
    after: PipelineRun,
    fault: Option<PipelineErrorView>,
    id: Seq<char>,
    output: String,
    completed: Timestamp,
    updated: Timestamp,
) -> bool {
    &&& fault == end_fault(before.stages@, id, "complete_stage"@)
    &&& fault is Some ==> after == before
    &&& fault is None ==> {
        let i = run_index(before.stages@, id);
        &&& after.stages@ == before.stages@.update(
            i,
            StageRun {
                state: StageState::Completed,
                output: Some(output),
                completed_at: Some(completed),
                ..before.stages@[i]
            },
        )
        &&& after == (PipelineRun {
            stages: after.stages,
            updated_at: updated,
            state: if all_done(after.stages@) {
                PipelineRunState::Completed
            } else {
                before.state
            },
            ..before
        })
    }
}

/// What a failing stage does: the run fails and its pending stages are
/// skipped.
pub open spec fn stage_failed(
    before: PipelineRun,
    after: PipelineRun,
    fault: Option<PipelineErrorView>,
    id: Seq<char>,
    error: String,
    completed: Timestamp,
    updated: Timestamp,
) -> bool {
    &&& fault == end_fault(before.stages@, id, "fail_stage"@)
    &&& fault is Some ==> after == before
    &&& fault is None ==> {
        let i = run_index(before.stages@, id);
        &&& after.stages@ == all_skipped(
            before.stages@.update(
                i,
                StageRun {
                    state: StageState::Failed,
                    error: Some(error),
                    completed_at: Some(completed),
                    ..before.stages@[i]
                },
            ),
        )
        &&& after == (PipelineRun {
            stages: after.stages,
            updated_at: updated,
            state: PipelineRunState::Failed,
            ..before
        })
    }
}

/// What cancelling a run does: its pending stages are skipped.
pub open spec fn run_cancelled(before: PipelineRun, after: PipelineRun, updated: Timestamp) -> bool {
    &&& after.stages@ == all_skipped(before.stages@)
    &&& after == (PipelineRun {
        stages: after.stages,
        state: PipelineRunState::Cancelled,
        updated_at: updated,
        ..before
    })
}

/// Whether `run` is a new run of the pipeline: every stage once, pending.
pub open spec fn new_run(run: PipelineRun, id: String, pipeline: Pipeline, now: Timestamp) -> bool {
    &&& run.id == id
    &&& run.pipeline_id == pipeline.id
    &&& run.state == PipelineRunState::Pending
    &&& run.created_at == now
    &&& run.updated_at == now
    &&& sorted_runs(run.stages@)
    &&& forall|i: int| 0 <= i < run.stages@.len() ==> fresh_stage(#[trigger] run.stages@[i])
    &&& forall|name: Seq<char>| #[trigger]
        has_run(run.stages@, name) <==> pipeline::known(pipeline.stages@, name)
}

/// The outputs of the stages before stage `n` that have one, in order of
/// their names.
pub open spec fn outputs_of(stages: Seq<StageRun>, n: int) -> Seq<(Seq<char>, Seq<char>)>
    decreases n,
{
    if n <= 0 {
        Seq::empty()
    } else {
        let front = outputs_of(stages, n - 1);
        match stages[n - 1].output {
            Some(o) => front.push((stages[n - 1].stage_id@, o@)),
            None => front,
        }
    }
}

/// The views of a list of outputs.
pub open spec fn output_views(v: Seq<(StageId, String)>) -> Seq<(Seq<char>, Seq<char>)> {
    v.map_values(|o: (StageId, String)| (o.0@, o.1@))
}

/// Whether the run has completed the stage `id`.
pub open spec fn run_has_completed(stages: Seq<StageRun>, id: Seq<char>) -> bool {
    let i = run_index(stages, id);
    i < stages.len() && stages[i].state == StageState::Completed
}

/// Whether stage `s` of the definition can be started in the run: it is
/// pending, and all that it depends on is completed.
pub open spec fn can_start(stages: Seq<StageRun>, s: PipelineStage) -> bool {
    let i = run_index(stages, s.id@);
    &&& i < stages.len() && stages[i].state == StageState::Pending
    &&& forall|j: int|
        0 <= j < s.depends_on@.len() ==> run_has_completed(stages, #[trigger] s.depends_on@[j]@)
}

/// The names of the first `n` defined stages that can be started.
pub open spec fn runnable_names(
    stages: Seq<StageRun>,
    defs: Seq<PipelineStage>,
    n: int,
) -> Seq<Seq<char>>
    decreases n,
{
    if n <= 0 {
        Seq::empty()
    } else {
        let front = runnable_names(stages, defs, n - 1);
        if can_start(stages, defs[n - 1]) {
            front.push(defs[n - 1].id@)
        } else {
            front
        }
    }
}

proof fn lemma_sorted_insert(stages: Seq<StageRun>, at: int, r: StageRun)
    requires
        sorted_runs(stages),
        0 <= at <= stages.len(),
        forall|j: int| 0 <= j < at ==> text::lex_lt((#[trigger] stages[j]).stage_id@, r.stage_id@),
        at < stages.len() ==> text::lex_lt(r.stage_id@, stages[at].stage_id@),
    ensures
        sorted_runs(stages.insert(at, r)),
        forall|name: Seq<char>| #[trigger]
            has_run(stages.insert(at, r), name) <==> has_run(stages, name) || name == r.stage_id@,
{
    let u = stages.insert(at, r);
    assert forall|j: int| at <= j < stages.len() implies text::lex_lt(
        r.stage_id@,
        (#[trigger] stages[j]).stage_id@,
    ) by {
        if j > at {
            text::lemma_lex_transitive(r.stage_id@, stages[at].stage_id@, stages[j].stage_id@);
        }
    }
    assert forall|i: int, j: int| 0 <= i < j < u.len() implies text::lex_lt(
        (#[trigger] u[i]).stage_id@,
        (#[trigger] u[j]).stage_id@,
    ) by {
        let a = if i < at {
            stages[i]
        } else if i == at {
            r
        } else {
            stages[i - 1]
        };
        let b = if j < at {
            stages[j]
        } else if j == at {
            r
        } else {
            stages[j - 1]
        };
        assert(u[i] == a && u[j] == b);
    }
    assert forall|name: Seq<char>| #[trigger] has_run(u, name) <==> has_run(stages, name) || name
        == r.stage_id@ by {
        if has_run(u, name) {
            let i = choose|i: int| 0 <= i < u.len() && (#[trigger] u[i]).stage_id@ == name;
            if i < at {
                assert(stages[i].stage_id@ == name);
            } else if i > at {
                assert(stages[i - 1].stage_id@ == name);
            }
        }
        if has_run(stages, name) {
            let i = choose|i: int| 0 <= i < stages.len() && (#[trigger] stages[i]).stage_id@ == name;
            if i < at {
                assert(u[i] == stages[i]);
            } else {
                assert(u[i + 1] == stages[i]);
            }
        }
        if name == r.stage_id@ {
            assert(u[at] == r);
        }
    }
}

impl PipelineRun {
    /// A new run of `pipeline`, made now.
    pub fn new(id: String, pipeline: &Pipeline) -> (r: Self)
        ensures
            new_run(r, id, *pipeline, r.created_at),
    {
        Self::new_at(id, pipeline, utc_now())
    }

    /// A new run of `pipeline`, made at `now`.
    pub fn new_at(id: String, pipeline: &Pipeline, now: Timestamp) -> (r: Self)
        ensures
            new_run(r, id, *pipeline, now),
    {
        let mut stages: Vec<StageRun> = Vec::new();
        let mut i: usize = 0;
        while i < pipeline.stages.len()
            invariant
                i <= pipeline.stages@.len(),
                sorted_runs(stages@),
                forall|k: int| 0 <= k < stages@.len() ==> fresh_stage(#[trigger] stages@[k]),
                forall|name: Seq<char>| #[trigger]
                    has_run(stages@, name) <==> pipeline::known(
                        pipeline.stages@.take(i as int),
                        name,
                    ),
            decreases pipeline.stages@.len() - i,
        {
            let stage_id = pipeline.stages[i].id.clone();
            let ghost defs = pipeline.stages@;
            let mut at: usize = 0;
            while at < stages.len() && text::str_lt(
                stages[at].stage_id.as_str(),
                stage_id.as_str(),
            )
                invariant
                    at <= stages@.len(),
                    forall|j: int|
                        0 <= j < at ==> text::lex_lt(
                            (#[trigger] stages@[j]).stage_id@,
                            stage_id@,
                        ),
                decreases stages@.len() - at,
            {
                at += 1;
            }
            let ghost before = stages@;
            proof {
                if at < before.len() {
                    text::lemma_lex_total(before[at as int].stage_id@, stage_id@);
                }
                assert forall|name: Seq<char>| #[trigger]
                    pipeline::known(defs.take(i as int + 1), name) <==> pipeline::known(
                        defs.take(i as int),
                        name,
                    ) || name == stage_id@ by {
                    let t = defs.take(i as int);
                    let u = defs.take(i as int + 1);
                    if pipeline::known(u, name) {
                        let k = choose|k: int| 0 <= k < u.len() && (#[trigger] u[k]).id@ == name;
                        if k < i {
                            assert(t[k].id@ == name);
                        }
                    }
                    if pipeline::known(t, name) {
                        let k = choose|k: int| 0 <= k < t.len() && (#[trigger] t[k]).id@ == name;
                        assert(u[k].id@ == name);
                    }
                    if name == stage_id@ {
                        assert(u[i as int].id@ == name);
                    }
                }
            }
            if !(at < stages.len() && stages[at].stage_id.same(&stage_id)) {
                let fresh = StageRun {
                    stage_id,
                    state: StageState::Pending,
                    session_id: None,
                    output: None,
                    error: None,
                    started_at: None,
                    completed_at: None,
                };
                proof {
                    lemma_sorted_insert(before, at as int, fresh);
                }
                stages.insert(at, fresh);
                proof {
                    assert forall|k: int| 0 <= k < stages@.len() implies fresh_stage(
                        #[trigger] stages@[k],
                    ) by {
                        if k < at {
                            assert(stages@[k] == before[k]);
                        } else if k > at {
                            assert(stages@[k] == before[k - 1]);
                        }
                    }
                }
            } else {
                proof {
                    assert(has_run(before, stage_id@));
                }
            }
            i += 1;
        }
        proof {
            assert(pipeline.stages@.take(pipeline.stages@.len() as int) =~= pipeline.stages@);
        }
        PipelineRun {
            id,
            pipeline_id: pipeline.id.clone(),
            state: PipelineRunState::Pending,
            stages,
            created_at: now,
            updated_at: now,
        }
    }

    /// Starts the run now.
    pub fn start(&mut self) -> (r: Result<(), PipelineError>)
        ensures
            exists|updated: Timestamp| #[trigger]
                run_started(*old(self), *final(self), fault_of(r), updated),
    {
        self.start_at(utc_now())
    }

    /// Starts the run at `updated`.
    pub fn start_at(&mut self, updated: Timestamp) -> (r: Result<(), PipelineError>)
        ensures
            run_started(*old(self), *final(self), fault_of(r), updated),
    {
        if self.state != PipelineRunState::Pending {
            return Err(
                PipelineError::InvalidTransition {
                    stage: StageId::new("__pipeline__"),
                    from: StageState::Pending,
                    event: "start",
                },
            );
        }
        self.state = PipelineRunState::Running;
        self.updated_at = updated;
        Ok(())
    }

    /// Starts a stage in a session now.
    pub fn start_stage(&mut self, stage_id: &StageId, session_id: String, pipeline: &Pipeline) -> (r:
        Result<(), PipelineError>)
        ensures
            exists|started: Timestamp, updated: Timestamp| #[trigger]
                stage_started(
                    *old(self),
                    *final(self),
                    fault_of(r),
                    pipeline.stages@,
                    stage_id@,
                    session_id,
                    started,
                    updated,
                ),
    {
        self.start_stage_at(stage_id, session_id, pipeline, utc_now(), utc_now())
    }

    /// Starts a stage in a session: it must be pending, and all that it
    /// depends on completed.
    pub fn start_stage_at(
        &mut self,
        stage_id: &StageId,
        session_id: String,
        pipeline: &Pipeline,
        started: Timestamp,
        updated: Timestamp,
    ) -> (r: Result<(), PipelineError>)
        ensures
            stage_started(
                *old(self),
                *final(self),
                fault_of(r),
                pipeline.stages@,
                stage_id@,
                session_id,
                started,
                updated,
            ),
    {
        let stage_def = match pipeline.stage(stage_id) {
            Some(s) => s,
            None => {
                return Err(PipelineError::StageNotFound(stage_id.clone()));
            },
        };
        let deps = &stage_def.depends_on;
        let mut j: usize = 0;
        while j < deps.len()
            invariant
                j <= deps@.len(),
                *self == *old(self),
                pipeline::stage_index(pipeline.stages@, stage_id@) < pipeline.stages@.len(),
                *deps == pipeline.stages@[pipeline::stage_index(
                    pipeline.stages@,
                    stage_id@,
                )].depends_on,
                deps_fault(self.stages@, deps@, stage_id@, 0) == deps_fault(
                    self.stages@,
                    deps@,
                    stage_id@,
                    j as int,
                ),
            decreases deps@.len() - j,
        {
            match find_run(&self.stages, &deps[j]) {
                Some(i) => {
                    if self.stages[i].state != StageState::Completed {
                        return Err(PipelineError::DependenciesNotMet(stage_id.clone()));
                    }
                },
                None => {
                    return Err(PipelineError::StageNotFound(deps[j].clone()));
                },
            }
            j += 1;
        }
        let i = match find_run(&self.stages, stage_id) {
            Some(i) => i,
            None => {
                return Err(PipelineError::StageNotFound(stage_id.clone()));
            },
        };
        let from = self.stages[i].state;
        if from != StageState::Pending {
            return Err(
                PipelineError::InvalidTransition {
                    stage: stage_id.clone(),
                    from,
                    event: "start_stage",
                },
            );
        }
        self.stages[i].state = StageState::Running;
        self.stages[i].session_id = Some(session_id);
        self.stages[i].started_at = Some(started);
        self.updated_at = updated;
        proof {
            assert(self.stages@ =~= old(self).stages@.update(
                i as int,
                StageRun {
                    state: StageState::Running,
                    session_id: Some(session_id),
                    started_at: Some(started),
                    ..old(self).stages@[i as int]
                },
            ));
        }
        Ok(())
    }

    /// Completes a running stage now.
    pub fn complete_stage(&mut self, stage_id: &StageId, output: String) -> (r: Result<
        (),
        PipelineError,
    >)
        ensures
            exists|completed: Timestamp, updated: Timestamp| #[trigger]
                stage_completed(
                    *old(self),
                    *final(self),
                    fault_of(r),
                    stage_id@,
                    output,
                    completed,
                    updated,
                ),
    {
        self.complete_stage_at(stage_id, output, utc_now(), utc_now())
    }

    /// Completes a running stage. With the last one the run is completed.
    pub fn complete_stage_at(
        &mut self,
        stage_id: &StageId,
        output: String,
        completed: Timestamp,
        updated: Timestamp,
    ) -> (r: Result<(), PipelineError>)
        ensures
            stage_completed(
                *old(self),
                *final(self),
                fault_of(r),
                stage_id@,
                output,
                completed,
                updated,
            ),
    {
        let i = match find_run(&self.stages, stage_id) {
            Some(i) => i,
            None => {
                return Err(PipelineError::StageNotFound(stage_id.clone()));
            },
        };
        let from = self.stages[i].state;
        if from != StageState::Running {
            return Err(
                PipelineError::InvalidTransition {
                    stage: stage_id.clone(),
                    from,
                    event: "complete_stage",
                },
            );
        }
        self.stages[i].state = StageState::Completed;
        self.stages[i].output = Some(output);
        self.stages[i].completed_at = Some(completed);
        self.updated_at = updated;
        proof {
            assert(self.stages@ =~= old(self).stages@.update(
                i as int,
                StageRun {
                    state: StageState::Completed,
                    output: Some(output),
                    completed_at: Some(completed),
                    ..old(self).stages@[i as int]
                },
            ));
        }
        let mut all = true;
        let mut k: usize = 0;
        while k < self.stages.len()
            invariant
                k <= self.stages@.len(),
                all == (forall|j: int|
                    0 <= j < k ==> (#[trigger] self.stages@[j]).state == StageState::Completed),
            decreases self.stages@.len() - k,
        {
            if self.stages[k].state != StageState::Completed {
                all = false;
            }
            k += 1;
        }
        if all {
            self.state = PipelineRunState::Completed;
        }
        Ok(())
    }

    /// Fails a running stage now.
    pub fn fail_stage(&mut self, stage_id: &StageId, error: String) -> (r: Result<
        (),
        PipelineError,
    >)
        ensures
            exists|completed: Timestamp, updated: Timestamp| #[trigger]
                stage_failed(
                    *old(self),
                    *final(self),
                    fault_of(r),
                    stage_id@,
                    error,
                    completed,
                    updated,
                ),
    {
        self.fail_stage_at(stage_id, error, utc_now(), utc_now())
    }

    /// Fails a running stage, and with it the run.
    pub fn fail_stage_at(
        &mut self,
        stage_id: &StageId,
        error: String,
        completed: Timestamp,
        updated: Timestamp,
    ) -> (r: Result<(), PipelineError>)
        ensures
            stage_failed(
                *old(self),
                *final(self),
                fault_of(r),
                stage_id@,
                error,
                completed,
                updated,
            ),
    {
        let i = match find_run(&self.stages, stage_id) {
            Some(i) => i,
            None => {
                return Err(PipelineError::StageNotFound(stage_id.clone()));
            },
        };
        let from = self.stages[i].state;
        if from != StageState::Running {
            return Err(
                PipelineError::InvalidTransition {
                    stage: stage_id.clone(),
                    from,
                    event: "fail_stage",
                },
            );
        }
        self.stages[i].state = StageState::Failed;
        self.stages[i].error = Some(error);
        self.stages[i].completed_at = Some(completed);
        self.state = PipelineRunState::Failed;
        self.updated_at = updated;
        proof {
            assert(self.stages@ =~= old(self).stages@.update(
                i as int,
                StageRun {
                    state: StageState::Failed,
                    error: Some(error),
                    completed_at: Some(completed),
                    ..old(self).stages@[i as int]
                },
            ));
        }
        skip_all_pending(&mut self.stages);
        Ok(())
    }

    /// Cancels the run now.
    pub fn cancel(&mut self)
        ensures
            exists|updated: Timestamp| #[trigger] run_cancelled(*old(self), *final(self), updated),
    {
        self.cancel_at(utc_now());
    }

    /// Cancels the run at `updated`.
    pub fn cancel_at(&mut self, updated: Timestamp)
        ensures
            run_cancelled(*old(self), *final(self), updated),
    {
        skip_all_pending(&mut self.stages);
        self.state = PipelineRunState::Cancelled;
        self.updated_at = updated;
    }

    /// The outputs of the stages that have one, in order of their names.
    pub fn completed_outputs(&self) -> (r: Vec<(StageId, String)>)
        ensures
            output_views(r@) == outputs_of(self.stages@, self.stages@.len() as int),
    {
        let mut out: Vec<(StageId, String)> = Vec::new();
        let mut i: usize = 0;
        proof {
            assert(output_views(out@) =~= Seq::empty());
        }
        while i < self.stages.len()
            invariant
                i <= self.stages@.len(),
                output_views(out@) == outputs_of(self.stages@, i as int),
            decreases self.stages@.len() - i,
        {
            match &self.stages[i].output {
                Some(o) => {
                    let item = (self.stages[i].stage_id.clone(), o.clone());
                    proof {
                        assert(output_views(out@.push(item)) =~= output_views(out@).push(
                            (item.0@, item.1@),
                        ));
                    }
                    out.push(item);
                },
                None => {},
            }
            i += 1;
        }
        out
    }

    /// The stages that can be started, in order of definition. Only a running
    /// run has any.
    pub fn runnable_stages(&self, pipeline: &Pipeline) -> (r: Vec<StageId>)
        ensures
            self.state == PipelineRunState::Running ==> pipeline::id_views(r@) == runnable_names(
                self.stages@,
                pipeline.stages@,
                pipeline.stages@.len() as int,
            ),
            self.state != PipelineRunState::Running ==> r@.len() == 0,
    {
        let mut out: Vec<StageId> = Vec::new();
        if self.state != PipelineRunState::Running {
            return out;
        }
        let mut i: usize = 0;
        proof {
            assert(pipeline::id_views(out@) =~= Seq::empty());
        }
        while i < pipeline.stages.len()
            invariant
                i <= pipeline.stages@.len(),
                pipeline::id_views(out@) == runnable_names(
                    self.stages@,
                    pipeline.stages@,
                    i as int,
                ),
            decreases pipeline.stages@.len() - i,
        {
            if self.is_startable(&pipeline.stages[i]) {
                let id = pipeline.stages[i].id.clone();
                proof {
                    assert(pipeline::id_views(out@.push(id)) =~= pipeline::id_views(out@).push(
                        id@,
                    ));
                }
                out.push(id);
            }
            i += 1;
        }
        out
    }

    /// Whether the stage can be started.
    fn is_startable(&self, stage: &PipelineStage) -> (r: bool)
        ensures
            r == can_start(self.stages@, *stage),
    {
        match find_run(&self.stages, &stage.id) {
            Some(i) => {
                if self.stages[i].state != StageState::Pending {
                    return false;
                }
            },
            None => {
                return false;
            },
        }
        let mut j: usize = 0;
        while j < stage.depends_on.len()
            invariant
                j <= stage.depends_on@.len(),
                forall|k: int|
                    0 <= k < j ==> run_has_completed(
                        self.stages@,
                        #[trigger] stage.depends_on@[k]@,
                    ),
            decreases stage.depends_on@.len() - j,
        {
            match find_run(&self.stages, &stage.depends_on[j]) {
                Some(i) => {
                    if self.stages[i].state != StageState::Completed {
                        proof {
                            assert(!run_has_completed(
                                self.stages@,
                                stage.depends_on@[j as int]@,
                            ));
                        }
                        return false;
                    }
                },
                None => {
                    proof {
                        assert(!run_has_completed(self.stages@, stage.depends_on@[j as int]@));
                    }
                    return false;
                },
            }
            j += 1;
        }
        true
    }
}

/// What [`PipelineRun::runnable_stages`] lists, [`PipelineRun::start_stage`]
/// accepts.
pub proof fn law_runnable_can_be_started(
    stages: Seq<StageRun>,
    defs: Seq<PipelineStage>,
    d: int,
)
    requires
        0 <= d < defs.len(),
        pipeline::stage_index(defs, defs[d].id@) == d,
        can_start(stages, defs[d]),
    ensures
        start_fault(stages, defs, defs[d].id@) is None,
{
    lemma_no_deps_fault(stages, defs[d].depends_on@, defs[d].id@, 0);
}

proof fn lemma_no_deps_fault(
    stages: Seq<StageRun>,
    deps: Seq<StageId>,
    id: Seq<char>,
    from: int,
)
    requires
        0 <= from,
        forall|j: int| 0 <= j < deps.len() ==> run_has_completed(stages, #[trigger] deps[j]@),
    ensures
        deps_fault(stages, deps, id, from) is None,
    decreases deps.len() - from,
{
    if from < deps.len() {
        assert(run_has_completed(stages, deps[from]@));
        lemma_no_deps_fault(stages, deps, id, from + 1);
    }
}

/// Skipping leaves the outputs, and every stage that is not pending, as they
/// were.
pub proof fn law_skipping_keeps_outputs(stages: Seq<StageRun>, i: int)
    requires
        0 <= i < stages.len(),
    ensures
        all_skipped(stages).len() == stages.len(),
        all_skipped(stages)[i].stage_id == stages[i].stage_id,
        all_skipped(stages)[i].output == stages[i].output,
        stages[i].state != StageState::Pending ==> all_skipped(stages)[i] == stages[i],
{
}

/// Whether a stage was ever started.
pub open spec fn was_started(r: StageRun) -> bool {
    r.state == StageState::Running || r.state == StageState::Completed || r.state
        == StageState::Failed
}

/// Whether all that a stage depends on is completed.
pub open spec fn deps_done(stages: Seq<StageRun>, defs: Seq<PipelineStage>, id: Seq<char>) -> bool {
    let d = pipeline::stage_index(defs, id);
    d < defs.len() && forall|j: int|
        0 <= j < defs[d].depends_on@.len() ==> run_has_completed(
            stages,
            #[trigger] defs[d].depends_on@[j]@,
        )
}

/// Whether some stage failed.
pub open spec fn some_failed(stages: Seq<StageRun>) -> bool {
    exists|i: int| 0 <= i < stages.len() && (#[trigger] stages[i]).state == StageState::Failed
}

/// Whether no stage is pending.
pub open spec fn none_pending(stages: Seq<StageRun>) -> bool {
    forall|i: int| 0 <= i < stages.len() ==> (#[trigger] stages[i]).state != StageState::Pending
}

/// Whether a run is not over: it is pending or running.
pub open spec fn is_open(run: PipelineRun) -> bool {
    run.state == PipelineRunState::Pending || run.state == PipelineRunState::Running
}

/// Whether no stage failed or was skipped, and not all are completed.
pub open spec fn has_more(stages: Seq<StageRun>) -> bool {
    &&& forall|i: int|
        0 <= i < stages.len() ==> (#[trigger] stages[i]).state != StageState::Failed
            && stages[i].state != StageState::Skipped
    &&& stages.len() > 0 ==> !all_done(stages)
}

/// Whether the stages of a run stand as its state says: those of the pipeline,
/// in order of their names; started only with all that they depend on completed;
/// with an output exactly where completed; all completed in a completed run; none
/// pending in one that failed or was cancelled; and in one that is not over, none
/// failed or skipped and some left.
pub open spec fn sound(run: PipelineRun, defs: Seq<PipelineStage>) -> bool {
    let s = run.stages@;
    &&& sorted_runs(s)
    &&& forall|name: Seq<char>| #[trigger] has_run(s, name) <==> pipeline::known(defs, name)
    &&& is_open(run) ==> has_more(s)
    &&& forall|i: int|
        0 <= i < s.len() && was_started(#[trigger] s[i]) ==> deps_done(s, defs, s[i].stage_id@)
    &&& forall|i: int|
        0 <= i < s.len() ==> ((#[trigger] s[i]).output is Some <==> s[i].state
            == StageState::Completed)
    &&& run.state == PipelineRunState::Completed ==> all_done(s)
    &&& run.state == PipelineRunState::Failed ==> some_failed(s) && none_pending(s)
    &&& run.state == PipelineRunState::Cancelled ==> none_pending(s)
}

/// A new run is sound.
pub proof fn law_new_run_is_sound(run: PipelineRun, id: String, p: Pipeline, now: Timestamp)
    requires
        new_run(run, id, p, now),
    ensures
        sound(run, p.stages@),
{
    assert forall|i: int| 0 <= i < run.stages@.len() implies fresh_stage(
        #[trigger] run.stages@[i],
    ) by {}
    if run.stages@.len() > 0 {
        assert(fresh_stage(run.stages@[0]));
    }
}

proof fn lemma_run_at(stages: Seq<StageRun>, id: Seq<char>)
    ensures
        0 <= run_index(stages, id) <= stages.len(),
        run_index(stages, id) < stages.len() ==> stages[run_index(stages, id)].stage_id@ == id,
    decreases stages.len(),
{
    if stages.len() > 0 && stages[0].stage_id@ != id {
        lemma_run_at(stages.skip(1), id);
    }
}

proof fn lemma_stage_at(defs: Seq<PipelineStage>, id: Seq<char>)
    ensures
        0 <= pipeline::stage_index(defs, id) <= defs.len(),
    decreases defs.len(),
{
    if defs.len() > 0 {
        lemma_stage_at(defs.skip(1), id);
    }
}

proof fn lemma_same_names(a: Seq<StageRun>, b: Seq<StageRun>, id: Seq<char>)
    requires
        a.len() == b.len(),
        forall|k: int| 0 <= k < a.len() ==> (#[trigger] a[k]).stage_id == b[k].stage_id,
    ensures
        run_index(a, id) == run_index(b, id),
    decreases a.len(),
{
    if a.len() > 0 {
        assert(a[0].stage_id == b[0].stage_id);
        let (x, y) = (a.skip(1), b.skip(1));
        assert forall|k: int| 0 <= k < x.len() implies (#[trigger] x[k]).stage_id
            == y[k].stage_id by {
            assert(x[k] == a[k + 1] && y[k] == b[k + 1]);
        }
        lemma_same_names(x, y, id);
    }
}

proof fn lemma_met_dependencies(
    stages: Seq<StageRun>,
    deps: Seq<StageId>,
    id: Seq<char>,
    from: int,
)
    requires
        0 <= from,
        deps_fault(stages, deps, id, from) is None,
    ensures
        forall|j: int|
            from <= j < deps.len() ==> run_has_completed(stages, #[trigger] deps[j]@),
    decreases deps.len() - from,
{
    if from < deps.len() {
        lemma_run_at(stages, deps[from]@);
        lemma_met_dependencies(stages, deps, id, from + 1);
    }
}

/// Whether `b` are the stages of `a`, and what was completed still is.
spec fn goes_on(a: Seq<StageRun>, b: Seq<StageRun>) -> bool {
    &&& a.len() == b.len()
    &&& forall|k: int| 0 <= k < a.len() ==> (#[trigger] a[k]).stage_id == b[k].stage_id
    &&& forall|k: int|
        0 <= k < a.len() && (#[trigger] a[k]).state == StageState::Completed ==> b[k].state
            == StageState::Completed
}

proof fn lemma_completed_stays(a: Seq<StageRun>, b: Seq<StageRun>, id: Seq<char>)
    requires
        goes_on(a, b),
        run_has_completed(a, id),
    ensures
        run_has_completed(b, id),
{
    lemma_same_names(a, b, id);
    lemma_run_at(a, id);
    assert(a[run_index(a, id)].state == StageState::Completed);
}

proof fn lemma_dependencies_stay(
    a: Seq<StageRun>,
    b: Seq<StageRun>,
    defs: Seq<PipelineStage>,
    id: Seq<char>,
)
    requires
        goes_on(a, b),
        deps_done(a, defs, id),
    ensures
        deps_done(b, defs, id),
{
    let d = pipeline::stage_index(defs, id);
    assert forall|j: int| 0 <= j < defs[d].depends_on@.len() implies run_has_completed(
        b,
        #[trigger] defs[d].depends_on@[j]@,
    ) by {
        lemma_completed_stays(a, b, defs[d].depends_on@[j]@);
    }
}

proof fn lemma_names_stay(a: Seq<StageRun>, b: Seq<StageRun>)
    requires
        goes_on(a, b),
    ensures
        forall|name: Seq<char>| #[trigger] has_run(b, name) <==> has_run(a, name),
{
    assert forall|name: Seq<char>| #[trigger] has_run(b, name) <==> has_run(a, name) by {
        if has_run(b, name) {
            let i = choose|i: int| 0 <= i < b.len() && (#[trigger] b[i]).stage_id@ == name;
            assert(a[i].stage_id == b[i].stage_id);
        }
        if has_run(a, name) {
            let i = choose|i: int| 0 <= i < a.len() && (#[trigger] a[i]).stage_id@ == name;
            assert(b[i].stage_id@ == name);
        }
    }
}

proof fn lemma_stays_sorted(a: Seq<StageRun>, b: Seq<StageRun>)
    requires
        goes_on(a, b),
        sorted_runs(a),
    ensures
        sorted_runs(b),
{
    assert forall|i: int, j: int| 0 <= i < j < b.len() implies text::lex_lt(
        (#[trigger] b[i]).stage_id@,
        (#[trigger] b[j]).stage_id@,
    ) by {
        assert(a[i].stage_id == b[i].stage_id && a[j].stage_id == b[j].stage_id);
    }
}

proof fn lemma_started_stay_sound(a: Seq<StageRun>, b: Seq<StageRun>, defs: Seq<PipelineStage>)
    requires
        goes_on(a, b),
        forall|i: int|
            0 <= i < a.len() && was_started(#[trigger] b[i]) ==> deps_done(
                a,
                defs,
                a[i].stage_id@,
            ),
    ensures
        forall|i: int|
            0 <= i < b.len() && was_started(#[trigger] b[i]) ==> deps_done(
                b,
                defs,
                b[i].stage_id@,
            ),
{
    assert forall|i: int| 0 <= i < b.len() && was_started(#[trigger] b[i]) implies deps_done(
        b,
        defs,
        b[i].stage_id@,
    ) by {
        assert(a[i].stage_id == b[i].stage_id);
        lemma_dependencies_stay(a, b, defs, a[i].stage_id@);
    }
}

/// Starting a stage keeps a run sound: what it depends on is completed.
pub proof fn law_starting_a_stage_is_sound(
    before: PipelineRun,
    after: PipelineRun,
    fault: Option<PipelineErrorView>,
    defs: Seq<PipelineStage>,
    id: Seq<char>,
    session_id: String,
    started: Timestamp,
    updated: Timestamp,
)
    requires
        sound(before, defs),
        stage_started(before, after, fault, defs, id, session_id, started, updated),
    ensures
        sound(after, defs),
        fault is None ==> deps_done(after.stages@, defs, id),
{
    if fault is None {
        let (a, b) = (before.stages@, after.stages@);
        let i = run_index(a, id);
        let d = pipeline::stage_index(defs, id);
        lemma_run_at(a, id);
        lemma_stage_at(defs, id);
        lemma_met_dependencies(a, defs[d].depends_on@, id, 0);
        assert(deps_done(a, defs, id));
        assert(goes_on(a, b));
        lemma_dependencies_stay(a, b, defs, id);
        lemma_stays_sorted(a, b);
        lemma_names_stay(a, b);
        assert forall|k: int| 0 <= k < a.len() && was_started(#[trigger] b[k]) implies deps_done(
            a,
            defs,
            a[k].stage_id@,
        ) by {
            if k != i {
                assert(b[k] == a[k]);
            }
        }
        lemma_started_stay_sound(a, b, defs);
        assert forall|k: int| 0 <= k < b.len() implies ((#[trigger] b[k]).output is Some
            <==> b[k].state == StageState::Completed) by {
            assert(a[k].output is Some <==> a[k].state == StageState::Completed);
        }
        assert(a[i].state == StageState::Pending);
        assert(b[i].state == StageState::Running);
    }
}

/// Completing a stage keeps a run sound.
pub proof fn law_completing_a_stage_is_sound(
    before: PipelineRun,
    after: PipelineRun,
    fault: Option<PipelineErrorView>,
    defs: Seq<PipelineStage>,
    id: Seq<char>,
    output: String,
    completed: Timestamp,
    updated: Timestamp,
)
    requires
        sound(before, defs),
        stage_completed(before, after, fault, id, output, completed, updated),
    ensures
        sound(after, defs),
{
    if fault is None {
        let (a, b) = (before.stages@, after.stages@);
        let i = run_index(a, id);
        lemma_run_at(a, id);
        assert(was_started(a[i]));
        assert(goes_on(a, b));
        lemma_stays_sorted(a, b);
        lemma_names_stay(a, b);
        assert forall|k: int| 0 <= k < a.len() && was_started(#[trigger] b[k]) implies deps_done(
            a,
            defs,
            a[k].stage_id@,
        ) by {
            assert(was_started(a[k]));
        }
        lemma_started_stay_sound(a, b, defs);
        assert forall|k: int| 0 <= k < b.len() implies ((#[trigger] b[k]).output is Some
            <==> b[k].state == StageState::Completed) by {
            assert(a[k].output is Some <==> a[k].state == StageState::Completed);
        }
        if before.state == PipelineRunState::Failed {
            let k = choose|k: int|
                0 <= k < a.len() && (#[trigger] a[k]).state == StageState::Failed;
            assert(b[k].state == StageState::Failed);
        }
        assert forall|k: int| none_pending(a) && 0 <= k < b.len() implies (#[trigger] b[k]).state
            != StageState::Pending by {
            assert(a[k].state != StageState::Pending);
        }
    }
}

/// A failing stage keeps a run sound: nothing is left pending.
pub proof fn law_failing_a_stage_is_sound(
    before: PipelineRun,
    after: PipelineRun,
    fault: Option<PipelineErrorView>,
    defs: Seq<PipelineStage>,
    id: Seq<char>,
    error: String,
    completed: Timestamp,
    updated: Timestamp,
)
    requires
        sound(before, defs),
        stage_failed(before, after, fault, id, error, completed, updated),
    ensures
        sound(after, defs),
        fault is None ==> none_pending(after.stages@),
{
    if fault is None {
        let (a, b) = (before.stages@, after.stages@);
        let i = run_index(a, id);
        lemma_run_at(a, id);
        assert(was_started(a[i]));
        assert(b[i].state == StageState::Failed);
        assert(goes_on(a, b)) by {
            assert forall|k: int| 0 <= k < a.len() implies (#[trigger] a[k]).stage_id
                == b[k].stage_id by {}
        }
        lemma_stays_sorted(a, b);
        lemma_names_stay(a, b);
        assert forall|k: int| 0 <= k < a.len() && was_started(#[trigger] b[k]) implies deps_done(
            a,
            defs,
            a[k].stage_id@,
        ) by {
            assert(was_started(a[k]));
        }
        lemma_started_stay_sound(a, b, defs);
        assert forall|k: int| 0 <= k < b.len() implies ((#[trigger] b[k]).output is Some
            <==> b[k].state == StageState::Completed) by {
            assert(a[k].output is Some <==> a[k].state == StageState::Completed);
        }
    }
}

/// Starting and cancelling a run keep it sound.
pub proof fn law_starting_and_cancelling_are_sound(
    before: PipelineRun,
    after: PipelineRun,
    fault: Option<PipelineErrorView>,
    defs: Seq<PipelineStage>,
    updated: Timestamp,
)
    requires
        sound(before, defs),
        run_started(before, after, fault, updated) || run_cancelled(before, after, updated),
    ensures
        sound(after, defs),
        run_cancelled(before, after, updated) ==> none_pending(after.stages@),
{
    let (a, b) = (before.stages@, after.stages@);
    if run_cancelled(before, after, updated) {
        assert forall|k: int| 0 <= k < a.len() implies #[trigger] b[k] == skip_pending(a[k]) by {}
        assert(goes_on(a, b)) by {
            assert forall|k: int| 0 <= k < a.len() implies (#[trigger] a[k]).stage_id
                == b[k].stage_id by {
                assert(b[k] == skip_pending(a[k]));
            }
            assert forall|k: int|
                0 <= k < a.len() && (#[trigger] a[k]).state == StageState::Completed implies b[k].state
                == StageState::Completed by {
                assert(b[k] == skip_pending(a[k]));
            }
        }
        lemma_stays_sorted(a, b);
        lemma_names_stay(a, b);
        assert forall|k: int| 0 <= k < a.len() && was_started(#[trigger] b[k]) implies deps_done(
            a,
            defs,
            a[k].stage_id@,
        ) by {
            assert(was_started(a[k]));
        }
        lemma_started_stay_sound(a, b, defs);
        assert forall|k: int| 0 <= k < b.len() implies ((#[trigger] b[k]).output is Some
            <==> b[k].state == StageState::Completed) by {
            assert(a[k].output is Some <==> a[k].state == StageState::Completed);
        }
    }
}

proof fn lemma_some_runnable(
    stages: Seq<StageRun>,
    defs: Seq<PipelineStage>,
    open: int,
    p: int,
) -> (d: int)
    requires
        pipeline::sorted_stages(defs) is Ok,
        forall|name: Seq<char>| #[trigger] has_run(stages, name) <==> pipeline::known(defs, name),
        forall|i: int|
            0 <= i < stages.len() ==> (#[trigger] stages[i]).state == StageState::Pending
                || stages[i].state == StageState::Completed,
        0 <= open < defs.len(),
        !run_has_completed(stages, defs[open].id@),
        0 <= p <= defs.len(),
        forall|q: int|
            0 <= q < p ==> run_has_completed(
                stages,
                defs[#[trigger] pipeline::run_order(defs)[q]].id@,
            ),
    ensures
        0 <= d < defs.len(),
        can_start(stages, defs[d]),
    decreases defs.len() - p,
{
    let order = pipeline::run_order(defs);
    pipeline::law_order_respects_dependencies(defs);
    pipeline::law_order_is_whole(defs, open);
    let at = choose|at: int| 0 <= at < order.len() && order[at] == open;
    assert(order[at] == open);
    assert(p < defs.len());
    let d = order[p];
    if run_has_completed(stages, defs[d].id@) {
        lemma_some_runnable(stages, defs, open, p + 1)
    } else {
        assert(pipeline::ready(defs, order.take(p), order[p]));
        assert(pipeline::known(defs, defs[d].id@));
        assert(has_run(stages, defs[d].id@));
        lemma_run_found(stages, defs[d].id@);
        assert forall|j: int| 0 <= j < defs[d].depends_on@.len() implies run_has_completed(
            stages,
            #[trigger] defs[d].depends_on@[j]@,
        ) by {
            let dep = defs[d].depends_on@[j]@;
            assert(pipeline::dep_met(defs, order.take(p), dep));
            let k = choose|k: int| #[trigger]
                order.take(p).contains(k) && 0 <= k < defs.len() && defs[k].id@ == dep;
            let q = choose|q: int| 0 <= q < order.take(p).len() && order.take(p)[q] == k;
            assert(order[q] == k);
        }
        d
    }
}

proof fn lemma_run_found(stages: Seq<StageRun>, id: Seq<char>)
    requires
        has_run(stages, id),
    ensures
        0 <= run_index(stages, id) < stages.len(),
    decreases stages.len(),
{
    let i = choose|i: int| 0 <= i < stages.len() && (#[trigger] stages[i]).stage_id@ == id;
    if i > 0 {
        assert(stages.skip(1)[i - 1] == stages[i]);
        lemma_run_found(stages.skip(1), id);
    }
}

proof fn lemma_runnable_listed(
    stages: Seq<StageRun>,
    defs: Seq<PipelineStage>,
    d: int,
    n: int,
)
    requires
        0 <= d < n <= defs.len(),
        can_start(stages, defs[d]),
    ensures
        runnable_names(stages, defs, n).contains(defs[d].id@),
    decreases n,
{
    let front = runnable_names(stages, defs, n - 1);
    if d < n - 1 {
        lemma_runnable_listed(stages, defs, d, n - 1);
        let k = choose|k: int| 0 <= k < front.len() && front[k] == defs[d].id@;
        assert(runnable_names(stages, defs, n)[k] == defs[d].id@);
    } else {
        assert(runnable_names(stages, defs, n)[front.len() as int] == defs[d].id@);
    }
}

/// A run of a valid pipeline is never stuck: while it is not over, a stage is
/// running or one can be started.
pub proof fn law_valid_pipeline_is_never_stuck(run: PipelineRun, defs: Seq<PipelineStage>)
    requires
        pipeline::pipeline_fault(defs) is None,
        sound(run, defs),
        is_open(run),
    ensures
        runnable_names(run.stages@, defs, defs.len() as int).len() > 0 || exists|i: int|
            0 <= i < run.stages@.len() && (#[trigger] run.stages@[i]).state == StageState::Running,
{
    let stages = run.stages@;
    if forall|i: int|
        0 <= i < stages.len() ==> (#[trigger] stages[i]).state != StageState::Running {
        assert(pipeline::known(defs, defs[0].id@));
        assert(has_run(stages, defs[0].id@));
        assert(stages.len() > 0);
        let i = choose|i: int|
            0 <= i < stages.len() && (#[trigger] stages[i]).state != StageState::Completed;
        let name = stages[i].stage_id@;
        assert(has_run(stages, name));
        let k = choose|k: int| 0 <= k < defs.len() && (#[trigger] defs[k]).id@ == name;
        assert forall|j: int| 0 <= j < i implies (#[trigger] stages[j]).stage_id@ != name by {
            assert(text::lex_lt(stages[j].stage_id@, stages[i].stage_id@));
            text::lemma_lex_irreflexive(name);
        }
        lemma_run_index(stages, name, i);
        assert forall|j: int| 0 <= j < stages.len() implies (#[trigger] stages[j]).state
            == StageState::Pending || stages[j].state == StageState::Completed by {
            assert(stages[j].state != StageState::Running);
        }
        let d = lemma_some_runnable(stages, defs, k, 0);
        lemma_runnable_listed(stages, defs, d, defs.len() as int);
    }
}

} // verus!
