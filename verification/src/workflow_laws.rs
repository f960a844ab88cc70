//! What requests do to the execution of a workflow.

use vstd::prelude::*;
use crate::json::Json;
use crate::time::Timestamp;
use crate::workflow;
use crate::workflow::{
    StepExecution, StepState, WorkflowDefinition, WorkflowErrorView, WorkflowExecution,
    WorkflowState, WorkflowStep,
};

verus! {

/// Whether an execution runs and its current step is in `state`.
pub open spec fn current_is(x: WorkflowExecution, state: StepState) -> bool {
    &&& x.state == WorkflowState::Running
    &&& x.current_step_index < x.steps@.len()
    &&& x.steps@[x.current_step_index as int].state == state
}

/// Whether two executions differ in nothing but their steps, the current one and
/// their state.
pub open spec fn same_execution(a: WorkflowExecution, b: WorkflowExecution) -> bool {
    &&& a.id == b.id
    &&& a.definition_id == b.definition_id
    &&& a.rivet_workflow_id == b.rivet_workflow_id
    &&& a.created_at == b.created_at
    &&& a.steps@.len() == b.steps@.len()
}

/// Whether two lists of steps differ at most in step `i`.
pub open spec fn same_but(a: Seq<StepExecution>, b: Seq<StepExecution>, i: int) -> bool {
    a.len() == b.len() && forall|j: int| 0 <= j < a.len() && j != i ==> #[trigger] a[j] == b[j]
}

/// An execution starts once: it runs then, and its steps are as they were.
pub proof fn law_starting(
    before: WorkflowExecution,
    after: WorkflowExecution,
    fault: Option<WorkflowErrorView>,
    updated: Timestamp,
)
    requires
        workflow::started(before, after, fault, updated),
    ensures
        fault is None <==> before.state == WorkflowState::Pending,
        fault is None ==> after.state == WorkflowState::Running && after.steps == before.steps
            && after.current_step_index == before.current_step_index && same_execution(
            after,
            before,
        ),
        fault is Some ==> after == before && fault == Some(WorkflowErrorView::AlreadyTerminal),
{
}

/// The current step is begun where it is pending: it runs, with one attempt more,
/// and all else stays.
pub proof fn law_beginning_a_step(
    before: WorkflowExecution,
    after: WorkflowExecution,
    fault: Option<WorkflowErrorView>,
    at: Timestamp,
    updated: Timestamp,
)
    requires
        workflow::step_begun(before, after, fault, at, updated),
    ensures
        fault is None <==> current_is(before, StepState::Pending),
        fault is Some ==> after == before,
        fault is None ==> {
            let i = before.current_step_index as int;
            let (s, t) = (before.steps@[i], after.steps@[i]);
            &&& same_execution(after, before) && same_but(after.steps@, before.steps@, i)
            &&& after.current_step_index == i
            &&& after.state == WorkflowState::Running
            &&& t.state == StepState::Running
            &&& s.attempts < u32::MAX ==> t.attempts == s.attempts + 1
            &&& t.started_at == Some(at)
            &&& t.step_id == s.step_id && t.output == s.output && t.error == s.error
        },
{
}

/// The current step is completed where it runs or waits: its output is kept, the
/// next step is the current one, and with the last the execution is completed.
pub proof fn law_completing_a_step(
    before: WorkflowExecution,
    after: WorkflowExecution,
    fault: Option<WorkflowErrorView>,
    output: Json,
    at: Timestamp,
    updated: Timestamp,
)
    requires
        workflow::step_completed(before, after, fault, output, at, updated),
    ensures
        fault is None <==> (current_is(before, StepState::Running) || current_is(
            before,
            StepState::WaitingForSignal,
        ) || current_is(before, StepState::WaitingForDelay)),
        fault is Some ==> after == before,
        fault is None ==> {
            let i = before.current_step_index as int;
            let (s, t) = (before.steps@[i], after.steps@[i]);
            &&& same_execution(after, before) && same_but(after.steps@, before.steps@, i)
            &&& t.state == StepState::Completed
            &&& t.output == Some(output)
            &&& t.completed_at == Some(at)
            &&& t.step_id == s.step_id && t.attempts == s.attempts
            &&& i < usize::MAX ==> after.current_step_index == i + 1
            &&& i + 1 == before.steps@.len() ==> after.state == WorkflowState::Completed
            &&& i + 1 < before.steps@.len() ==> after.state == WorkflowState::Running
        },
{
}

/// The current step fails where it runs. While it has not been tried more often
/// than it has retries it is pending again, and the execution runs on; else it
/// has failed, and so has the execution, and every step behind it is skipped. A
/// step that the definition does not have has no retries.
pub proof fn law_failing_a_step(
    before: WorkflowExecution,
    after: WorkflowExecution,
    fault: Option<WorkflowErrorView>,
    error: String,
    d: WorkflowDefinition,
    at: Timestamp,
    updated: Timestamp,
)
    requires
        workflow::step_failed(before, after, fault, error, d, at, updated),
    ensures
        fault is None <==> current_is(before, StepState::Running),
        fault is Some ==> after == before,
        fault is None ==> {
            let i = before.current_step_index as int;
            let (s, t) = (before.steps@[i], after.steps@[i]);
            let again = if i < d.steps@.len() {
                s.attempts <= d.steps@[i].retry_count
            } else {
                s.attempts == 0
            };
            &&& same_execution(after, before)
            &&& after.current_step_index == i
            &&& t.error == Some(error)
            &&& t.step_id == s.step_id && t.attempts == s.attempts
            &&& again ==> {
                &&& t.state == StepState::Pending
                &&& after.state == WorkflowState::Running
                &&& same_but(after.steps@, before.steps@, i)
            }
            &&& !again ==> {
                &&& t.state == StepState::Failed
                &&& t.completed_at == Some(at)
                &&& after.state == WorkflowState::Failed
                &&& forall|j: int| 0 <= j < i ==> #[trigger] after.steps@[j] == before.steps@[j]
                &&& forall|j: int|
                    i < j < after.steps@.len() ==> (#[trigger] after.steps@[j]).state
                        == StepState::Skipped
            }
        },
{
}

/// A running step can wait for a signal: the execution is paused then. A signal
/// is taken only by a paused execution.
pub proof fn law_pausing(
    before: WorkflowExecution,
    after: WorkflowExecution,
    fault: Option<WorkflowErrorView>,
    updated: Timestamp,
)
    requires
        workflow::paused(before, after, fault, updated),
    ensures
        fault is None <==> current_is(before, StepState::Running),
        fault is Some ==> after == before,
        fault is None ==> {
            let i = before.current_step_index as int;
            &&& same_execution(after, before) && same_but(after.steps@, before.steps@, i)
            &&& after.current_step_index == i
            &&& after.state == WorkflowState::Paused
            &&& after.steps@[i].state == StepState::WaitingForSignal
            &&& after.steps@[i].attempts == before.steps@[i].attempts
        },
{
}

/// A signal that comes while the execution is not paused changes nothing.
pub proof fn law_unwanted_signal(
    before: WorkflowExecution,
    after: WorkflowExecution,
    fault: Option<WorkflowErrorView>,
    output: Json,
    at: Timestamp,
    updated: Timestamp,
)
    requires
        workflow::resumed(before, after, fault, output, at, updated),
        before.state != WorkflowState::Paused,
    ensures
        fault == Some(WorkflowErrorView::NotRunning),
        after == before,
{
}

/// Cancelling skips what is pending or waits for a signal, and leaves every other
/// step.
pub proof fn law_cancelling(before: WorkflowExecution, after: WorkflowExecution, updated: Timestamp)
    requires
        workflow::cancelled(before, after, updated),
    ensures
        after.state == WorkflowState::Cancelled,
        same_execution(after, before),
        after.current_step_index == before.current_step_index,
        forall|j: int|
            0 <= j < after.steps@.len() ==> {
                let s = before.steps@[j];
                if s.state == StepState::Pending || s.state == StepState::WaitingForSignal {
                    #[trigger] after.steps@[j] == (StepExecution {
                        state: StepState::Skipped,
                        ..s
                    })
                } else {
                    after.steps@[j] == s
                }
            },
{
}

/// The progress is the number of completed steps.
pub proof fn law_progress(steps: Seq<StepExecution>)
    ensures
        workflow::completed_count(steps, steps.len() as int) == steps.filter(
            |s: StepExecution| s.state == StepState::Completed,
        ).len(),
    decreases steps.len(),
{
    reveal(Seq::filter);
    if steps.len() > 0 {
        law_progress(steps.drop_last());
        lemma_count_front(steps, steps.len() - 1);
    }
}

proof fn lemma_count_front(steps: Seq<StepExecution>, n: int)
    requires
        0 <= n < steps.len(),
    ensures
        workflow::completed_count(steps, n) == workflow::completed_count(steps.drop_last(), n),
    decreases n,
{
    if n > 0 {
        lemma_count_front(steps, n - 1);
    }
}

/// A step is found by its name: the first that has it.
pub proof fn law_step_is_found(steps: Seq<WorkflowStep>, name: Seq<char>, i: int)
    requires
        0 <= i <= steps.len(),
        forall|j: int| 0 <= j < i ==> (#[trigger] steps[j]).id@ != name,
        i < steps.len() ==> steps[i].id@ == name,
    ensures
        workflow::first_step(steps, name) == i,
{
    workflow::lemma_first_step(steps, name, i);
}

/// A new execution waits at its first step, and has a step for each of the
/// definition, none of them tried.
pub proof fn law_new_execution(
    x: WorkflowExecution,
    id: String,
    d: WorkflowDefinition,
    now: Timestamp,
    i: int,
)
    requires
        workflow::new_execution(x, id, d, now),
        0 <= i < d.steps@.len(),
    ensures
        x.state == WorkflowState::Pending,
        x.current_step_index == 0,
        x.steps@.len() == d.steps@.len(),
        x.steps@[i].step_id == d.steps@[i].id,
        x.steps@[i].state == StepState::Pending,
        x.steps@[i].attempts == 0,
        x.steps@[i].output is None && x.steps@[i].error is None,
{
}

} // verus!
