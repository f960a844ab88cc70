//! Workflows: steps that run one after the other.

use vstd::prelude::*;
use vstd::string::*;
use crate::agent::AgentType;
use crate::json::Json;
use crate::text;
use crate::time::{utc_now, Timestamp};

verus! {

/// The name of a step.
#[derive(PartialEq, Eq, Hash, Debug)]
pub struct StepId(pub String);

impl View for StepId {
    type V = Seq<char>;

    open spec fn view(&self) -> Seq<char> {
        self.0@
    }
}

impl Clone for StepId {
    fn clone(&self) -> (r: Self)
        ensures
            r == *self,
    {
        StepId(self.0.clone())
    }
}

impl StepId {
    /// The step name `id`.
    pub fn new(id: &str) -> (r: Self)
        ensures
            r@ == id@,
    {
        StepId(id.to_owned())
    }

    /// The name as text.
    pub fn as_str(&self) -> (r: &str)
        ensures
            r@ == self@,
    {
        self.0.as_str()
    }
}

/// What a step does.
#[derive(Clone, PartialEq, Eq, Debug)]
pub enum StepAction {
    RunAgent { agent_type: AgentType, prompt: String },
    Checkpoint { label: String },
    WaitForSignal { signal_name: String },
    Delay { seconds: u64 },
}

/// One step of a workflow.
#[derive(Clone, PartialEq, Eq, Debug)]
pub struct WorkflowStep {
    pub id: StepId,
    pub action: StepAction,
    pub timeout_seconds: Option<u64>,
    pub retry_count: u32,
}

impl WorkflowStep {
    /// A step that runs an agent.
    pub fn agent(id: &str, agent_type: AgentType, prompt: &str) -> (r: Self)
        ensures
            r.id@ == id@,
            r.action matches StepAction::RunAgent { agent_type: a, prompt: p } && a == agent_type
                && p@ == prompt@,
            r.timeout_seconds is None,
            r.retry_count == 0,
    {
        WorkflowStep {
            id: StepId::new(id),
            action: StepAction::RunAgent { agent_type, prompt: prompt.to_owned() },
            timeout_seconds: None,
            retry_count: 0,
        }
    }

    /// A step that takes a checkpoint.
    pub fn checkpoint(id: &str, label: &str) -> (r: Self)
        ensures
            r.id@ == id@,
            r.action matches StepAction::Checkpoint { label: l } && l@ == label@,
            r.timeout_seconds is None,
            r.retry_count == 0,
    {
        WorkflowStep {
            id: StepId::new(id),
            action: StepAction::Checkpoint { label: label.to_owned() },
            timeout_seconds: None,
            retry_count: 0,
        }
    }

    /// A step that waits for a signal.
    pub fn wait_signal(id: &str, signal_name: &str) -> (r: Self)
        ensures
            r.id@ == id@,
            r.action matches StepAction::WaitForSignal { signal_name: n } && n@ == signal_name@,
            r.timeout_seconds is None,
            r.retry_count == 0,
    {
        WorkflowStep {
            id: StepId::new(id),
            action: StepAction::WaitForSignal { signal_name: signal_name.to_owned() },
            timeout_seconds: None,
            retry_count: 0,
        }
    }

    /// A step that waits for a time.
    pub fn delay(id: &str, seconds: u64) -> (r: Self)
        ensures
            r.id@ == id@,
            r.action == (StepAction::Delay { seconds }),
            r.timeout_seconds is None,
            r.retry_count == 0,
    {
        WorkflowStep {
            id: StepId::new(id),
            action: StepAction::Delay { seconds },
            timeout_seconds: None,
            retry_count: 0,
        }
    }

    /// The step with a time limit.
    pub fn with_timeout(self, seconds: u64) -> (r: Self)
        ensures
            r == (WorkflowStep { timeout_seconds: Some(seconds), ..self }),
    {
        WorkflowStep { timeout_seconds: Some(seconds), ..self }
    }

    /// The step with a number of retries.
    pub fn with_retries(self, count: u32) -> (r: Self)
        ensures
            r == (WorkflowStep { retry_count: count, ..self }),
    {
        WorkflowStep { retry_count: count, ..self }
    }
}

/// A named list of steps.
#[derive(Clone, Debug)]
pub struct WorkflowDefinition {
    pub id: String,
    pub name: String,
    pub steps: Vec<WorkflowStep>,
    pub workspace_id: String,
}

/// The position of the first step called `id`, or the number of steps.
pub open spec fn first_step(steps: Seq<WorkflowStep>, id: Seq<char>) -> int
    decreases steps.len(),
{
    if steps.len() == 0 {
        0
    } else if steps[0].id@ == id {
        0
    } else {
        1 + first_step(steps.skip(1), id)
    }
}

pub proof fn lemma_first_step(steps: Seq<WorkflowStep>, id: Seq<char>, i: int)
    requires
        0 <= i <= steps.len(),
        forall|j: int| 0 <= j < i ==> (#[trigger] steps[j]).id@ != id,
        i < steps.len() ==> steps[i].id@ == id,
    ensures
        first_step(steps, id) == i,
    decreases steps.len(),
{
    if i > 0 {
        let rest = steps.skip(1);
        assert(steps[0].id@ != id);
        assert forall|j: int| 0 <= j < i - 1 implies (#[trigger] rest[j]).id@ != id by {
            assert(rest[j] == steps[j + 1]);
        }
        lemma_first_step(rest, id, i - 1);
    }
}

impl WorkflowDefinition {
    /// A workflow without steps.
    pub fn new(id: &str, name: &str, workspace_id: &str) -> (r: Self)
        ensures
            r.id@ == id@,
            r.name@ == name@,
            r.workspace_id@ == workspace_id@,
            r.steps@.len() == 0,
    {
        WorkflowDefinition {
            id: id.to_owned(),
            name: name.to_owned(),
            steps: Vec::new(),
            workspace_id: workspace_id.to_owned(),
        }
    }

    /// Adds a step behind the others.
    pub fn add_step(&mut self, step: WorkflowStep)
        ensures
            final(self).steps@ == old(self).steps@.push(step),
            *final(self) == (WorkflowDefinition { steps: final(self).steps, ..*old(self) }),
    {
        self.steps.push(step);
    }

    /// The first step called `id`.
    pub fn step(&self, id: &StepId) -> (r: Option<&WorkflowStep>)
        ensures
            match r {
                Some(s) => first_step(self.steps@, id@) < self.steps@.len() && *s
                    == self.steps@[first_step(self.steps@, id@)],
                None => first_step(self.steps@, id@) == self.steps@.len(),
            },
    {
        match self.step_index(id) {
            Some(i) => Some(&self.steps[i]),
            None => None,
        }
    }

    /// The position of the first step called `id`.
    pub fn step_index(&self, id: &StepId) -> (r: Option<usize>)
        ensures
            match r {
                Some(i) => i == first_step(self.steps@, id@) && i < self.steps@.len(),
                None => first_step(self.steps@, id@) == self.steps@.len(),
            },
    {
        let mut i: usize = 0;
        while i < self.steps.len()
            invariant
                i <= self.steps@.len(),
                forall|j: int| 0 <= j < i ==> (#[trigger] self.steps@[j]).id@ != id@,
            decreases self.steps@.len() - i,
        {
            if text::str_eq(self.steps[i].id.as_str(), id.as_str()) {
                proof {
                    lemma_first_step(self.steps@, id@, i as int);
                }
                return Some(i);
            }
            i += 1;
        }
        proof {
            lemma_first_step(self.steps@, id@, self.steps@.len() as int);
        }
        None
    }
}

/// The state of a step within an execution.
#[derive(Clone, Copy, PartialEq, Eq, Structural, Debug)]
pub enum StepState {
    Pending,
    Running,
    Completed,
    Failed,
    Skipped,
    WaitingForSignal,
    WaitingForDelay,
}

/// The name of a step's state.
pub open spec fn step_state_text(s: StepState) -> Seq<char> {
    match s {
        StepState::Pending => "pending"@,
        StepState::Running => "running"@,
        StepState::Completed => "completed"@,
        StepState::Failed => "failed"@,
        StepState::Skipped => "skipped"@,
        StepState::WaitingForSignal => "waiting_for_signal"@,
        StepState::WaitingForDelay => "waiting_for_delay"@,
    }
}

impl StepState {
    /// The name of the state.
    pub fn as_str(&self) -> (r: &'static str)
        ensures
            r@ == step_state_text(*self),
    {
        match self {
            StepState::Pending => "pending",
            StepState::Running => "running",
            StepState::Completed => "completed",
            StepState::Failed => "failed",
            StepState::Skipped => "skipped",
            StepState::WaitingForSignal => "waiting_for_signal",
            StepState::WaitingForDelay => "waiting_for_delay",
        }
    }
}

/// The state of an execution.
#[derive(Clone, Copy, PartialEq, Eq, Structural, Debug)]
pub enum WorkflowState {
    Pending,
    Running,
    Completed,
    Failed,
    Cancelled,
    Paused,
}

impl WorkflowState {
    /// The name of the state.
    pub fn as_str(&self) -> (r: &'static str)
        ensures
            r@ == (match *self {
                WorkflowState::Pending => "pending"@,
                WorkflowState::Running => "running"@,
                WorkflowState::Completed => "completed"@,
                WorkflowState::Failed => "failed"@,
                WorkflowState::Cancelled => "cancelled"@,
                WorkflowState::Paused => "paused"@,
            }),
    {
        match self {
            WorkflowState::Pending => "pending",
            WorkflowState::Running => "running",
            WorkflowState::Completed => "completed",
            WorkflowState::Failed => "failed",
            WorkflowState::Cancelled => "cancelled",
            WorkflowState::Paused => "paused",
        }
    }
}

/// Why a request to an execution is refused.
#[derive(Clone, PartialEq, Eq, Debug)]
pub enum WorkflowError {
    StepNotFound(StepId),
    InvalidTransition { step: StepId, from: StepState, event: &'static str },
    AlreadyTerminal,
    NotRunning,
}

/// The model of [`WorkflowError`].
#[verifier::ext_equal]
pub enum WorkflowErrorView {
    StepNotFound(Seq<char>),
    InvalidTransition { step: Seq<char>, from: StepState, event: Seq<char> },
    AlreadyTerminal,
    NotRunning,
}

impl View for WorkflowError {
    type V = WorkflowErrorView;

    open spec fn view(&self) -> WorkflowErrorView {
        match *self {
            WorkflowError::StepNotFound(id) => WorkflowErrorView::StepNotFound(id@),
            WorkflowError::InvalidTransition {
                step,
                from,
                event,
            } => WorkflowErrorView::InvalidTransition { step: step@, from, event: event@ },
            WorkflowError::AlreadyTerminal => WorkflowErrorView::AlreadyTerminal,
            WorkflowError::NotRunning => WorkflowErrorView::NotRunning,
        }
    }
}

impl WorkflowError {
    /// The message of the error.
    pub fn message(&self) -> (r: String)
        ensures
            r@ == (match self@ {
                WorkflowErrorView::StepNotFound(id) => "step not found: "@ + id,
                WorkflowErrorView::InvalidTransition { step, from, event } => "invalid "@ + event
                    + " for step "@ + step + " in state "@ + step_state_text(from),
                WorkflowErrorView::AlreadyTerminal => "workflow already in terminal state"@,
                WorkflowErrorView::NotRunning => "workflow is not running"@,
            }),
    {
        match self {
            WorkflowError::StepNotFound(id) => text::concat2("step not found: ", id.as_str()),
            WorkflowError::InvalidTransition { step, from, event } => {
                let mut s = text::concat4("invalid ", event, " for step ", step.as_str());
                s.append(" in state ");
                s.append(from.as_str());
                s
            },
            WorkflowError::AlreadyTerminal => "workflow already in terminal state".to_owned(),
            WorkflowError::NotRunning => "workflow is not running".to_owned(),
        }
    }
}

/// One step of an execution.
#[derive(Clone, Debug)]
pub struct StepExecution {
    pub step_id: StepId,
    pub state: StepState,
    pub output: Option<Json>,
    pub error: Option<String>,
    pub attempts: u32,
    pub started_at: Option<Timestamp>,
    pub completed_at: Option<Timestamp>,
}

/// An execution of a workflow.
#[derive(Clone, Debug)]
pub struct WorkflowExecution {
    pub id: String,
    pub definition_id: String,
    pub rivet_workflow_id: Option<String>,
    pub state: WorkflowState,
    pub current_step_index: usize,
    pub steps: Vec<StepExecution>,
    pub created_at: Timestamp,
    pub updated_at: Timestamp,
}

/// Whether `x` is a new execution of the definition: its steps in order, all
/// pending and never tried.
pub open spec fn new_execution(
    x: WorkflowExecution,
    id: String,
    d: WorkflowDefinition,
    now: Timestamp,
) -> bool {
    &&& x.id == id
    &&& x.definition_id == d.id
    &&& x.rivet_workflow_id is None
    &&& x.state == WorkflowState::Pending
    &&& x.current_step_index == 0
    &&& x.created_at == now
    &&& x.updated_at == now
    &&& x.steps@.len() == d.steps@.len()
    &&& forall|i: int|
        0 <= i < x.steps@.len() ==> (#[trigger] x.steps@[i]) == (StepExecution {
            step_id: d.steps@[i].id,
            state: StepState::Pending,
            output: None,
            error: None,
            attempts: 0,
            started_at: None,
            completed_at: None,
        })
}

/// The view of the result of a request.
pub open spec fn fault_of(r: Result<(), WorkflowError>) -> Option<WorkflowErrorView> {
    match r {
        Ok(_) => None,
        Err(e) => Some(e@),
    }
}

/// The view of the result of beginning a step.
pub open spec fn begin_fault_of(r: Result<StepId, WorkflowError>) -> Option<WorkflowErrorView> {
    match r {
        Ok(_) => None,
        Err(e) => Some(e@),
    }
}

/// Why the current step cannot take `event`, if it cannot: the execution must
/// run, have a current step, and that must be in a state that `allowed` holds
/// of.
pub open spec fn step_fault(
    x: WorkflowExecution,
    event: Seq<char>,
    allowed: spec_fn(StepState) -> bool,
) -> Option<WorkflowErrorView> {
    if x.state != WorkflowState::Running {
        Some(WorkflowErrorView::NotRunning)
    } else if x.current_step_index >= x.steps@.len() {
        Some(WorkflowErrorView::StepNotFound("__out_of_bounds__"@))
    } else {
        let s = x.steps@[x.current_step_index as int];
        if !allowed(s.state) {
            Some(
                WorkflowErrorView::InvalidTransition { step: s.step_id@, from: s.state, event },
            )
        } else {
            None
        }
    }
}

/// What starting an execution does.
pub open spec fn started(
    before: WorkflowExecution,
    after: WorkflowExecution,
    fault: Option<WorkflowErrorView>,
    updated: Timestamp,
) -> bool {
    if before.state != WorkflowState::Pending {
        fault == Some(WorkflowErrorView::AlreadyTerminal) && after == before
    } else {
        fault is None && after == (WorkflowExecution {
            state: WorkflowState::Running,
            updated_at: updated,
            ..before
        })
    }
}

/// What beginning the current step does: it runs, and counts an attempt.
pub open spec fn step_begun(
    before: WorkflowExecution,
    after: WorkflowExecution,
    fault: Option<WorkflowErrorView>,
    at: Timestamp,
    updated: Timestamp,
) -> bool {
    let i = before.current_step_index as int;
    &&& fault == step_fault(before, "begin_step"@, |s: StepState| s == StepState::Pending)
    &&& fault is Some ==> after == before
    &&& fault is None ==> {
        &&& after.steps@ == before.steps@.update(
            i,
            StepExecution {
                state: StepState::Running,
                attempts: (before.steps@[i].attempts + 1) as u32,
                started_at: Some(at),
                ..before.steps@[i]
            },
        )
        &&& after == (WorkflowExecution { steps: after.steps, updated_at: updated, ..before })
    }
}

/// Whether a step in state `s` can be completed.
pub open spec fn completable(s: StepState) -> bool {
    s == StepState::Running || s == StepState::WaitingForSignal || s == StepState::WaitingForDelay
}

/// What completing the current step does: the next one becomes current, and
/// with the last one the execution is completed.
pub open spec fn step_completed(
    before: WorkflowExecution,
    after: WorkflowExecution,
    fault: Option<WorkflowErrorView>,
    output: Json,
    at: Timestamp,
    updated: Timestamp,
) -> bool {
    let i = before.current_step_index as int;
    &&& fault == step_fault(before, "complete_step"@, |s: StepState| completable(s))
    &&& fault is Some ==> after == before
    &&& fault is None ==> {
        &&& after.steps@ == before.steps@.update(
            i,
            StepExecution {
                state: StepState::Completed,
                output: Some(output),
                completed_at: Some(at),
                ..before.steps@[i]
            },
        )
        &&& after == (WorkflowExecution {
            steps: after.steps,
            updated_at: updated,
            current_step_index: (i + 1) as usize,
            state: if i + 1 >= before.steps@.len() {
                WorkflowState::Completed
            } else {
                WorkflowState::Running
            },
            ..before
        })
    }
}

/// The number of retries that step `i` is granted.
pub open spec fn retries_of(d: WorkflowDefinition, i: int) -> u32 {
    if i < d.steps@.len() {
        d.steps@[i].retry_count
    } else {
        0
    }
}

/// The steps, those from `from` on skipped.
pub open spec fn skipped_from(steps: Seq<StepExecution>, from: int) -> Seq<StepExecution> {
    steps.map(
        |i: int, s: StepExecution|
            if i >= from {
                StepExecution { state: StepState::Skipped, ..s }
            } else {
                s
            },
    )
}

/// What a failing step does: while attempts do not exceed the retries it is
/// pending again; else the execution fails and what is left is skipped.
pub open spec fn step_failed(
    before: WorkflowExecution,
    after: WorkflowExecution,
    fault: Option<WorkflowErrorView>,
    error: String,
    d: WorkflowDefinition,
    at: Timestamp,
    updated: Timestamp,
) -> bool {
    let i = before.current_step_index as int;
    let s = before.steps@[i];
    &&& fault == step_fault(before, "fail_step"@, |s: StepState| s == StepState::Running)
    &&& fault is Some ==> after == before
    &&& fault is None && s.attempts <= retries_of(d, i) ==> {
        &&& after.steps@ == before.steps@.update(
            i,
            StepExecution { state: StepState::Pending, error: Some(error), ..s },
        )
        &&& after == (WorkflowExecution { steps: after.steps, updated_at: updated, ..before })
    }
    &&& fault is None && s.attempts > retries_of(d, i) ==> {
        &&& after.steps@ == skipped_from(
            before.steps@.update(
                i,
                StepExecution {
                    state: StepState::Failed,
                    error: Some(error),
                    completed_at: Some(at),
                    ..s
                },
            ),
            i + 1,
        )
        &&& after == (WorkflowExecution {
            steps: after.steps,
            state: WorkflowState::Failed,
            updated_at: updated,
            ..before
        })
    }
}

/// What pausing at a signal does.
pub open spec fn paused(
    before: WorkflowExecution,
    after: WorkflowExecution,
    fault: Option<WorkflowErrorView>,
    updated: Timestamp,
) -> bool {
    let i = before.current_step_index as int;
    &&& fault == step_fault(before, "pause_at_signal"@, |s: StepState| s == StepState::Running)
    &&& fault is Some ==> after == before
    &&& fault is None ==> {
        &&& after.steps@ == before.steps@.update(
            i,
            StepExecution { state: StepState::WaitingForSignal, ..before.steps@[i] },
        )
        &&& after == (WorkflowExecution {
            steps: after.steps,
            state: WorkflowState::Paused,
            updated_at: updated,
            ..before
        })
    }
}

/// What a signal does to a paused execution: it runs again, and its current
/// step is completed with what the signal carries. The execution runs again
/// even where that step cannot be completed.
pub open spec fn resumed(
    before: WorkflowExecution,
    after: WorkflowExecution,
    fault: Option<WorkflowErrorView>,
    output: Json,
    at: Timestamp,
    updated: Timestamp,
) -> bool {
    if before.state != WorkflowState::Paused {
        fault == Some(WorkflowErrorView::NotRunning) && after == before
    } else {
        step_completed(
            WorkflowExecution { state: WorkflowState::Running, ..before },
            after,
            fault,
            output,
            at,
            updated,
        )
    }
}

/// What cancelling does to a step: what was pending or waiting for a signal
/// is skipped.
pub open spec fn cancel_step(s: StepExecution) -> StepExecution {
    if s.state == StepState::Pending || s.state == StepState::WaitingForSignal {
        StepExecution { state: StepState::Skipped, ..s }
    } else {
        s
    }
}

/// What cancelling an execution does.
pub open spec fn cancelled(
    before: WorkflowExecution,
    after: WorkflowExecution,
    updated: Timestamp,
) -> bool {
    &&& after.steps@ == before.steps@.map_values(|s: StepExecution| cancel_step(s))
    &&& after == (WorkflowExecution {
        steps: after.steps,
        state: WorkflowState::Cancelled,
        updated_at: updated,
        ..before
    })
}

/// The number of completed steps among the first `n`.
pub open spec fn completed_count(steps: Seq<StepExecution>, n: int) -> nat
    decreases n,
{
    if n <= 0 {
        0
    } else if steps[n - 1].state == StepState::Completed {
        completed_count(steps, n - 1) + 1
    } else {
        completed_count(steps, n - 1)
    }
}

impl WorkflowExecution {
    /// A new execution of the definition, made now.
    pub fn new(id: String, definition: &WorkflowDefinition) -> (r: Self)
        ensures
            new_execution(r, id, *definition, r.created_at),
    {
        Self::new_at(id, definition, utc_now())
    }

    /// A new execution of the definition, made at `now`.
    pub fn new_at(id: String, definition: &WorkflowDefinition, now: Timestamp) -> (r: Self)
        ensures
            new_execution(r, id, *definition, now),
    {
        let mut steps: Vec<StepExecution> = Vec::new();
        let mut i: usize = 0;
        while i < definition.steps.len()
            invariant
                i <= definition.steps@.len(),
                steps@.len() == i,
                forall|k: int|
                    0 <= k < i ==> (#[trigger] steps@[k]) == (StepExecution {
                        step_id: definition.steps@[k].id,
                        state: StepState::Pending,
                        output: None,
                        error: None,
                        attempts: 0,
                        started_at: None,
                        completed_at: None,
                    }),
            decreases definition.steps@.len() - i,
        {
            steps.push(
                StepExecution {
                    step_id: definition.steps[i].id.clone(),
                    state: StepState::Pending,
                    output: None,
                    error: None,
                    attempts: 0,
                    started_at: None,
                    completed_at: None,
                },
            );
            i += 1;
        }
        WorkflowExecution {
            id,
            definition_id: definition.id.clone(),
            rivet_workflow_id: None,
            state: WorkflowState::Pending,
            current_step_index: 0,
            steps,
            created_at: now,
            updated_at: now,
        }
    }

    /// Starts the execution now.
    pub fn start(&mut self) -> (r: Result<(), WorkflowError>)
        ensures
            exists|updated: Timestamp| #[trigger]
                started(*old(self), *final(self), fault_of(r), updated),
    {
        self.start_at(utc_now())
    }

    /// Starts a pending execution.
    pub fn start_at(&mut self, updated: Timestamp) -> (r: Result<(), WorkflowError>)
        ensures
            started(*old(self), *final(self), fault_of(r), updated),
    {
        if self.state != WorkflowState::Pending {
            return Err(WorkflowError::AlreadyTerminal);
        }
        self.state = WorkflowState::Running;
        self.updated_at = updated;
        Ok(())
    }

    /// The current step.
    pub fn current_step(&self) -> (r: Option<&StepExecution>)
        ensures
            match r {
                Some(s) => self.current_step_index < self.steps@.len() && *s
                    == self.steps@[self.current_step_index as int],
                None => self.current_step_index >= self.steps@.len(),
            },
    {
        if self.current_step_index < self.steps.len() {
            Some(&self.steps[self.current_step_index])
        } else {
            None
        }
    }

    /// The current step, to be changed.
    pub fn current_step_mut(&mut self) -> (r: Option<&mut StepExecution>)
        ensures
            match r {
                Some(s) => {
                    &&& old(self).current_step_index < old(self).steps@.len()
                    &&& *s == old(self).steps@[old(self).current_step_index as int]
                    &&& final(self).steps@ == old(self).steps@.update(
                        old(self).current_step_index as int,
                        *final(s),
                    )
                    &&& *final(self) == (WorkflowExecution {
                        steps: final(self).steps,
                        ..*old(self)
                    })
                },
                None => old(self).current_step_index >= old(self).steps@.len() && *final(self)
                    == *old(self),
            },
    {
        if self.current_step_index < self.steps.len() {
            Some(&mut self.steps[self.current_step_index])
        } else {
            None
        }
    }

    /// Begins the current step now and returns its name.
    pub fn begin_step(&mut self) -> (r: Result<StepId, WorkflowError>)
        requires
            step_fault(*old(self), "begin_step"@, |s: StepState| s is Pending) is None
                ==> old(self).steps@[old(self).current_step_index as int].attempts < u32::MAX,
        ensures
            exists|at: Timestamp, updated: Timestamp| #[trigger]
                step_begun(
                    *old(self),
                    *final(self),
                    begin_fault_of(r),
                    at,
                    updated,
                ),
            r matches Ok(id) ==> id
                == old(self).steps@[old(self).current_step_index as int].step_id,
    {
        self.begin_step_at(utc_now(), utc_now())
    }

    /// Begins the current step and returns its name.
    pub fn begin_step_at(&mut self, at: Timestamp, updated: Timestamp) -> (r: Result<
        StepId,
        WorkflowError,
    >)
        requires
            step_fault(*old(self), "begin_step"@, |s: StepState| s is Pending) is None
                ==> old(self).steps@[old(self).current_step_index as int].attempts < u32::MAX,
        ensures
            step_begun(
                *old(self),
                *final(self),
                begin_fault_of(r),
                at,
                updated,
            ),
            r matches Ok(id) ==> id
                == old(self).steps@[old(self).current_step_index as int].step_id,
    {
        let i = match self.check_step("begin_step", Allowed::Pending) {
            Ok(i) => i,
            Err(e) => {
                return Err(e);
            },
        };
        self.steps[i].state = StepState::Running;
        self.steps[i].attempts = self.steps[i].attempts + 1;
        self.steps[i].started_at = Some(at);
        self.updated_at = updated;
        proof {
            assert(self.steps@ =~= old(self).steps@.update(
                i as int,
                StepExecution {
                    state: StepState::Running,
                    attempts: (old(self).steps@[i as int].attempts + 1) as u32,
                    started_at: Some(at),
                    ..old(self).steps@[i as int]
                },
            ));
        }
        Ok(self.steps[i].step_id.clone())
    }

    /// The current step, where it can take the event.
    fn check_step(&self, event: &'static str, allowed: Allowed) -> (r: Result<
        usize,
        WorkflowError,
    >)
        ensures
            match r {
                Ok(i) => step_fault(*self, event@, |s: StepState| allowed.holds(s)) is None && i
                    == self.current_step_index && i < self.steps@.len() && i < usize::MAX,
                Err(e) => step_fault(*self, event@, |s: StepState| allowed.holds(s)) == Some(e@),
            },
    {
        if self.state != WorkflowState::Running {
            return Err(WorkflowError::NotRunning);
        }
        let i = self.current_step_index;
        if i >= self.steps.len() {
            return Err(WorkflowError::StepNotFound(StepId::new("__out_of_bounds__")));
        }
        let from = self.steps[i].state;
        let fits = match allowed {
            Allowed::Pending => from == StepState::Pending,
            Allowed::Running => from == StepState::Running,
            Allowed::Completable => from == StepState::Running || from
                == StepState::WaitingForSignal || from == StepState::WaitingForDelay,
        };
        if !fits {
            return Err(
                WorkflowError::InvalidTransition {
                    step: self.steps[i].step_id.clone(),
                    from,
                    event,
                },
            );
        }
        Ok(i)
    }

    /// Completes the current step now.
    pub fn complete_step(&mut self, output: Json) -> (r: Result<(), WorkflowError>)
        ensures
            exists|at: Timestamp, updated: Timestamp| #[trigger]
                step_completed(*old(self), *final(self), fault_of(r), output, at, updated),
    {
        self.complete_step_at(output, utc_now(), utc_now())
    }

    /// Completes the current step.
    pub fn complete_step_at(&mut self, output: Json, at: Timestamp, updated: Timestamp) -> (r:
        Result<(), WorkflowError>)
        ensures
            step_completed(*old(self), *final(self), fault_of(r), output, at, updated),
    {
        let i = match self.check_step("complete_step", Allowed::Completable) {
            Ok(i) => i,
            Err(e) => {
                return Err(e);
            },
        };
        self.steps[i].state = StepState::Completed;
        self.steps[i].output = Some(output);
        self.steps[i].completed_at = Some(at);
        proof {
            assert(self.steps@ =~= old(self).steps@.update(
                i as int,
                StepExecution {
                    state: StepState::Completed,
                    output: Some(output),
                    completed_at: Some(at),
                    ..old(self).steps@[i as int]
                },
            ));
        }
        self.current_step_index = i + 1;
        self.updated_at = updated;
        if self.current_step_index >= self.steps.len() {
            self.state = WorkflowState::Completed;
        }
        Ok(())
    }

    /// Fails the current step now.
    pub fn fail_step(&mut self, error: String, definition: &WorkflowDefinition) -> (r: Result<
        (),
        WorkflowError,
    >)
        ensures
            exists|at: Timestamp, updated: Timestamp| #[trigger]
                step_failed(
                    *old(self),
                    *final(self),
                    fault_of(r),
                    error,
                    *definition,
                    at,
                    updated,
                ),
    {
        self.fail_step_at(error, definition, utc_now(), utc_now())
    }

    /// Fails the current step: it is tried again while retries are left.
    pub fn fail_step_at(
        &mut self,
        error: String,
        definition: &WorkflowDefinition,
        at: Timestamp,
        updated: Timestamp,
    ) -> (r: Result<(), WorkflowError>)
        ensures
            step_failed(*old(self), *final(self), fault_of(r), error, *definition, at, updated),
    {
        let i = match self.check_step("fail_step", Allowed::Running) {
            Ok(i) => i,
            Err(e) => {
                return Err(e);
            },
        };
        let max_retries: u32 = if i < definition.steps.len() {
            definition.steps[i].retry_count
        } else {
            0
        };
        let ghost s = old(self).steps@[i as int];
        if self.steps[i].attempts <= max_retries {
            self.steps[i].state = StepState::Pending;
            self.steps[i].error = Some(error);
            self.updated_at = updated;
            proof {
                assert(self.steps@ =~= old(self).steps@.update(
                    i as int,
                    StepExecution { state: StepState::Pending, error: Some(error), ..s },
                ));
            }
        } else {
            self.steps[i].state = StepState::Failed;
            self.steps[i].error = Some(error);
            self.steps[i].completed_at = Some(at);
            self.state = WorkflowState::Failed;
            self.updated_at = updated;
            let ghost failed = old(self).steps@.update(
                i as int,
                StepExecution {
                    state: StepState::Failed,
                    error: Some(error),
                    completed_at: Some(at),
                    ..s
                },
            );
            proof {
                assert(self.steps@ =~= failed);
            }
            let ghost frame = *self;
            let mut k: usize = i + 1;
            while k < self.steps.len()
                invariant
                    i + 1 <= k,
                    i < failed.len(),
                    k <= failed.len(),
                    self.steps@.len() == failed.len(),
                    *self == (WorkflowExecution { steps: self.steps, ..frame }),
                    forall|j: int|
                        0 <= j < k ==> #[trigger] self.steps@[j] == (if j >= i + 1 {
                            StepExecution { state: StepState::Skipped, ..failed[j] }
                        } else {
                            failed[j]
                        }),
                    forall|j: int|
                        k <= j < failed.len() ==> #[trigger] self.steps@[j] == failed[j],
                decreases failed.len() - k,
            {
                self.steps[k].state = StepState::Skipped;
                k += 1;
            }
            proof {
                assert(self.steps@ =~= skipped_from(failed, i + 1));
            }
        }
        Ok(())
    }

    /// Pauses at a signal now.
    pub fn pause_at_signal(&mut self) -> (r: Result<(), WorkflowError>)
        ensures
            exists|updated: Timestamp| #[trigger]
                paused(*old(self), *final(self), fault_of(r), updated),
    {
        self.pause_at_signal_at(utc_now())
    }

    /// Pauses the execution: its current step waits for a signal.
    pub fn pause_at_signal_at(&mut self, updated: Timestamp) -> (r: Result<(), WorkflowError>)
        ensures
            paused(*old(self), *final(self), fault_of(r), updated),
    {
        let i = match self.check_step("pause_at_signal", Allowed::Running) {
            Ok(i) => i,
            Err(e) => {
                return Err(e);
            },
        };
        self.steps[i].state = StepState::WaitingForSignal;
        self.state = WorkflowState::Paused;
        self.updated_at = updated;
        proof {
            assert(self.steps@ =~= old(self).steps@.update(
                i as int,
                StepExecution { state: StepState::WaitingForSignal, ..old(self).steps@[i as int] },
            ));
        }
        Ok(())
    }

    /// Takes up a paused execution now.
    pub fn resume_from_signal(&mut self, signal_output: Json) -> (r: Result<(), WorkflowError>)
        ensures
            exists|at: Timestamp, updated: Timestamp| #[trigger]
                resumed(*old(self), *final(self), fault_of(r), signal_output, at, updated),
    {
        self.resume_from_signal_at(signal_output, utc_now(), utc_now())
    }

    /// Takes up a paused execution with what the signal carries.
    pub fn resume_from_signal_at(&mut self, signal_output: Json, at: Timestamp, updated: Timestamp)
     -> (r: Result<(), WorkflowError>)
        ensures
            resumed(*old(self), *final(self), fault_of(r), signal_output, at, updated),
    {
        if self.state != WorkflowState::Paused {
            return Err(WorkflowError::NotRunning);
        }
        self.state = WorkflowState::Running;
        self.complete_step_at(signal_output, at, updated)
    }

    /// Cancels the execution now.
    pub fn cancel(&mut self)
        ensures
            exists|updated: Timestamp| #[trigger] cancelled(*old(self), *final(self), updated),
    {
        self.cancel_at(utc_now());
    }

    /// Cancels the execution.
    pub fn cancel_at(&mut self, updated: Timestamp)
        ensures
            cancelled(*old(self), *final(self), updated),
    {
        let ghost before = self.steps@;
        let ghost frame = *self;
        let mut i: usize = 0;
        while i < self.steps.len()
            invariant
                i <= before.len(),
                self.steps@.len() == before.len(),
                *self == (WorkflowExecution { steps: self.steps, ..frame }),
                forall|j: int| 0 <= j < i ==> #[trigger] self.steps@[j] == cancel_step(before[j]),
                forall|j: int| i <= j < before.len() ==> #[trigger] self.steps@[j] == before[j],
            decreases before.len() - i,
        {
            let s = self.steps[i].state;
            if s == StepState::Pending || s == StepState::WaitingForSignal {
                self.steps[i].state = StepState::Skipped;
            }
            i += 1;
        }
        proof {
            assert(self.steps@ =~= before.map_values(|s: StepExecution| cancel_step(s)));
        }
        self.state = WorkflowState::Cancelled;
        self.updated_at = updated;
    }

    /// Whether the execution is over.
    pub fn is_terminal(&self) -> (r: bool)
        ensures
            r == (self.state == WorkflowState::Completed || self.state == WorkflowState::Failed
                || self.state == WorkflowState::Cancelled),
    {
        self.state == WorkflowState::Completed || self.state == WorkflowState::Failed || self.state
            == WorkflowState::Cancelled
    }

    /// How many steps are completed, and how many there are.
    pub fn progress(&self) -> (r: (usize, usize))
        ensures
            r.0 == completed_count(self.steps@, self.steps@.len() as int),
            r.1 == self.steps@.len(),
    {
        let mut completed: usize = 0;
        let mut i: usize = 0;
        while i < self.steps.len()
            invariant
                i <= self.steps@.len(),
                completed <= i,
                completed == completed_count(self.steps@, i as int),
            decreases self.steps@.len() - i,
        {
            if self.steps[i].state == StepState::Completed {
                completed += 1;
            }
            i += 1;
        }
        (completed, self.steps.len())
    }
}

/// The states in which a request finds the current step.
#[derive(Clone, Copy)]
enum Allowed {
    Pending,
    Running,
    Completable,
}

impl Allowed {
    spec fn holds(self, s: StepState) -> bool {
        match self {
            Allowed::Pending => s == StepState::Pending,
            Allowed::Running => s == StepState::Running,
            Allowed::Completable => completable(s),
        }
    }
}

/// An execution that is over takes no request.
pub proof fn law_terminal_refuses(
    before: WorkflowExecution,
    event: Seq<char>,
    allowed: spec_fn(StepState) -> bool,
)
    requires
        before.state == WorkflowState::Completed || before.state == WorkflowState::Failed
            || before.state == WorkflowState::Cancelled,
    ensures
        step_fault(before, event, allowed) == Some(WorkflowErrorView::NotRunning),
{
}

/// A step that fails has been tried once more than it has retries: it is
/// pending again exactly while its attempts do not exceed them.
pub proof fn law_retries(
    before: WorkflowExecution,
    after: WorkflowExecution,
    error: String,
    d: WorkflowDefinition,
    at: Timestamp,
    updated: Timestamp,
)
    requires
        step_failed(before, after, None, error, d, at, updated),
    ensures
        ({
            let i = before.current_step_index as int;
            let tried = before.steps@[i].attempts;
            &&& after.steps@[i].state == (if tried <= retries_of(d, i) {
                StepState::Pending
            } else {
                StepState::Failed
            })
            &&& after.state == (if tried <= retries_of(d, i) {
                WorkflowState::Running
            } else {
                WorkflowState::Failed
            })
            &&& after.steps@[i].attempts == tried
        }),
{
}

/// A signal undoes a pause and completes the step that waited for it.
pub proof fn law_resume_after_pause(
    before: WorkflowExecution,
    mid: WorkflowExecution,
    after: WorkflowExecution,
    output: Json,
    paused_at: Timestamp,
    at: Timestamp,
    updated: Timestamp,
    fault: Option<WorkflowErrorView>,
)
    requires
        before.steps@.len() <= usize::MAX,
        paused(before, mid, None, paused_at),
        resumed(mid, after, fault, output, at, updated),
    ensures
        fault is None,
        after.current_step_index == before.current_step_index + 1,
        after.steps@[before.current_step_index as int].state == StepState::Completed,
        after.steps@[before.current_step_index as int].output == Some(output),
        before.current_step_index + 1 == before.steps@.len() ==> after.state
            == WorkflowState::Completed,
        before.current_step_index + 1 < before.steps@.len() ==> after.state
            == WorkflowState::Running,
{
}

proof fn lemma_completed_count_update(steps: Seq<StepExecution>, i: int, s: StepExecution, n: int)
    requires
        0 <= i < steps.len(),
        0 <= n <= steps.len(),
        steps[i].state != StepState::Completed,
        s.state == StepState::Completed,
    ensures
        completed_count(steps.update(i, s), n) == completed_count(steps, n) + (if i < n {
            1nat
        } else {
            0nat
        }),
    decreases n,
{
    if n > 0 {
        lemma_completed_count_update(steps, i, s, n - 1);
    }
}

/// Completing a step raises the progress by one.
pub proof fn law_progress_counts_completions(
    before: WorkflowExecution,
    after: WorkflowExecution,
    output: Json,
    at: Timestamp,
    updated: Timestamp,
)
    requires
        step_completed(before, after, None, output, at, updated),
    ensures
        completed_count(after.steps@, after.steps@.len() as int) == completed_count(
            before.steps@,
            before.steps@.len() as int,
        ) + 1,
{
    let i = before.current_step_index as int;
    lemma_completed_count_update(before.steps@, i, after.steps@[i], before.steps@.len() as int);
}

/// Whether the steps from `from` up to `to` are all in state `state`.
pub open spec fn all_in(steps: Seq<StepExecution>, from: int, to: int, state: StepState) -> bool {
    forall|k: int| from <= k < to ==> (#[trigger] steps[k]).state == state
}

/// Whether the steps stand as the state of the execution says: those before the
/// current one are completed and those behind it untouched or skipped.
pub open spec fn orderly(x: WorkflowExecution) -> bool {
    let i = x.current_step_index as int;
    let n = x.steps@.len() as int;
    match x.state {
        WorkflowState::Pending => i == 0 && all_in(x.steps@, 0, n, StepState::Pending),
        WorkflowState::Running => {
            &&& i < n || n == 0 && i == 0
            &&& all_in(x.steps@, 0, i, StepState::Completed)
            &&& i < n ==> x.steps@[i].state == StepState::Pending || x.steps@[i].state
                == StepState::Running
            &&& all_in(x.steps@, i + 1, n, StepState::Pending)
        },
        WorkflowState::Paused => {
            &&& i < n
            &&& all_in(x.steps@, 0, i, StepState::Completed)
            &&& x.steps@[i].state == StepState::WaitingForSignal
            &&& all_in(x.steps@, i + 1, n, StepState::Pending)
        },
        WorkflowState::Completed => i == n && all_in(x.steps@, 0, n, StepState::Completed),
        WorkflowState::Failed => {
            &&& i < n
            &&& all_in(x.steps@, 0, i, StepState::Completed)
            &&& x.steps@[i].state == StepState::Failed
            &&& all_in(x.steps@, i + 1, n, StepState::Skipped)
        },
        WorkflowState::Cancelled => {
            &&& i <= n
            &&& all_in(x.steps@, 0, i, StepState::Completed)
            &&& forall|k: int|
                0 <= k < n ==> (#[trigger] x.steps@[k]).state != StepState::Pending
                    && x.steps@[k].state != StepState::WaitingForSignal
        },
    }
}

/// The steps of a new execution stand in order.
pub proof fn law_new_is_orderly(
    x: WorkflowExecution,
    id: String,
    d: WorkflowDefinition,
    now: Timestamp,
)
    requires
        new_execution(x, id, d, now),
    ensures
        orderly(x),
{
}

/// Every request keeps the steps in order, whether it is granted or refused.
pub proof fn law_requests_keep_order(
    before: WorkflowExecution,
    after: WorkflowExecution,
    fault: Option<WorkflowErrorView>,
    output: Json,
    error: String,
    d: WorkflowDefinition,
    at: Timestamp,
    updated: Timestamp,
)
    requires
        orderly(before),
        started(before, after, fault, updated)
            || step_begun(before, after, fault, at, updated)
            || step_completed(before, after, fault, output, at, updated)
            || step_failed(before, after, fault, error, d, at, updated)
            || paused(before, after, fault, updated)
            || resumed(before, after, fault, output, at, updated)
            || cancelled(before, after, updated),
    ensures
        orderly(after),
{
    if fault is Some && after == before {
    } else if started(before, after, fault, updated) {
    } else if step_begun(before, after, fault, at, updated) {
        lemma_only_one_changed(before, after, before.current_step_index as int);
    } else if step_completed(before, after, fault, output, at, updated) {
        lemma_completing_keeps_order(before, after, output, at, updated);
    } else if step_failed(before, after, fault, error, d, at, updated) {
        lemma_failing_keeps_order(before, after, error, d, at, updated);
    } else if paused(before, after, fault, updated) {
        lemma_only_one_changed(before, after, before.current_step_index as int);
    } else if resumed(before, after, fault, output, at, updated) {
        lemma_completing_keeps_order(
            WorkflowExecution { state: WorkflowState::Running, ..before },
            after,
            output,
            at,
            updated,
        );
    } else {
        lemma_cancelling_keeps_order(before, after, updated);
    }
}

proof fn lemma_completing_keeps_order(
    before: WorkflowExecution,
    after: WorkflowExecution,
    output: Json,
    at: Timestamp,
    updated: Timestamp,
)
    requires
        step_completed(before, after, None, output, at, updated),
        all_in(before.steps@, 0, before.current_step_index as int, StepState::Completed),
        all_in(
            before.steps@,
            before.current_step_index + 1,
            before.steps@.len() as int,
            StepState::Pending,
        ),
    ensures
        orderly(after),
{
    let i = before.current_step_index as int;
    lemma_only_one_changed(before, after, i);
    assert(after.steps@[i].state == StepState::Completed);
    assert(i + 1 <= usize::MAX) by {
        assert(before.steps.len() == before.steps@.len());
    }
    assert forall|k: int| 0 <= k < i + 1 implies (#[trigger] after.steps@[k]).state
        == StepState::Completed by {
        if k < i {
            assert(before.steps@[k].state == StepState::Completed);
        }
    }
    assert forall|k: int| i + 1 <= k < after.steps@.len() implies (#[trigger] after.steps@[k]).state
        == StepState::Pending by {
        assert(before.steps@[k].state == StepState::Pending);
    }
}

proof fn lemma_failing_keeps_order(
    before: WorkflowExecution,
    after: WorkflowExecution,
    error: String,
    d: WorkflowDefinition,
    at: Timestamp,
    updated: Timestamp,
)
    requires
        orderly(before),
        step_failed(before, after, None, error, d, at, updated),
    ensures
        orderly(after),
{
    let i = before.current_step_index as int;
    if before.steps@[i].attempts <= retries_of(d, i) {
        lemma_only_one_changed(before, after, i);
    } else {
        assert(after.steps@[i].state == StepState::Failed);
        assert forall|k: int| 0 <= k < i implies (#[trigger] after.steps@[k]).state
            == StepState::Completed by {
            assert(before.steps@[k].state == StepState::Completed);
        }
    }
}

proof fn lemma_cancelling_keeps_order(
    before: WorkflowExecution,
    after: WorkflowExecution,
    updated: Timestamp,
)
    requires
        orderly(before),
        cancelled(before, after, updated),
    ensures
        orderly(after),
{
    let i = before.current_step_index as int;
    assert forall|k: int| 0 <= k < before.steps@.len() implies (#[trigger] after.steps@[k])
        == cancel_step(before.steps@[k]) by {}
    assert forall|k: int| 0 <= k < i implies (#[trigger] after.steps@[k]).state
        == StepState::Completed by {
        assert(before.steps@[k].state == StepState::Completed);
    }
}

proof fn lemma_only_one_changed(before: WorkflowExecution, after: WorkflowExecution, i: int)
    requires
        0 <= i < before.steps@.len(),
        after.steps@ == before.steps@.update(i, after.steps@[i]),
    ensures
        after.steps@.len() == before.steps@.len(),
        forall|k: int|
            0 <= k < before.steps@.len() && k != i ==> #[trigger] after.steps@[k]
                == before.steps@[k],
{
}

/// The steps that are completed are those before the current one, unless the
/// execution was cancelled.
pub proof fn law_progress_is_the_position(x: WorkflowExecution)
    requires
        orderly(x),
        x.state != WorkflowState::Cancelled,
    ensures
        completed_count(x.steps@, x.steps@.len() as int) == x.current_step_index,
{
    let i = x.current_step_index as int;
    lemma_count_of_completed(x.steps@, i);
    lemma_count_behind(x.steps@, i, x.steps@.len() as int);
}

proof fn lemma_count_of_completed(steps: Seq<StepExecution>, n: int)
    requires
        0 <= n <= steps.len(),
        all_in(steps, 0, n, StepState::Completed),
    ensures
        completed_count(steps, n) == n,
    decreases n,
{
    if n > 0 {
        lemma_count_of_completed(steps, n - 1);
        assert(steps[n - 1].state == StepState::Completed);
    }
}

proof fn lemma_count_behind(steps: Seq<StepExecution>, from: int, to: int)
    requires
        0 <= from <= to <= steps.len(),
        forall|k: int| from <= k < to ==> (#[trigger] steps[k]).state != StepState::Completed,
    ensures
        completed_count(steps, to) == completed_count(steps, from),
    decreases to - from,
{
    if from < to {
        lemma_count_behind(steps, from, to - 1);
        assert(steps[to - 1].state != StepState::Completed);
    }
}

} // verus!
