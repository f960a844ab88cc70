//! Pipelines of agent stages that depend on each other.

use vstd::prelude::*;
use vstd::string::*;
use crate::agent::AgentType;
use crate::text;

verus! {

/// The name of a stage.
#[derive(PartialEq, Eq, PartialOrd, Ord, Hash, Debug)]
pub struct StageId(pub String);

impl View for StageId {
    type V = Seq<char>;

    open spec fn view(&self) -> Seq<char> {
        self.0@
    }
}

impl Clone for StageId {
    fn clone(&self) -> (r: Self)
        ensures
            r == *self,
    {
        StageId(self.0.clone())
    }
}

impl StageId {
    /// The stage name `id`.
    pub fn new(id: &str) -> (r: Self)
        ensures
            r@ == id@,
    {
        StageId(id.to_owned())
    }

    /// The name as text.
    pub fn as_str(&self) -> (r: &str)
        ensures
            r@ == self@,
    {
        self.0.as_str()
    }

    /// Whether both name the same stage.
    pub fn same(&self, other: &StageId) -> (r: bool)
        ensures
            r == (self@ == other@),
    {
        text::str_eq(self.0.as_str(), other.0.as_str())
    }
}

/// The views of a list of stage names.
pub open spec fn id_views(v: Seq<StageId>) -> Seq<Seq<char>> {
    v.map_values(|s: StageId| s@)
}

/// Whether some name of `v` is `id`.
pub open spec fn has_id(v: Seq<StageId>, id: Seq<char>) -> bool {
    exists|i: int| 0 <= i < v.len() && #[trigger] v[i]@ == id
}

/// Whether `v` holds the name `id`.
pub fn contains_id(v: &Vec<StageId>, id: &StageId) -> (r: bool)
    ensures
        r == has_id(v@, id@),
{
    let mut i: usize = 0;
    while i < v.len()
        invariant
            i <= v@.len(),
            forall|j: int| 0 <= j < i ==> #[trigger] v@[j]@ != id@,
        decreases v@.len() - i,
    {
        if v[i].same(id) {
            return true;
        }
        i += 1;
    }
    false
}

/// One stage: an agent, its prompt and the stages it waits for.
#[derive(Clone, PartialEq, Eq, Debug)]
pub struct PipelineStage {
    pub id: StageId,
    pub agent_type: AgentType,
    pub prompt_template: String,
    pub depends_on: Vec<StageId>,
}

/// The state of a stage within a run.
#[derive(Clone, Copy, PartialEq, Eq, Structural, Debug)]
pub enum StageState {
    Pending,
    Running,
    Completed,
    Failed,
    Skipped,
}

/// The name of a stage's state.
pub open spec fn stage_state_text(s: StageState) -> Seq<char> {
    match s {
        StageState::Pending => "pending"@,
        StageState::Running => "running"@,
        StageState::Completed => "completed"@,
        StageState::Failed => "failed"@,
        StageState::Skipped => "skipped"@,
    }
}

impl StageState {
    /// The name of the state.
    pub fn as_str(&self) -> (r: &'static str)
        ensures
            r@ == stage_state_text(*self),
    {
        match self {
            StageState::Pending => "pending",
            StageState::Running => "running",
            StageState::Completed => "completed",
            StageState::Failed => "failed",
            StageState::Skipped => "skipped",
        }
    }
}

/// The state of a run.
#[derive(Clone, Copy, PartialEq, Eq, Structural, Debug)]
pub enum PipelineRunState {
    Pending,
    Running,
    Completed,
    Failed,
    Cancelled,
}

impl PipelineRunState {
    /// The name of the state.
    pub fn as_str(&self) -> (r: &'static str)
        ensures
            r@ == (match *self {
                PipelineRunState::Pending => "pending"@,
                PipelineRunState::Running => "running"@,
                PipelineRunState::Completed => "completed"@,
                PipelineRunState::Failed => "failed"@,
                PipelineRunState::Cancelled => "cancelled"@,
            }),
    {
        match self {
            PipelineRunState::Pending => "pending",
            PipelineRunState::Running => "running",
            PipelineRunState::Completed => "completed",
            PipelineRunState::Failed => "failed",
            PipelineRunState::Cancelled => "cancelled",
        }
    }
}

/// What is wrong with a pipeline, or with a request to a run of it.
#[derive(Clone, PartialEq, Eq, Debug)]
pub enum PipelineError {
    DuplicateStage(StageId),
    UnknownDependency { stage: StageId, missing: StageId },
    CycleDetected(Vec<StageId>),
    EmptyPipeline,
    StageNotFound(StageId),
    InvalidTransition { stage: StageId, from: StageState, event: &'static str },
    DependenciesNotMet(StageId),
}

/// The model of [`PipelineError`].
#[verifier::ext_equal]
pub enum PipelineErrorView {
    DuplicateStage(Seq<char>),
    UnknownDependency { stage: Seq<char>, missing: Seq<char> },
    CycleDetected(Seq<Seq<char>>),
    EmptyPipeline,
    StageNotFound(Seq<char>),
    InvalidTransition { stage: Seq<char>, from: StageState, event: Seq<char> },
    DependenciesNotMet(Seq<char>),
}

impl View for PipelineError {
    type V = PipelineErrorView;

    open spec fn view(&self) -> PipelineErrorView {
        match *self {
            PipelineError::DuplicateStage(id) => PipelineErrorView::DuplicateStage(id@),
            PipelineError::UnknownDependency {
                stage,
                missing,
            } => PipelineErrorView::UnknownDependency { stage: stage@, missing: missing@ },
            PipelineError::CycleDetected(path) => PipelineErrorView::CycleDetected(
                id_views(path@),
            ),
            PipelineError::EmptyPipeline => PipelineErrorView::EmptyPipeline,
            PipelineError::StageNotFound(id) => PipelineErrorView::StageNotFound(id@),
            PipelineError::InvalidTransition {
                stage,
                from,
                event,
            } => PipelineErrorView::InvalidTransition { stage: stage@, from, event: event@ },
            PipelineError::DependenciesNotMet(id) => PipelineErrorView::DependenciesNotMet(id@),
        }
    }
}

/// The message of an error.
pub open spec fn error_text(e: PipelineErrorView) -> Seq<char> {
    match e {
        PipelineErrorView::DuplicateStage(id) => "duplicate stage id: "@ + id,
        PipelineErrorView::UnknownDependency { stage, missing } => "stage "@ + stage
            + " depends on unknown stage "@ + missing,
        PipelineErrorView::CycleDetected(path) => "cycle detected: "@ + text::join(path, " -> "@),
        PipelineErrorView::EmptyPipeline => "pipeline has no stages"@,
        PipelineErrorView::StageNotFound(id) => "stage not found: "@ + id,
        PipelineErrorView::InvalidTransition { stage, from, event } => "invalid transition for stage "@
            + stage + ": "@ + event + " from "@ + stage_state_text(from),
        PipelineErrorView::DependenciesNotMet(id) => "dependencies not met for stage "@ + id,
    }
}

impl PipelineError {
    /// The message of the error.
    pub fn message(&self) -> (r: String)
        ensures
            r@ == error_text(self@),
    {
        match self {
            PipelineError::DuplicateStage(id) => text::concat2("duplicate stage id: ", id.as_str()),
            PipelineError::UnknownDependency { stage, missing } => text::concat4(
                "stage ",
                stage.as_str(),
                " depends on unknown stage ",
                missing.as_str(),
            ),
            PipelineError::CycleDetected(path) => {
                let mut names: Vec<String> = Vec::new();
                let mut i: usize = 0;
                while i < path.len()
                    invariant
                        i <= path@.len(),
                        text::views(names@) == id_views(path@).take(i as int),
                    decreases path@.len() - i,
                {
                    let name = path[i].0.clone();
                    proof {
                        text::lemma_views_push(names@, name);
                        assert(id_views(path@).take(i as int + 1) =~= id_views(path@).take(
                            i as int,
                        ).push(path@[i as int]@));
                    }
                    names.push(name);
                    i += 1;
                }
                proof {
                    assert(id_views(path@).take(path@.len() as int) =~= id_views(path@));
                }
                let joined = text::join_strings(&names, " -> ");
                text::concat2("cycle detected: ", joined.as_str())
            },
            PipelineError::EmptyPipeline => "pipeline has no stages".to_owned(),
            PipelineError::StageNotFound(id) => text::concat2("stage not found: ", id.as_str()),
            PipelineError::InvalidTransition { stage, from, event } => {
                let mut s = text::concat4(
                    "invalid transition for stage ",
                    stage.as_str(),
                    ": ",
                    event,
                );
                s.append(" from ");
                s.append(from.as_str());
                s
            },
            PipelineError::DependenciesNotMet(id) => text::concat2(
                "dependencies not met for stage ",
                id.as_str(),
            ),
        }
    }
}

/// A named set of stages.
#[derive(Clone, Debug)]
pub struct Pipeline {
    pub id: String,
    pub name: String,
    pub stages: Vec<PipelineStage>,
}

/// The position of the first stage called `id`, or the number of stages.
pub open spec fn stage_index(stages: Seq<PipelineStage>, id: Seq<char>) -> int
    decreases stages.len(),
{
    if stages.len() == 0 {
        0
    } else if stages[0].id@ == id {
        0
    } else {
        1 + stage_index(stages.skip(1), id)
    }
}

pub proof fn lemma_stage_index(stages: Seq<PipelineStage>, id: Seq<char>, i: int)
    requires
        0 <= i <= stages.len(),
        forall|j: int| 0 <= j < i ==> (#[trigger] stages[j]).id@ != id,
        i < stages.len() ==> stages[i].id@ == id,
    ensures
        stage_index(stages, id) == i,
    decreases stages.len(),
{
    if i > 0 {
        let rest = stages.skip(1);
        assert(stages[0].id@ != id);
        assert forall|j: int| 0 <= j < i - 1 implies (#[trigger] rest[j]).id@ != id by {
            assert(rest[j] == stages[j + 1]);
        }
        lemma_stage_index(rest, id, i - 1);
    }
}

/// Whether some stage is called `id`.
pub open spec fn known(stages: Seq<PipelineStage>, id: Seq<char>) -> bool {
    exists|i: int| 0 <= i < stages.len() && (#[trigger] stages[i]).id@ == id
}

/// Whether stage `i` has the name of an earlier stage.
pub open spec fn repeats(stages: Seq<PipelineStage>, i: int) -> bool {
    exists|j: int| 0 <= j < i && (#[trigger] stages[j]).id@ == stages[i].id@
}

/// The first stage with the name of an earlier one, or the number of stages.
pub open spec fn first_repeat(stages: Seq<PipelineStage>, from: int) -> int
    decreases stages.len() - from,
{
    if from >= stages.len() {
        stages.len() as int
    } else if repeats(stages, from) {
        from
    } else {
        first_repeat(stages, from + 1)
    }
}

/// The first dependency of stage `i`, from its `from`-th on, that no stage
/// has the name of; or the number of its dependencies.
pub open spec fn first_unknown(stages: Seq<PipelineStage>, i: int, from: int) -> int
    decreases stages[i].depends_on@.len() - from,
{
    let deps = stages[i].depends_on@;
    if from >= deps.len() {
        deps.len() as int
    } else if !known(stages, deps[from]@) {
        from
    } else {
        first_unknown(stages, i, from + 1)
    }
}

/// The first stage, from stage `from` on, that depends on an unknown one; or
/// the number of stages.
pub open spec fn first_dangling(stages: Seq<PipelineStage>, from: int) -> int
    decreases stages.len() - from,
{
    if from >= stages.len() {
        stages.len() as int
    } else if first_unknown(stages, from, 0) < stages[from].depends_on@.len() {
        from
    } else {
        first_dangling(stages, from + 1)
    }
}

/// Whether the stage called `dep` is among the stages `order`.
pub open spec fn dep_met(stages: Seq<PipelineStage>, order: Seq<int>, dep: Seq<char>) -> bool {
    exists|k: int| #[trigger] order.contains(k) && 0 <= k < stages.len() && stages[k].id@ == dep
}

/// Whether all that stage `s` depends on is among the stages `order`.
pub open spec fn ready(stages: Seq<PipelineStage>, order: Seq<int>, s: int) -> bool {
    forall|j: int|
        0 <= j < stages[s].depends_on@.len() ==> dep_met(
            stages,
            order,
            #[trigger] stages[s].depends_on@[j]@,
        )
}

/// The stages before stage `n` that become ready when stage `k` joins
/// `order`, in order of definition.
pub open spec fn unlocked(stages: Seq<PipelineStage>, order: Seq<int>, k: int, n: int) -> Seq<int>
    decreases n,
{
    if n <= 0 {
        Seq::empty()
    } else {
        let front = unlocked(stages, order, k, n - 1);
        if !ready(stages, order, n - 1) && ready(stages, order.push(k), n - 1) {
            front.push(n - 1)
        } else {
            front
        }
    }
}

/// `q`, sorted by name, with stage `s` put in by its name.
pub open spec fn insert_by_name(stages: Seq<PipelineStage>, q: Seq<int>, s: int) -> Seq<int>
    decreases q.len(),
{
    if q.len() > 0 && text::lex_lt(stages[s].id@, stages[q.last()].id@) {
        insert_by_name(stages, q.drop_last(), s).push(q.last())
    } else {
        q.push(s)
    }
}

/// The stages before stage `n` that depend on none, in order of their names.
pub open spec fn roots(stages: Seq<PipelineStage>, n: int) -> Seq<int>
    decreases n,
{
    if n <= 0 {
        Seq::empty()
    } else if stages[n - 1].depends_on@.len() == 0 {
        insert_by_name(stages, roots(stages, n - 1), n - 1)
    } else {
        roots(stages, n - 1)
    }
}

/// Takes stages off the front of `queue` into `order`, each time queueing the
/// stages that thereby become ready, until the queue is empty or `fuel` stages
/// were taken.
pub open spec fn drain(
    stages: Seq<PipelineStage>,
    order: Seq<int>,
    queue: Seq<int>,
    fuel: nat,
) -> Seq<int>
    decreases fuel,
{
    if queue.len() == 0 || fuel == 0 {
        order
    } else {
        let k = queue[0];
        drain(
            stages,
            order.push(k),
            queue.skip(1) + unlocked(stages, order, k, stages.len() as int),
            (fuel - 1) as nat,
        )
    }
}

/// The stages in the order in which they can run; stages on a cycle, or
/// behind one, are missing.
pub open spec fn run_order(stages: Seq<PipelineStage>) -> Seq<int> {
    drain(stages, Seq::empty(), roots(stages, stages.len() as int), stages.len())
}

/// The names of the stages `order`.
pub open spec fn names_of(stages: Seq<PipelineStage>, order: Seq<int>) -> Seq<Seq<char>> {
    order.map_values(|k: int| stages[k].id@)
}

/// The names of the stages before stage `n` that `order` leaves out.
pub open spec fn left_out(stages: Seq<PipelineStage>, order: Seq<int>, n: int) -> Seq<Seq<char>>
    decreases n,
{
    if n <= 0 {
        Seq::empty()
    } else if order.contains(n - 1) {
        left_out(stages, order, n - 1)
    } else {
        left_out(stages, order, n - 1).push(stages[n - 1].id@)
    }
}

/// The order of the stages, or the cycle that prevents one.
pub open spec fn sorted_stages(stages: Seq<PipelineStage>) -> Result<
    Seq<Seq<char>>,
    PipelineErrorView,
> {
    let order = run_order(stages);
    if order.len() == stages.len() {
        Ok(names_of(stages, order))
    } else {
        Err(PipelineErrorView::CycleDetected(left_out(stages, order, stages.len() as int)))
    }
}

/// What is wrong with the stages of a pipeline: none at all, else the first
/// name used twice, else the first unknown dependency, else a cycle.
pub open spec fn pipeline_fault(stages: Seq<PipelineStage>) -> Option<PipelineErrorView> {
    let dup = first_repeat(stages, 0);
    let dangling = first_dangling(stages, 0);
    if stages.len() == 0 {
        Some(PipelineErrorView::EmptyPipeline)
    } else if dup < stages.len() {
        Some(PipelineErrorView::DuplicateStage(stages[dup].id@))
    } else if dangling < stages.len() {
        Some(
            PipelineErrorView::UnknownDependency {
                stage: stages[dangling].id@,
                missing: stages[dangling].depends_on@[first_unknown(stages, dangling, 0)]@,
            },
        )
    } else {
        match sorted_stages(stages) {
            Ok(_) => None,
            Err(e) => Some(e),
        }
    }
}

/// The state of sorting: no stage is taken or queued twice, and the ready
/// stages are exactly those taken or queued.
pub open spec fn sorting(stages: Seq<PipelineStage>, order: Seq<int>, queue: Seq<int>) -> bool {
    let both = order + queue;
    &&& both.no_duplicates()
    &&& forall|i: int| 0 <= i < both.len() ==> 0 <= #[trigger] both[i] < stages.len()
    &&& forall|s: int|
        0 <= s < stages.len() ==> (#[trigger] ready(stages, order, s) <==> both.contains(s))
    &&& forall|p: int| 0 <= p < order.len() ==> ready(stages, order.take(p), #[trigger] order[p])
}

proof fn lemma_ready_grows(stages: Seq<PipelineStage>, order: Seq<int>, k: int, s: int)
    requires
        ready(stages, order, s),
    ensures
        ready(stages, order.push(k), s),
{
    assert forall|j: int| 0 <= j < stages[s].depends_on@.len() implies dep_met(
        stages,
        order.push(k),
        #[trigger] stages[s].depends_on@[j]@,
    ) by {
        let dep = stages[s].depends_on@[j]@;
        assert(dep_met(stages, order, dep));
        let i = choose|i: int| #[trigger]
            order.contains(i) && 0 <= i < stages.len() && stages[i].id@ == dep;
        let at = choose|at: int| 0 <= at < order.len() && order[at] == i;
        assert(order.push(k)[at] == i);
        assert(order.push(k).contains(i));
    }
}

pub proof fn lemma_unlocked(stages: Seq<PipelineStage>, order: Seq<int>, k: int, n: int)
    requires
        n <= stages.len(),
    ensures
        unlocked(stages, order, k, n).no_duplicates(),
        forall|i: int|
            0 <= i < unlocked(stages, order, k, n).len() ==> {
                let s = #[trigger] unlocked(stages, order, k, n)[i];
                0 <= s < n && !ready(stages, order, s) && ready(stages, order.push(k), s)
            },
        forall|s: int|
            0 <= s < n && !ready(stages, order, s) && #[trigger] ready(stages, order.push(k), s)
                ==> unlocked(stages, order, k, n).contains(s),
    decreases n,
{
    if n > 0 {
        lemma_unlocked(stages, order, k, n - 1);
        let front = unlocked(stages, order, k, n - 1);
        let all = unlocked(stages, order, k, n);
        assert forall|s: int|
            0 <= s < n && !ready(stages, order, s) && #[trigger] ready(
                stages,
                order.push(k),
                s,
            ) implies all.contains(s) by {
            if s == n - 1 {
                assert(all[all.len() - 1] == s);
            } else {
                assert(front.contains(s));
                let i = choose|i: int| 0 <= i < front.len() && front[i] == s;
                assert(all[i] == s);
            }
        }
    }
}

pub proof fn lemma_sorting_step(stages: Seq<PipelineStage>, order: Seq<int>, queue: Seq<int>)
    requires
        sorting(stages, order, queue),
        queue.len() > 0,
    ensures
        sorting(
            stages,
            order.push(queue[0]),
            queue.skip(1) + unlocked(stages, order, queue[0], stages.len() as int),
        ),
{
    let k = queue[0];
    let n = stages.len() as int;
    let new = unlocked(stages, order, k, n);
    let order2 = order.push(k);
    let queue2 = queue.skip(1) + new;
    let both = order + queue;
    let both2 = order2 + queue2;
    lemma_unlocked(stages, order, k, n);
    assert(both2 =~= both + new);
    assert forall|i: int, j: int| 0 <= i < j < both2.len() implies both2[i] != both2[j] by {
        if i < both.len() && j >= both.len() {
            assert(both2[j] == new[j - both.len()]);
            assert(both.contains(both[i]));
            assert(0 <= both[i] < stages.len());
            assert(ready(stages, order, both[i]));
        } else if i >= both.len() {
            assert(both2[i] == new[i - both.len()]);
            assert(both2[j] == new[j - both.len()]);
        } else {
            assert(both2[i] == both[i] && both2[j] == both[j]);
        }
    }
    assert forall|i: int| 0 <= i < both2.len() implies 0 <= #[trigger] both2[i] < stages.len() by {
        if i < both.len() {
            assert(both2[i] == both[i]);
        } else {
            assert(both2[i] == new[i - both.len()]);
        }
    }
    assert forall|s: int| 0 <= s < stages.len() implies (#[trigger] ready(stages, order2, s)
        <==> both2.contains(s)) by {
        if both2.contains(s) {
            let i = choose|i: int| 0 <= i < both2.len() && both2[i] == s;
            if i < both.len() {
                assert(both[i] == s);
                assert(both.contains(s));
                assert(ready(stages, order, s));
                lemma_ready_grows(stages, order, k, s);
            } else {
                assert(new[i - both.len()] == s);
            }
        }
        if ready(stages, order2, s) {
            if ready(stages, order, s) {
                assert(both.contains(s));
                let i = choose|i: int| 0 <= i < both.len() && both[i] == s;
                assert(both2[i] == s);
            } else {
                assert(new.contains(s));
                let i = choose|i: int| 0 <= i < new.len() && new[i] == s;
                assert(both2[both.len() + i] == s);
            }
        }
    }
    assert forall|p: int| 0 <= p < order2.len() implies ready(
        stages,
        order2.take(p),
        #[trigger] order2[p],
    ) by {
        if p < order.len() {
            assert(order2.take(p) =~= order.take(p));
            assert(order2[p] == order[p]);
        } else {
            assert(order2.take(p) =~= order);
            assert(both[order.len() as int] == k);
            assert(both.contains(k));
        }
    }
}

pub proof fn lemma_insert_by_name(stages: Seq<PipelineStage>, q: Seq<int>, s: int)
    requires
        q.no_duplicates(),
        !q.contains(s),
    ensures
        insert_by_name(stages, q, s).no_duplicates(),
        forall|x: int| #[trigger]
            insert_by_name(stages, q, s).contains(x) <==> q.contains(x) || x == s,
        insert_by_name(stages, q, s).len() == q.len() + 1,
    decreases q.len(),
{
    let r = insert_by_name(stages, q, s);
    if q.len() > 0 && text::lex_lt(stages[s].id@, stages[q.last()].id@) {
        let f = q.drop_last();
        assert(q =~= f.push(q.last()));
        assert(!f.contains(s)) by {
            if f.contains(s) {
                let i = choose|i: int| 0 <= i < f.len() && f[i] == s;
                assert(q[i] == s);
            }
        }
        lemma_insert_by_name(stages, f, s);
        let g = insert_by_name(stages, f, s);
        assert(!f.contains(q.last())) by {
            if f.contains(q.last()) {
                let i = choose|i: int| 0 <= i < f.len() && f[i] == q.last();
                assert(q[i] == q[q.len() - 1]);
            }
        }
        assert(q.contains(q.last()));
        assert(!g.contains(q.last()));
        assert(r == g.push(q.last()));
        assert forall|i: int, j: int| 0 <= i < j < r.len() implies r[i] != r[j] by {
            if j == g.len() {
                assert(g.contains(g[i]));
            } else {
                assert(r[i] == g[i] && r[j] == g[j]);
            }
        }
        assert forall|x: int| #[trigger] r.contains(x) <==> q.contains(x) || x == s by {
            if r.contains(x) {
                let i = choose|i: int| 0 <= i < r.len() && r[i] == x;
                if i < g.len() {
                    assert(g[i] == x);
                    assert(g.contains(x));
                    if x != s {
                        assert(f.contains(x));
                        let m = choose|m: int| 0 <= m < f.len() && f[m] == x;
                        assert(q[m] == x);
                    }
                }
            }
            if q.contains(x) || x == s {
                if x == q.last() {
                    assert(r[g.len() as int] == x);
                } else {
                    if x != s {
                        let m = choose|m: int| 0 <= m < q.len() && q[m] == x;
                        assert(f[m] == x);
                        assert(f.contains(x));
                    }
                    assert(g.contains(x));
                    let i = choose|i: int| 0 <= i < g.len() && g[i] == x;
                    assert(r[i] == x);
                }
            }
        }
    } else {
        assert forall|x: int| #[trigger] r.contains(x) <==> q.contains(x) || x == s by {
            if r.contains(x) {
                let i = choose|i: int| 0 <= i < r.len() && r[i] == x;
                if i < q.len() {
                    assert(q[i] == x);
                }
            }
            if x == s {
                assert(r[q.len() as int] == x);
            } else if q.contains(x) {
                let i = choose|i: int| 0 <= i < q.len() && q[i] == x;
                assert(r[i] == x);
            }
        }
        assert forall|i: int, j: int| 0 <= i < j < r.len() implies r[i] != r[j] by {
            if j == q.len() {
                assert(q.contains(q[i]));
            }
        }
    }
}

pub proof fn lemma_roots(stages: Seq<PipelineStage>, n: int)
    requires
        0 <= n <= stages.len(),
    ensures
        roots(stages, n).no_duplicates(),
        forall|s: int| #[trigger]
            roots(stages, n).contains(s) <==> 0 <= s < n && stages[s].depends_on@.len() == 0,
    decreases n,
{
    if n > 0 {
        lemma_roots(stages, n - 1);
        if stages[n - 1].depends_on@.len() == 0 {
            lemma_insert_by_name(stages, roots(stages, n - 1), n - 1);
        }
    }
}

pub proof fn lemma_sorting_start(stages: Seq<PipelineStage>)
    ensures
        sorting(stages, Seq::empty(), roots(stages, stages.len() as int)),
{
    let n = stages.len() as int;
    let q = roots(stages, n);
    let e = Seq::<int>::empty();
    lemma_roots(stages, n);
    assert(e + q =~= q);
    assert forall|i: int| 0 <= i < q.len() implies 0 <= #[trigger] q[i] < stages.len() by {
        assert(q.contains(q[i]));
    }
    assert forall|s: int| 0 <= s < stages.len() implies (#[trigger] ready(stages, e, s)
        <==> q.contains(s)) by {
        if stages[s].depends_on@.len() > 0 {
            let dep = stages[s].depends_on@[0]@;
            assert(!dep_met(stages, e, dep));
        }
    }
}

/// A list of distinct numbers below `n` has at most `n` entries.
pub proof fn lemma_distinct_bounded(s: Seq<int>, n: nat)
    requires
        s.no_duplicates(),
        forall|i: int| 0 <= i < s.len() ==> 0 <= #[trigger] s[i] < n,
    ensures
        s.len() <= n,
{
    let range = vstd::set_lib::set_int_range(0, n as int);
    vstd::set_lib::lemma_int_range(0, n as int);
    s.unique_seq_to_set();
    assert(s.to_set().subset_of(range)) by {
        assert forall|x: int| s.to_set().contains(x) implies range.contains(x) by {
            let i = choose|i: int| 0 <= i < s.len() && s[i] == x;
        }
    }
    vstd::set_lib::lemma_len_subset(s.to_set(), range);
}

/// Sorting ends with an empty queue.
pub proof fn lemma_drain(
    stages: Seq<PipelineStage>,
    order: Seq<int>,
    queue: Seq<int>,
    fuel: nat,
)
    requires
        sorting(stages, order, queue),
        fuel + order.len() == stages.len(),
    ensures
        sorting(stages, drain(stages, order, queue, fuel), Seq::empty()),
    decreases fuel,
{
    let both = order + queue;
    if queue.len() == 0 {
        assert(order + Seq::<int>::empty() =~= both);
    } else if fuel == 0 {
        lemma_distinct_bounded(both, stages.len());
    } else {
        lemma_sorting_step(stages, order, queue);
        lemma_drain(
            stages,
            order.push(queue[0]),
            queue.skip(1) + unlocked(stages, order, queue[0], stages.len() as int),
            (fuel - 1) as nat,
        );
    }
}

pub proof fn lemma_run_order(stages: Seq<PipelineStage>)
    ensures
        sorting(stages, run_order(stages), Seq::empty()),
{
    lemma_sorting_start(stages);
    lemma_drain(stages, Seq::empty(), roots(stages, stages.len() as int), stages.len());
}

/// Each stage runs once at most, and behind all that it depends on.
pub proof fn law_order_respects_dependencies(stages: Seq<PipelineStage>)
    ensures
        run_order(stages).no_duplicates(),
        forall|p: int|
            0 <= p < run_order(stages).len() ==> 0 <= #[trigger] run_order(stages)[p]
                < stages.len(),
        forall|p: int|
            0 <= p < run_order(stages).len() ==> ready(
                stages,
                run_order(stages).take(p),
                #[trigger] run_order(stages)[p],
            ),
{
    lemma_run_order(stages);
    let order = run_order(stages);
    assert(order + Seq::<int>::empty() =~= order);
}

/// A stage is left out of the order only where a stage that it depends on is.
pub proof fn law_left_out_waits_for_left_out(stages: Seq<PipelineStage>, s: int)
    requires
        0 <= s < stages.len(),
        !run_order(stages).contains(s),
    ensures
        exists|j: int|
            0 <= j < stages[s].depends_on@.len() && !dep_met(
                stages,
                run_order(stages),
                #[trigger] stages[s].depends_on@[j]@,
            ),
{
    lemma_run_order(stages);
    let order = run_order(stages);
    assert(order + Seq::<int>::empty() =~= order);
    assert(!ready(stages, order, s));
}

/// Where the stages can be put in an order that respects every dependency,
/// none is left out: a reported cycle is one.
pub proof fn law_no_false_cycle(stages: Seq<PipelineStage>, witness: Seq<int>)
    requires
        forall|s: int| 0 <= s < stages.len() ==> #[trigger] witness.contains(s),
        forall|p: int|
            0 <= p < witness.len() ==> 0 <= #[trigger] witness[p] < stages.len() && ready(
                stages,
                witness.take(p),
                witness[p],
            ),
    ensures
        sorted_stages(stages) is Ok,
{
    lemma_run_order(stages);
    let order = run_order(stages);
    assert(order + Seq::<int>::empty() =~= order);
    assert forall|p: int| 0 <= p <= witness.len() implies #[trigger] all_in(
        witness.take(p),
        order,
    ) by {
        lemma_witness_prefix(stages, witness, order, p);
    }
    assert(all_in(witness.take(witness.len() as int), order));
    assert(witness.take(witness.len() as int) =~= witness);
    assert forall|s: int| 0 <= s < stages.len() implies #[trigger] order.contains(s) by {
        assert(witness.contains(s));
        let i = choose|i: int| 0 <= i < witness.len() && witness[i] == s;
        assert(order.contains(witness[i]));
    }
    lemma_covers_all(order, stages.len());
}

/// Where there is no cycle, the order holds every stage.
pub proof fn law_order_is_whole(stages: Seq<PipelineStage>, s: int)
    requires
        sorted_stages(stages) is Ok,
        0 <= s < stages.len(),
    ensures
        run_order(stages).contains(s),
{
    law_order_respects_dependencies(stages);
    let order = run_order(stages);
    if !order.contains(s) {
        let more = order.push(s);
        assert forall|i: int, j: int| 0 <= i < more.len() && 0 <= j < more.len() && i
            != j implies more[i] != more[j] by {
            if i < order.len() {
                assert(more[i] == order[i] && order.contains(order[i]));
            }
            if j < order.len() {
                assert(more[j] == order[j] && order.contains(order[j]));
            }
        }
        lemma_distinct_bounded(more, stages.len());
    }
}

/// Whether `b` holds every entry of `a`.
spec fn all_in(a: Seq<int>, b: Seq<int>) -> bool {
    forall|i: int| 0 <= i < a.len() ==> b.contains(#[trigger] a[i])
}

proof fn lemma_witness_prefix(
    stages: Seq<PipelineStage>,
    witness: Seq<int>,
    order: Seq<int>,
    p: int,
)
    requires
        sorting(stages, order, Seq::empty()),
        0 <= p <= witness.len(),
        forall|q: int|
            0 <= q < witness.len() ==> 0 <= #[trigger] witness[q] < stages.len() && ready(
                stages,
                witness.take(q),
                witness[q],
            ),
    ensures
        all_in(witness.take(p), order),
    decreases p,
{
    if p > 0 {
        lemma_witness_prefix(stages, witness, order, p - 1);
        let s = witness[p - 1];
        let before = witness.take(p - 1);
        assert(order + Seq::<int>::empty() =~= order);
        assert(ready(stages, order, s)) by {
            assert(ready(stages, before, s));
            assert forall|j: int| 0 <= j < stages[s].depends_on@.len() implies dep_met(
                stages,
                order,
                #[trigger] stages[s].depends_on@[j]@,
            ) by {
                let dep = stages[s].depends_on@[j]@;
                assert(dep_met(stages, before, dep));
                let k = choose|k: int| #[trigger]
                    before.contains(k) && 0 <= k < stages.len() && stages[k].id@ == dep;
                let at = choose|at: int| 0 <= at < before.len() && before[at] == k;
                assert(order.contains(before[at]));
            }
        }
        assert forall|i: int| 0 <= i < p implies order.contains(
            #[trigger] witness.take(p)[i],
        ) by {
            if i < p - 1 {
                assert(witness.take(p)[i] == before[i]);
            }
        }
    }
}

/// A list of distinct numbers below `n` that holds them all has `n` entries.
proof fn lemma_covers_all(s: Seq<int>, n: nat)
    requires
        s.no_duplicates(),
        forall|i: int| 0 <= i < s.len() ==> 0 <= #[trigger] s[i] < n,
        forall|x: int| 0 <= x < n ==> #[trigger] s.contains(x),
    ensures
        s.len() == n,
{
    lemma_distinct_bounded(s, n);
    let range = vstd::set_lib::set_int_range(0, n as int);
    vstd::set_lib::lemma_int_range(0, n as int);
    s.unique_seq_to_set();
    assert(range.subset_of(s.to_set())) by {
        assert forall|x: int| range.contains(x) implies s.to_set().contains(x) by {
            assert(s.contains(x));
        }
    }
    vstd::set_lib::lemma_len_subset(range, s.to_set());
}

/// The numbers of a list of indices.
pub open spec fn ints(v: Seq<usize>) -> Seq<int> {
    v.map_values(|i: usize| i as int)
}

/// Whether the flags say which stages are in `order`.
spec fn flags_match(done: Seq<bool>, order: Seq<int>, n: int) -> bool {
    done.len() == n && forall|k: int| 0 <= k < n ==> (#[trigger] done[k] <==> order.contains(k))
}

/// Whether all that stage `s` depends on is done.
fn is_ready(stages: &Vec<PipelineStage>, done: &Vec<bool>, s: usize, order: Ghost<Seq<int>>) -> (r:
    bool)
    requires
        s < stages@.len(),
        flags_match(done@, order@, stages@.len() as int),
    ensures
        r == ready(stages@, order@, s as int),
{
    let deps = &stages[s].depends_on;
    let mut j: usize = 0;
    while j < deps.len()
        invariant
            j <= deps@.len(),
            s < stages@.len(),
            *deps == stages@[s as int].depends_on,
            flags_match(done@, order@, stages@.len() as int),
            forall|i: int| 0 <= i < j ==> dep_met(stages@, order@, #[trigger] deps@[i]@),
        decreases deps@.len() - j,
    {
        let mut k: usize = 0;
        let mut found = false;
        while k < stages.len() && !found
            invariant
                k <= stages@.len(),
                j < deps@.len(),
                s < stages@.len(),
                *deps == stages@[s as int].depends_on,
                flags_match(done@, order@, stages@.len() as int),
                found ==> dep_met(stages@, order@, deps@[j as int]@),
                !found ==> forall|i: int|
                    0 <= i < k ==> !(#[trigger] order@.contains(i) && stages@[i].id@
                        == deps@[j as int]@),
            decreases stages@.len() - k + (if found {
                0int
            } else {
                1int
            }),
        {
            if done[k] && stages[k].id.same(&deps[j]) {
                proof {
                    assert(order@.contains(k as int));
                }
                found = true;
            } else {
                proof {
                    assert(done@[k as int] <==> order@.contains(k as int));
                }
                k += 1;
            }
        }
        if !found {
            proof {
                let dep = stages@[s as int].depends_on@[j as int]@;
                assert(!dep_met(stages@, order@, dep));
            }
            return false;
        }
        j += 1;
    }
    true
}

/// The stages that depend on none, in order of their names.
fn root_stages(stages: &Vec<PipelineStage>) -> (r: Vec<usize>)
    ensures
        ints(r@) == roots(stages@, stages@.len() as int),
{
    let mut q: Vec<usize> = Vec::new();
    let mut s: usize = 0;
    proof {
        assert(ints(q@) =~= Seq::empty());
    }
    while s < stages.len()
        invariant
            s <= stages@.len(),
            ints(q@) == roots(stages@, s as int),
            forall|i: int| 0 <= i < q@.len() ==> #[trigger] q@[i] < s,
        decreases stages@.len() - s,
    {
        if stages[s].depends_on.len() == 0 {
            let mut at: usize = q.len();
            let ghost all = ints(q@);
            proof {
                assert(all.take(all.len() as int) =~= all);
                assert(all.skip(all.len() as int) =~= Seq::empty());
                let whole = insert_by_name(stages@, all, s as int);
                assert(whole + Seq::<int>::empty() =~= whole);
            }
            while at > 0 && text::str_lt(stages[s].id.as_str(), stages[q[at - 1]].id.as_str())
                invariant
                    at <= q@.len(),
                    s < stages@.len(),
                    all == ints(q@),
                    forall|i: int| 0 <= i < q@.len() ==> #[trigger] q@[i] < s,
                    insert_by_name(stages@, all.take(at as int), s as int) + all.skip(at as int)
                        == insert_by_name(stages@, all, s as int),
                decreases at,
            {
                proof {
                    let t = all.take(at as int);
                    assert(t.last() == q@[at - 1] as int);
                    assert(t.drop_last() =~= all.take(at - 1));
                    let front = insert_by_name(stages@, all.take(at - 1), s as int);
                    assert(insert_by_name(stages@, t, s as int) == front.push(t.last()));
                    assert(front.push(t.last()) + all.skip(at as int) =~= front + all.skip(at - 1));
                }
                at -= 1;
            }
            proof {
                let t = all.take(at as int);
                if at > 0 {
                    assert(t.last() == q@[at - 1] as int);
                }
                assert(insert_by_name(stages@, t, s as int) =~= t.push(s as int));
            }
            q.insert(at, s);
            proof {
                assert(ints(q@) =~= all.take(at as int).push(s as int) + all.skip(at as int));
            }
        }
        s += 1;
    }
    q
}

/// The names of the stages `order`.
fn stage_names(stages: &Vec<PipelineStage>, order: &Vec<usize>) -> (r: Vec<StageId>)
    requires
        forall|i: int| 0 <= i < order@.len() ==> #[trigger] order@[i] < stages@.len(),
    ensures
        id_views(r@) == names_of(stages@, ints(order@)),
{
    let mut out: Vec<StageId> = Vec::new();
    let mut i: usize = 0;
    while i < order.len()
        invariant
            i <= order@.len(),
            forall|k: int| 0 <= k < order@.len() ==> #[trigger] order@[k] < stages@.len(),
            id_views(out@) == names_of(stages@, ints(order@)).take(i as int),
        decreases order@.len() - i,
    {
        let id = stages[order[i]].id.clone();
        proof {
            assert(id_views(out@.push(id)) =~= id_views(out@).push(id@));
            let all = names_of(stages@, ints(order@));
            assert(all.take(i as int + 1) =~= all.take(i as int).push(all[i as int]));
        }
        out.push(id);
        i += 1;
    }
    proof {
        let all = names_of(stages@, ints(order@));
        assert(all.take(all.len() as int) =~= all);
    }
    out
}

/// The order of the stages, or the cycle that prevents one.
fn topological_sort(stages: &Vec<PipelineStage>) -> (r: Result<Vec<StageId>, PipelineError>)
    ensures
        match r {
            Ok(order) => sorted_stages(stages@) == Ok::<Seq<Seq<char>>, PipelineErrorView>(
                id_views(order@),
            ),
            Err(e) => sorted_stages(stages@) == Err::<Seq<Seq<char>>, PipelineErrorView>(e@),
        },
{
    let n: usize = stages.len();
    let mut queue: Vec<usize> = root_stages(stages);
    let mut head: usize = 0;
    let mut order: Vec<usize> = Vec::new();
    let mut done: Vec<bool> = Vec::new();
    let mut was_ready: Vec<bool> = Vec::new();
    let mut i: usize = 0;
    while i < n
        invariant
            i <= n,
            done@.len() == i,
            was_ready@.len() == i,
            n == stages@.len(),
            forall|k: int| 0 <= k < i ==> !#[trigger] done@[k],
            forall|k: int|
                0 <= k < i ==> (#[trigger] was_ready@[k] <==> stages@[k].depends_on@.len() == 0),
        decreases n - i,
    {
        done.push(false);
        was_ready.push(stages[i].depends_on.len() == 0);
        i += 1;
    }
    let ghost start = run_order(stages@);
    proof {
        lemma_sorting_start(stages@);
        lemma_roots(stages@, n as int);
        let e = Seq::<int>::empty();
        let q = roots(stages@, n as int);
        assert(ints(order@) =~= e);
        assert(e + q =~= q);
        assert(ints(queue@).skip(0) =~= q);
        assert forall|k: int| 0 <= k < n implies (#[trigger] was_ready@[k] <==> ready(
            stages@,
            e,
            k,
        )) by {
            assert(ready(stages@, e, k) <==> q.contains(k));
        }
    }
    while head < queue.len()
        invariant
            n == stages@.len(),
            head <= queue@.len(),
            order@.len() == head,
            start == run_order(stages@),
            sorting(stages@, ints(order@), ints(queue@).skip(head as int)),
            drain(
                stages@,
                ints(order@),
                ints(queue@).skip(head as int),
                (n - head) as nat,
            ) == start,
            head <= n,
            flags_match(done@, ints(order@), n as int),
            was_ready@.len() == n,
            forall|k: int|
                0 <= k < n ==> (#[trigger] was_ready@[k] <==> ready(stages@, ints(order@), k)),
        decreases n - head,
    {
        let k: usize = queue[head];
        let ghost ov = ints(order@);
        let ghost qv = ints(queue@).skip(head as int);
        proof {
            assert(qv[0] == k as int);
            let both = ov + qv;
            assert(both[ov.len() as int] == k as int);
            lemma_distinct_bounded(both, n as nat);
            lemma_sorting_step(stages@, ov, qv);
        }
        order.push(k);
        done.set(k, true);
        head += 1;
        let ghost ov2 = ov.push(k as int);
        proof {
            assert(ints(order@) =~= ov2);
            assert(flags_match(done@, ov2, n as int)) by {
                assert forall|x: int| 0 <= x < n implies (#[trigger] done@[x] <==> ov2.contains(
                    x,
                )) by {
                    if x == k {
                        assert(ov2[ov.len() as int] == x);
                    } else if ov.contains(x) {
                        let m = choose|m: int| 0 <= m < ov.len() && ov[m] == x;
                        assert(ov2[m] == x);
                    }
                    if ov2.contains(x) && x != k {
                        let m = choose|m: int| 0 <= m < ov2.len() && ov2[m] == x;
                        assert(ov[m] == x);
                    }
                }
            }
        }
        let mut s: usize = 0;
        let ghost rest = ints(queue@).skip(head as int);
        proof {
            assert(rest =~= qv.skip(1));
            assert(rest + unlocked(stages@, ov, k as int, 0) =~= rest);
        }
        let ghost was0 = was_ready@;
        while s < n
            invariant
                s <= n,
                n == stages@.len(),
                head <= queue@.len(),
                ov2 == ov.push(k as int),
                flags_match(done@, ov2, n as int),
                was_ready@.len() == n,
                forall|x: int|
                    s <= x < n ==> (#[trigger] was_ready@[x] <==> ready(stages@, ov, x)),
                forall|x: int|
                    0 <= x < s ==> (#[trigger] was_ready@[x] <==> ready(stages@, ov2, x)),
                ints(queue@).skip(head as int) == rest + unlocked(
                    stages@,
                    ov,
                    k as int,
                    s as int,
                ),
            decreases n - s,
        {
            let ghost before = ints(queue@).skip(head as int);
            if !was_ready[s] {
                let now = is_ready(stages, &done, s, Ghost(ov2));
                if now {
                    was_ready.set(s, true);
                    queue.push(s);
                    proof {
                        assert(ints(queue@).skip(head as int) =~= before.push(s as int));
                        assert(before.push(s as int) =~= rest + unlocked(
                            stages@,
                            ov,
                            k as int,
                            s as int,
                        ).push(s as int));
                    }
                }
            } else {
                proof {
                    lemma_ready_grows(stages@, ov, k as int, s as int);
                }
            }
            s += 1;
        }
    }
    proof {
        assert(ints(queue@).skip(head as int).len() == 0);
        assert(ints(order@) == start);
        assert forall|x: int| 0 <= x < order@.len() implies #[trigger] order@[x] < stages@.len() by {
            let both = ints(order@) + ints(queue@).skip(head as int);
            assert(both[x] == order@[x] as int);
        }
    }
    if order.len() == n {
        Ok(stage_names(stages, &order))
    } else {
        let mut remaining: Vec<StageId> = Vec::new();
        let mut m: usize = 0;
        proof {
            assert(id_views(remaining@) =~= Seq::empty());
        }
        while m < n
            invariant
                m <= n,
                n == stages@.len(),
                flags_match(done@, start, n as int),
                id_views(remaining@) == left_out(stages@, start, m as int),
            decreases n - m,
        {
            proof {
                assert(done@[m as int] <==> start.contains(m as int));
            }
            if !done[m] {
                let id = stages[m].id.clone();
                proof {
                    assert(id_views(remaining@.push(id)) =~= id_views(remaining@).push(id@));
                }
                remaining.push(id);
            }
            m += 1;
        }
        Err(PipelineError::CycleDetected(remaining))
    }
}

impl Pipeline {
    /// A pipeline without stages.
    pub fn new(id: &str, name: &str) -> (r: Self)
        ensures
            r.id@ == id@,
            r.name@ == name@,
            r.stages@.len() == 0,
    {
        Pipeline { id: id.to_owned(), name: name.to_owned(), stages: Vec::new() }
    }

    /// Adds a stage behind the others.
    pub fn add_stage(&mut self, stage: PipelineStage)
        ensures
            final(self).id == old(self).id,
            final(self).name == old(self).name,
            final(self).stages@ == old(self).stages@.push(stage),
    {
        self.stages.push(stage);
    }

    /// Whether some stage is called `id`.
    fn has_stage(&self, id: &StageId) -> (r: bool)
        ensures
            r == known(self.stages@, id@),
    {
        let mut i: usize = 0;
        while i < self.stages.len()
            invariant
                i <= self.stages@.len(),
                forall|j: int| 0 <= j < i ==> (#[trigger] self.stages@[j]).id@ != id@,
            decreases self.stages@.len() - i,
        {
            if self.stages[i].id.same(id) {
                return true;
            }
            i += 1;
        }
        false
    }

    /// Checks that the stages can be run: there are some, their names differ,
    /// they depend on known stages, and not on each other in a circle.
    pub fn validate(&self) -> (r: Result<(), PipelineError>)
        ensures
            match r {
                Ok(_) => pipeline_fault(self.stages@) is None,
                Err(e) => pipeline_fault(self.stages@) == Some(e@),
            },
    {
        let stages = &self.stages;
        if stages.len() == 0 {
            return Err(PipelineError::EmptyPipeline);
        }
        let mut i: usize = 0;
        while i < stages.len()
            invariant
                i <= stages@.len(),
                *stages == self.stages,
                stages@.len() > 0,
                first_repeat(stages@, 0) == first_repeat(stages@, i as int),
            decreases stages@.len() - i,
        {
            let mut j: usize = 0;
            while j < i
                invariant
                    j <= i < stages@.len(),
                    *stages == self.stages,
                    stages@.len() > 0,
                    first_repeat(stages@, 0) == first_repeat(stages@, i as int),
                    forall|k: int|
                        0 <= k < j ==> (#[trigger] stages@[k]).id@ != stages@[i as int].id@,
                decreases i - j,
            {
                if stages[j].id.same(&stages[i].id) {
                    proof {
                        assert(repeats(stages@, i as int));
                    }
                    return Err(PipelineError::DuplicateStage(stages[i].id.clone()));
                }
                j += 1;
            }
            proof {
                assert(!repeats(stages@, i as int));
            }
            i += 1;
        }
        i = 0;
        while i < stages.len()
            invariant
                i <= stages@.len(),
                *stages == self.stages,
                stages@.len() > 0,
                first_repeat(stages@, 0) == stages@.len(),
                first_dangling(stages@, 0) == first_dangling(stages@, i as int),
            decreases stages@.len() - i,
        {
            let deps = &stages[i].depends_on;
            let mut j: usize = 0;
            while j < deps.len()
                invariant
                    j <= deps@.len(),
                    i < stages@.len(),
                    *deps == stages@[i as int].depends_on,
                    *stages == self.stages,
                    stages@.len() > 0,
                    first_repeat(stages@, 0) == stages@.len(),
                    first_dangling(stages@, 0) == first_dangling(stages@, i as int),
                    first_unknown(stages@, i as int, 0) == first_unknown(
                        stages@,
                        i as int,
                        j as int,
                    ),
                decreases deps@.len() - j,
            {
                if !self.has_stage(&deps[j]) {
                    return Err(
                        PipelineError::UnknownDependency {
                            stage: stages[i].id.clone(),
                            missing: deps[j].clone(),
                        },
                    );
                }
                j += 1;
            }
            i += 1;
        }
        match topological_sort(stages) {
            Ok(_) => Ok(()),
            Err(e) => Err(e),
        }
    }

    /// The stages in an order in which each comes behind all that it depends
    /// on.
    pub fn topological_order(&self) -> (r: Result<Vec<StageId>, PipelineError>)
        ensures
            match r {
                Ok(order) => pipeline_fault(self.stages@) is None && sorted_stages(self.stages@)
                    == Ok::<Seq<Seq<char>>, PipelineErrorView>(id_views(order@)),
                Err(e) => pipeline_fault(self.stages@) == Some(e@),
            },
    {
        match self.validate() {
            Ok(_) => topological_sort(&self.stages),
            Err(e) => Err(e),
        }
    }

    /// The stages that are not completed while all that they depend on is, in
    /// order of definition.
    pub fn ready_stages(&self, completed: &Vec<StageId>) -> (r: Vec<StageId>)
        ensures
            id_views(r@) == ready_names(self.stages@, completed@, self.stages@.len() as int),
    {
        let mut out: Vec<StageId> = Vec::new();
        let mut i: usize = 0;
        proof {
            assert(id_views(out@) =~= Seq::empty());
        }
        while i < self.stages.len()
            invariant
                i <= self.stages@.len(),
                id_views(out@) == ready_names(self.stages@, completed@, i as int),
            decreases self.stages@.len() - i,
        {
            let stage = &self.stages[i];
            if !contains_id(completed, &stage.id) && all_completed(&stage.depends_on, completed) {
                let id = stage.id.clone();
                proof {
                    assert(id_views(out@.push(id)) =~= id_views(out@).push(id@));
                }
                out.push(id);
            }
            i += 1;
        }
        out
    }

    /// The first stage called `id`.
    pub fn stage(&self, id: &StageId) -> (r: Option<&PipelineStage>)
        ensures
            match r {
                Some(s) => stage_index(self.stages@, id@) < self.stages@.len() && *s
                    == self.stages@[stage_index(self.stages@, id@)],
                None => stage_index(self.stages@, id@) == self.stages@.len(),
            },
    {
        let mut i: usize = 0;
        while i < self.stages.len()
            invariant
                i <= self.stages@.len(),
                forall|j: int| 0 <= j < i ==> (#[trigger] self.stages@[j]).id@ != id@,
            decreases self.stages@.len() - i,
        {
            if self.stages[i].id.same(id) {
                proof {
                    lemma_stage_index(self.stages@, id@, i as int);
                }
                return Some(&self.stages[i]);
            }
            i += 1;
        }
        proof {
            lemma_stage_index(self.stages@, id@, self.stages@.len() as int);
        }
        None
    }
}

/// Whether all of `deps` are completed.
pub open spec fn deps_completed(deps: Seq<StageId>, completed: Seq<StageId>) -> bool {
    forall|j: int| 0 <= j < deps.len() ==> has_id(completed, #[trigger] deps[j]@)
}

/// The names of the stages before stage `n` that are not completed while all
/// that they depend on is.
pub open spec fn ready_names(
    stages: Seq<PipelineStage>,
    completed: Seq<StageId>,
    n: int,
) -> Seq<Seq<char>>
    decreases n,
{
    if n <= 0 {
        Seq::empty()
    } else {
        let front = ready_names(stages, completed, n - 1);
        let s = stages[n - 1];
        if !has_id(completed, s.id@) && deps_completed(s.depends_on@, completed) {
            front.push(s.id@)
        } else {
            front
        }
    }
}

/// Whether all of `deps` are completed.
pub(crate) fn all_completed(deps: &Vec<StageId>, completed: &Vec<StageId>) -> (r: bool)
    ensures
        r == deps_completed(deps@, completed@),
{
    let mut j: usize = 0;
    while j < deps.len()
        invariant
            j <= deps@.len(),
            forall|k: int| 0 <= k < j ==> has_id(completed@, #[trigger] deps@[k]@),
        decreases deps@.len() - j,
    {
        if !contains_id(completed, &deps[j]) {
            return false;
        }
        j += 1;
    }
    true
}

/// The placeholder of a stage's output in a prompt.
pub open spec fn placeholder(id: Seq<char>) -> Seq<char> {
    "{{"@ + id + "}}"@
}

/// `template` with the placeholders of the first `n` outputs filled in, one
/// output after the other.
pub open spec fn interpolated(
    template: Seq<char>,
    outputs: Seq<(StageId, String)>,
    n: int,
) -> Seq<char>
    decreases n,
{
    if n <= 0 {
        template
    } else {
        text::replaced(
            interpolated(template, outputs, n - 1),
            placeholder(outputs[n - 1].0@),
            outputs[n - 1].1@,
        )
    }
}

/// Fills the outputs of stages into a prompt: each `{{stage}}` becomes the
/// output of that stage. The outputs are filled in one after the other.
pub fn interpolate_prompt(template: &str, outputs: &Vec<(StageId, String)>) -> (r: String)
    ensures
        r@ == interpolated(template@, outputs@, outputs@.len() as int),
{
    let mut result = template.to_owned();
    let mut i: usize = 0;
    while i < outputs.len()
        invariant
            i <= outputs@.len(),
            result@ == interpolated(template@, outputs@, i as int),
        decreases outputs@.len() - i,
    {
        let mark = text::concat3("{{", outputs[i].0.as_str(), "}}");
        result = text::replace(result.as_str(), mark.as_str(), outputs[i].1.as_str());
        i += 1;
    }
    result
}

} // verus!
