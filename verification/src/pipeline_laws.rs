//! What holds of pipelines and their runs.

use vstd::prelude::*;
use crate::pipeline;
use crate::pipeline::{
    PipelineErrorView, PipelineRunState, PipelineStage, StageId, StageState,
};
use crate::pipeline_run as run;
use crate::pipeline_run::{PipelineRun, StageRun};
use crate::text;
use crate::time::Timestamp;

verus! {

/// Whether no two stages have one name.
pub open spec fn names_differ(stages: Seq<PipelineStage>) -> bool {
    forall|i: int, j: int|
        0 <= i < j < stages.len() ==> (#[trigger] stages[i]).id@ != (#[trigger] stages[j]).id@
}

/// Whether stage `i` depends on a stage called `name`.
pub open spec fn needs(stages: Seq<PipelineStage>, i: int, name: Seq<char>) -> bool {
    exists|j: int|
        0 <= j < stages[i].depends_on@.len() && (#[trigger] stages[i].depends_on@[j])@ == name
}

/// Whether every dependency is on a stage that there is.
pub open spec fn needs_are_known(stages: Seq<PipelineStage>) -> bool {
    forall|i: int, name: Seq<char>|
        0 <= i < stages.len() && #[trigger] needs(stages, i, name) ==> exists|k: int|
            0 <= k < stages.len() && (#[trigger] stages[k]).id@ == name
}

/// Whether `order` holds every stage, and each behind all that it depends on.
pub open spec fn is_good_order(stages: Seq<PipelineStage>, order: Seq<int>) -> bool {
    &&& forall|p: int| 0 <= p < order.len() ==> 0 <= #[trigger] order[p] < stages.len()
    &&& forall|i: int| 0 <= i < stages.len() ==> #[trigger] order.contains(i)
    &&& forall|p: int, name: Seq<char>|
        0 <= p < order.len() && #[trigger] needs(stages, order[p], name) ==> comes_before(
            stages,
            order,
            p,
            name,
        )
}

/// Whether a stage called `name` stands in `order` before place `p`.
pub open spec fn comes_before(
    stages: Seq<PipelineStage>,
    order: Seq<int>,
    p: int,
    name: Seq<char>,
) -> bool {
    exists|q: int| 0 <= q < p && stages[#[trigger] order[q]].id@ == name
}

proof fn lemma_first_repeat(stages: Seq<PipelineStage>, from: int)
    requires
        0 <= from <= stages.len(),
    ensures
        ({
            let r = pipeline::first_repeat(stages, from);
            &&& from <= r <= stages.len()
            &&& r < stages.len() ==> pipeline::repeats(stages, r)
            &&& forall|k: int| from <= k < r ==> !#[trigger] pipeline::repeats(stages, k)
        }),
    decreases stages.len() - from,
{
    if from < stages.len() && !pipeline::repeats(stages, from) {
        lemma_first_repeat(stages, from + 1);
    }
}

proof fn lemma_first_unknown(stages: Seq<PipelineStage>, i: int, from: int)
    requires
        0 <= from <= stages[i].depends_on@.len(),
    ensures
        ({
            let deps = stages[i].depends_on@;
            let r = pipeline::first_unknown(stages, i, from);
            &&& from <= r <= deps.len()
            &&& r < deps.len() ==> !pipeline::known(stages, deps[r]@)
            &&& forall|k: int| from <= k < r ==> pipeline::known(stages, (#[trigger] deps[k])@)
        }),
    decreases stages[i].depends_on@.len() - from,
{
    let deps = stages[i].depends_on@;
    if from < deps.len() && pipeline::known(stages, deps[from]@) {
        lemma_first_unknown(stages, i, from + 1);
    }
}

/// Whether all that stage `i` depends on is there.
spec fn all_known(stages: Seq<PipelineStage>, i: int) -> bool {
    forall|name: Seq<char>| #[trigger]
        needs(stages, i, name) ==> exists|k: int|
            0 <= k < stages.len() && (#[trigger] stages[k]).id@ == name
}

proof fn lemma_all_known(stages: Seq<PipelineStage>, i: int)
    requires
        0 <= i < stages.len(),
    ensures
        (pipeline::first_unknown(stages, i, 0) == stages[i].depends_on@.len()) == all_known(
            stages,
            i,
        ),
{
    lemma_first_unknown(stages, i, 0);
    let deps = stages[i].depends_on@;
    let r = pipeline::first_unknown(stages, i, 0);
    if r < deps.len() {
        assert(needs(stages, i, deps[r]@));
    } else {
        assert forall|name: Seq<char>| #[trigger] needs(stages, i, name) implies exists|k: int|
            0 <= k < stages.len() && (#[trigger] stages[k]).id@ == name by {
            let j = choose|j: int|
                0 <= j < stages[i].depends_on@.len() && (#[trigger] stages[i].depends_on@[j])@
                    == name;
            assert(pipeline::known(stages, deps[j]@));
        }
    }
}

proof fn lemma_first_dangling(stages: Seq<PipelineStage>, from: int)
    requires
        0 <= from <= stages.len(),
    ensures
        ({
            let r = pipeline::first_dangling(stages, from);
            &&& from <= r <= stages.len()
            &&& r < stages.len() ==> !all_known(stages, r)
            &&& forall|k: int| from <= k < r ==> #[trigger] all_known(stages, k)
        }),
    decreases stages.len() - from,
{
    if from < stages.len() {
        lemma_all_known(stages, from);
        lemma_first_unknown(stages, from, 0);
        if pipeline::first_unknown(stages, from, 0) == stages[from].depends_on@.len() {
            lemma_first_dangling(stages, from + 1);
        }
    }
}

/// A stage is ready where a stage of each name that it needs is among the stages
/// before it.
proof fn lemma_ready(stages: Seq<PipelineStage>, order: Seq<int>, p: int)
    requires
        0 <= p < order.len(),
        forall|q: int| 0 <= q < order.len() ==> 0 <= #[trigger] order[q] < stages.len(),
    ensures
        pipeline::ready(stages, order.take(p), order[p]) <==> forall|name: Seq<char>| #[trigger]
            needs(stages, order[p], name) ==> comes_before(stages, order, p, name),
{
    let s = order[p];
    let front = order.take(p);
    if pipeline::ready(stages, front, s) {
        assert forall|name: Seq<char>| #[trigger] needs(stages, s, name) implies comes_before(
            stages,
            order,
            p,
            name,
        ) by {
            let j = choose|j: int|
                0 <= j < stages[s].depends_on@.len() && (#[trigger] stages[s].depends_on@[j])@
                    == name;
            assert(pipeline::dep_met(stages, front, stages[s].depends_on@[j]@));
            let k = choose|k: int| #[trigger]
                front.contains(k) && 0 <= k < stages.len() && stages[k].id@ == name;
            let q = choose|q: int| 0 <= q < front.len() && front[q] == k;
            assert(order[q] == k);
        }
    }
    if forall|name: Seq<char>| #[trigger]
        needs(stages, s, name) ==> comes_before(stages, order, p, name) {
        assert forall|j: int| 0 <= j < stages[s].depends_on@.len() implies pipeline::dep_met(
            stages,
            front,
            #[trigger] stages[s].depends_on@[j]@,
        ) by {
            let name = stages[s].depends_on@[j]@;
            assert(needs(stages, s, name));
            let q = choose|q: int| 0 <= q < p && stages[#[trigger] order[q]].id@ == name;
            assert(front[q] == order[q]);
            assert(front.contains(order[q]));
        }
    }
}

/// A pipeline is valid where it has stages, no two of one name, each depends on
/// stages that there are, and there is an order in which each comes behind all
/// that it depends on.
pub proof fn law_valid_pipelines(stages: Seq<PipelineStage>, order: Seq<int>)
    ensures
        pipeline::pipeline_fault(stages) is None ==> {
            &&& stages.len() > 0
            &&& names_differ(stages)
            &&& needs_are_known(stages)
            &&& is_good_order(stages, pipeline::run_order(stages))
        },
        stages.len() > 0 && names_differ(stages) && needs_are_known(stages) && is_good_order(
            stages,
            order,
        ) ==> pipeline::pipeline_fault(stages) is None,
{
    lemma_first_repeat(stages, 0);
    lemma_first_dangling(stages, 0);
    if pipeline::pipeline_fault(stages) is None {
        assert forall|i: int, j: int| 0 <= i < j < stages.len() implies (
        #[trigger] stages[i]).id@ != (#[trigger] stages[j]).id@ by {
            assert(!pipeline::repeats(stages, j));
        }
        assert forall|i: int, name: Seq<char>| 0 <= i < stages.len() && #[trigger] needs(
            stages,
            i,
            name,
        ) implies exists|k: int| 0 <= k < stages.len() && (#[trigger] stages[k]).id@ == name by {
            assert(all_known(stages, i));
        }
        let found = pipeline::run_order(stages);
        pipeline::law_order_respects_dependencies(stages);
        assert forall|i: int| 0 <= i < stages.len() implies #[trigger] found.contains(i) by {
            pipeline::law_order_is_whole(stages, i);
        }
        assert forall|p: int, name: Seq<char>| 0 <= p < found.len() && #[trigger] needs(
            stages,
            found[p],
            name,
        ) implies comes_before(stages, found, p, name) by {
            lemma_ready(stages, found, p);
            assert(pipeline::ready(stages, found.take(p), found[p]));
        }
    }
    if stages.len() > 0 && names_differ(stages) && needs_are_known(stages) && is_good_order(
        stages,
        order,
    ) {
        let dup = pipeline::first_repeat(stages, 0);
        if dup < stages.len() {
            let j = choose|j: int| 0 <= j < dup && (#[trigger] stages[j]).id@ == stages[dup].id@;
            assert(stages[j].id@ != stages[dup].id@);
        }
        let dangling = pipeline::first_dangling(stages, 0);
        if dangling < stages.len() {
            assert(all_known(stages, dangling));
        }
        assert forall|p: int| 0 <= p < order.len() implies 0 <= #[trigger] order[p] < stages.len()
            && pipeline::ready(stages, order.take(p), order[p]) by {
            lemma_ready(stages, order, p);
        }
        pipeline::law_no_false_cycle(stages, order);
    }
}

/// What is wrong with a pipeline is said of the first stage at which it is: a
/// pipeline without stages, then a name that an earlier stage has, then a
/// dependency on no stage; a cycle is said of stages that are none of these.
pub proof fn law_faults_of_pipelines(stages: Seq<PipelineStage>)
    ensures
        (pipeline::pipeline_fault(stages) == Some(PipelineErrorView::EmptyPipeline)) <==> stages.len()
            == 0,
        (pipeline::pipeline_fault(stages) matches Some(PipelineErrorView::DuplicateStage(name))
            ==> exists|i: int, j: int|
            0 <= i < j < stages.len() && (#[trigger] stages[i]).id@ == name && (
            #[trigger] stages[j]).id@ == name && names_differ(stages.take(j))),
        (pipeline::pipeline_fault(stages) matches Some(
            PipelineErrorView::UnknownDependency { stage, missing },
        ) ==> names_differ(stages) && exists|i: int|
            0 <= i < stages.len() && (#[trigger] stages[i]).id@ == stage && needs(
                stages,
                i,
                missing,
            ) && !pipeline::known(stages, missing)),
        (pipeline::pipeline_fault(stages) matches Some(PipelineErrorView::CycleDetected(names))
            ==> names_differ(stages) && needs_are_known(stages)),
{
    lemma_first_repeat(stages, 0);
    lemma_first_dangling(stages, 0);
    let dup = pipeline::first_repeat(stages, 0);
    let dangling = pipeline::first_dangling(stages, 0);
    if stages.len() > 0 {
        if dup < stages.len() {
            let i = choose|i: int| 0 <= i < dup && (#[trigger] stages[i]).id@ == stages[dup].id@;
            let front = stages.take(dup);
            assert forall|a: int, b: int| 0 <= a < b < front.len() implies (
            #[trigger] front[a]).id@ != (#[trigger] front[b]).id@ by {
                assert(front[a] == stages[a] && front[b] == stages[b]);
                assert(!pipeline::repeats(stages, b));
            }
            assert(stages[i].id@ == stages[dup].id@ && names_differ(stages.take(dup)));
        } else {
            assert forall|i: int, j: int| 0 <= i < j < stages.len() implies (
            #[trigger] stages[i]).id@ != (#[trigger] stages[j]).id@ by {
                assert(!pipeline::repeats(stages, j));
            }
            if dangling < stages.len() {
                lemma_first_unknown(stages, dangling, 0);
                lemma_all_known(stages, dangling);
                let r = pipeline::first_unknown(stages, dangling, 0);
                let missing = stages[dangling].depends_on@[r]@;
                assert(needs(stages, dangling, missing));
                assert(stages[dangling].id@ == stages[dangling].id@);
            } else {
                assert forall|i: int, name: Seq<char>| 0 <= i < stages.len() && #[trigger] needs(
                    stages,
                    i,
                    name,
                ) implies exists|k: int|
                    0 <= k < stages.len() && (#[trigger] stages[k]).id@ == name by {
                    assert(all_known(stages, i));
                }
            }
        }
    }
}

/// The names in the order of a pipeline are those of its stages, each stage once,
/// and each behind the names that it depends on.
pub proof fn law_order_of_names(stages: Seq<PipelineStage>, names: Seq<Seq<char>>)
    requires
        pipeline::pipeline_fault(stages) is None,
        pipeline::sorted_stages(stages) == Ok::<Seq<Seq<char>>, PipelineErrorView>(names),
    ensures
        names.len() == stages.len(),
        names.no_duplicates(),
        forall|i: int| 0 <= i < stages.len() ==> names.contains((#[trigger] stages[i]).id@),
        forall|i: int, p: int, name: Seq<char>|
            0 <= i < stages.len() && 0 <= p < names.len() && #[trigger] names[p] == stages[i].id@
                && #[trigger] needs(stages, i, name) ==> exists|q: int|
                0 <= q < p && #[trigger] names[q] == name,
{
    let order = pipeline::run_order(stages);
    law_valid_pipelines(stages, order);
    pipeline::law_order_respects_dependencies(stages);
    assert forall|i: int| 0 <= i < stages.len() implies names.contains(
        (#[trigger] stages[i]).id@,
    ) by {
        assert(order.contains(i));
        let p = choose|p: int| 0 <= p < order.len() && order[p] == i;
        assert(names[p] == stages[i].id@);
    }
    assert forall|p: int, q: int| 0 <= p < q < names.len() implies names[p] != names[q] by {
        let (a, b) = (order[p], order[q]);
        assert(a != b);
        if a < b {
            assert(stages[a].id@ != stages[b].id@);
        } else {
            assert(stages[b].id@ != stages[a].id@);
        }
    }
    assert forall|i: int, p: int, name: Seq<char>|
        0 <= i < stages.len() && 0 <= p < names.len() && #[trigger] names[p] == stages[i].id@
            && #[trigger] needs(stages, i, name) implies exists|q: int|
        0 <= q < p && #[trigger] names[q] == name by {
        let s = order[p];
        if s < i {
            assert(stages[s].id@ != stages[i].id@);
        } else if i < s {
            assert(stages[i].id@ != stages[s].id@);
        }
        assert(s == i);
        assert(comes_before(stages, order, p, name));
        let q = choose|q: int| 0 <= q < p && stages[#[trigger] order[q]].id@ == name;
        assert(names[q] == name);
    }
}

/// The queue behind the first `k` stages of the order: what is ready then stands
/// in it, and comes next in the order.
proof fn lemma_queue_at(
    stages: Seq<PipelineStage>,
    order: Seq<int>,
    queue: Seq<int>,
    fuel: nat,
    k: int,
) -> (q: Seq<int>)
    requires
        pipeline::sorting(stages, order, queue),
        fuel + order.len() == stages.len(),
        order.len() <= k <= pipeline::drain(stages, order, queue, fuel).len(),
    ensures
        ({
            let all = pipeline::drain(stages, order, queue, fuel);
            &&& order.len() <= all.len()
            &&& all.take(order.len() as int) == order
            &&& pipeline::sorting(stages, all.take(k), q)
            &&& k + q.len() <= all.len()
            &&& all.take(k + q.len()) == all.take(k) + q
            &&& k == order.len() ==> q == queue
        }),
    decreases fuel,
{
    let all = pipeline::drain(stages, order, queue, fuel);
    if queue.len() == 0 {
        assert(all.take(k) =~= order);
        assert(all.take(k + queue.len()) =~= order + queue);
        queue
    } else if fuel == 0 {
        let both = order + queue;
        pipeline::lemma_distinct_bounded(both, stages.len());
        queue
    } else {
        pipeline::lemma_sorting_step(stages, order, queue);
        let order2 = order.push(queue[0]);
        let queue2 = queue.skip(1) + pipeline::unlocked(
            stages,
            order,
            queue[0],
            stages.len() as int,
        );
        let less = (fuel - 1) as nat;
        lemma_drain_grows(stages, order2, queue2, less);
        if k == order.len() {
            let next = lemma_queue_at(stages, order2, queue2, less, k + 1);
            assert(all.take(k) =~= order) by {
                assert(all.take(k + 1) =~= order2);
                assert(all.take(k) =~= all.take(k + 1).take(k));
            }
            assert(all.take(k + 1 + next.len()) =~= order2 + queue2);
            assert(k + queue.len() <= k + 1 + next.len());
            assert(all.take(k + queue.len()) =~= (order2 + queue2).take(k + queue.len()));
            assert(all.take(k + queue.len()) =~= order + queue);
            queue
        } else {
            let q = lemma_queue_at(stages, order2, queue2, less, k);
            assert(all.take(order.len() as int) =~= order) by {
                assert(all.take(order.len() as int + 1) =~= order2);
                assert(all.take(order.len() as int) =~= all.take(order.len() as int + 1).take(
                    order.len() as int,
                ));
            }
            q
        }
    }
}

proof fn lemma_drain_grows(
    stages: Seq<PipelineStage>,
    order: Seq<int>,
    queue: Seq<int>,
    fuel: nat,
)
    ensures
        pipeline::drain(stages, order, queue, fuel).len() >= order.len(),
    decreases fuel,
{
    if queue.len() > 0 && fuel > 0 {
        lemma_drain_grows(
            stages,
            order.push(queue[0]),
            queue.skip(1) + pipeline::unlocked(stages, order, queue[0], stages.len() as int),
            (fuel - 1) as nat,
        );
    }
}

/// Whether a stage of each name that stage `s` needs is among the first `k` of
/// the order.
pub open spec fn served(stages: Seq<PipelineStage>, order: Seq<int>, k: int, s: int) -> bool {
    forall|name: Seq<char>| #[trigger]
        needs(stages, s, name) ==> comes_before(stages, order, k, name)
}

proof fn lemma_served(stages: Seq<PipelineStage>, order: Seq<int>, k: int, s: int)
    requires
        0 <= k <= order.len(),
        0 <= s < stages.len(),
        forall|q: int| 0 <= q < order.len() ==> 0 <= #[trigger] order[q] < stages.len(),
    ensures
        pipeline::ready(stages, order.take(k), s) == served(stages, order, k, s),
{
    let with = order.take(k).push(s);
    lemma_ready(stages, with, k);
    assert(with.take(k) =~= order.take(k));
    assert forall|name: Seq<char>| comes_before(stages, with, k, name) == #[trigger] comes_before(
        stages,
        order,
        k,
        name,
    ) by {
        if comes_before(stages, with, k, name) {
            let q = choose|q: int| 0 <= q < k && stages[#[trigger] with[q]].id@ == name;
            assert(order[q] == with[q]);
        }
        if comes_before(stages, order, k, name) {
            let q = choose|q: int| 0 <= q < k && stages[#[trigger] order[q]].id@ == name;
            assert(with[q] == order[q]);
        }
    }
    if pipeline::ready(stages, order.take(k), s) {
        assert forall|name: Seq<char>| #[trigger] needs(stages, s, name) implies comes_before(
            stages,
            order,
            k,
            name,
        ) by {
            assert(needs(stages, with[k], name));
            assert(comes_before(stages, with, k, name));
        }
    }
    if served(stages, order, k, s) {
        assert forall|name: Seq<char>| #[trigger] needs(stages, with[k], name) implies comes_before(
            stages,
            with,
            k,
            name,
        ) by {
            assert(comes_before(stages, order, k, name));
        }
    }
}

/// A stage whose dependencies are all served earlier than those of another comes
/// before it.
pub proof fn law_first_ready_first_in_order(
    stages: Seq<PipelineStage>,
    k: int,
    p: int,
    q: int,
)
    requires
        ({
            let order = pipeline::run_order(stages);
            &&& 0 <= k <= order.len()
            &&& 0 <= p < order.len()
            &&& 0 <= q < order.len()
            &&& served(stages, order, k, order[p])
            &&& !served(stages, order, k, order[q])
        }),
    ensures
        p < q,
{
    let order = pipeline::run_order(stages);
    let none = Seq::<int>::empty();
    let start = pipeline::roots(stages, stages.len() as int);
    pipeline::lemma_sorting_start(stages);
    pipeline::law_order_respects_dependencies(stages);
    let queue = lemma_queue_at(stages, none, start, stages.len(), k);
    lemma_served(stages, order, k, order[p]);
    lemma_served(stages, order, k, order[q]);
    let both = order.take(k) + queue;
    assert(pipeline::ready(stages, order.take(k), order[p]));
    assert(both.contains(order[p]));
    let i = choose|i: int| 0 <= i < both.len() && both[i] == order[p];
    assert(both[i] == order.take(k + queue.len())[i]);
    assert(order[i] == order[p]);
    assert(i == p);
    if q <= p {
        assert(both[q] == order.take(k + queue.len())[q]);
        assert(both[q] == order[q]);
        assert(both.contains(order[q]));
        assert(pipeline::ready(stages, order.take(k), order[q]));
    }
}

/// Whether the stages `q` stand in order of their names.
spec fn by_name(stages: Seq<PipelineStage>, q: Seq<int>) -> bool {
    forall|i: int, j: int|
        0 <= i < j < q.len() ==> !text::lex_lt(
            stages[#[trigger] q[j]].id@,
            stages[#[trigger] q[i]].id@,
        )
}

proof fn lemma_inserted_by_name(stages: Seq<PipelineStage>, q: Seq<int>, s: int)
    requires
        by_name(stages, q),
    ensures
        by_name(stages, pipeline::insert_by_name(stages, q, s)),
        forall|i: int|
            0 <= i < pipeline::insert_by_name(stages, q, s).len() ==> (
            #[trigger] pipeline::insert_by_name(stages, q, s)[i] == s || q.contains(
                pipeline::insert_by_name(stages, q, s)[i],
            )),
    decreases q.len(),
{
    let r = pipeline::insert_by_name(stages, q, s);
    if q.len() > 0 && text::lex_lt(stages[s].id@, stages[q.last()].id@) {
        let f = q.drop_last();
        assert forall|i: int, j: int| 0 <= i < j < f.len() implies !text::lex_lt(
            stages[#[trigger] f[j]].id@,
            stages[#[trigger] f[i]].id@,
        ) by {
            assert(f[i] == q[i] && f[j] == q[j]);
        }
        lemma_inserted_by_name(stages, f, s);
        let g = pipeline::insert_by_name(stages, f, s);
        let last = q.last();
        assert forall|i: int| 0 <= i < r.len() implies (#[trigger] r[i] == s || q.contains(
            r[i],
        )) by {
            if i < g.len() {
                assert(r[i] == g[i]);
                if g[i] != s {
                    let m = choose|m: int| 0 <= m < f.len() && f[m] == g[i];
                    assert(q[m] == g[i]);
                }
            } else {
                assert(q[q.len() - 1] == last);
            }
        }
        assert forall|i: int, j: int| 0 <= i < j < r.len() implies !text::lex_lt(
            stages[#[trigger] r[j]].id@,
            stages[#[trigger] r[i]].id@,
        ) by {
            assert(r[i] == g[i]);
            if j < g.len() {
                assert(r[j] == g[j]);
            } else {
                assert(r[j] == last);
                if g[i] == s {
                    if text::lex_lt(stages[last].id@, stages[s].id@) {
                        text::lemma_lex_transitive(
                            stages[s].id@,
                            stages[last].id@,
                            stages[s].id@,
                        );
                        text::lemma_lex_irreflexive(stages[s].id@);
                    }
                } else {
                    let m = choose|m: int| 0 <= m < f.len() && f[m] == g[i];
                    assert(q[m] == g[i]);
                    assert(q[q.len() - 1] == last);
                }
            }
        }
    } else {
        assert(r == q.push(s));
        assert forall|i: int| 0 <= i < r.len() implies (#[trigger] r[i] == s || q.contains(
            r[i],
        )) by {
            if i < q.len() {
                assert(r[i] == q[i]);
            }
        }
        assert forall|i: int, j: int| 0 <= i < j < r.len() implies !text::lex_lt(
            stages[#[trigger] r[j]].id@,
            stages[#[trigger] r[i]].id@,
        ) by {
            assert(r[i] == q[i]);
            if j < q.len() {
                assert(r[j] == q[j]);
            } else if q.len() > 0 {
                let last = q.last();
                let a = stages[q[i]].id@;
                assert(!text::lex_lt(stages[s].id@, stages[last].id@));
                if text::lex_lt(stages[s].id@, a) {
                    assert(i < q.len() - 1) by {
                        if i == q.len() - 1 {
                            assert(q[i] == last);
                        }
                    }
                    assert(!text::lex_lt(stages[q[q.len() - 1]].id@, a));
                    text::lemma_lex_total(stages[last].id@, a);
                    if text::lex_lt(a, stages[last].id@) {
                        text::lemma_lex_transitive(stages[s].id@, a, stages[last].id@);
                    }
                }
            }
        }
    }
}

proof fn lemma_roots_by_name(stages: Seq<PipelineStage>, n: int)
    requires
        0 <= n <= stages.len(),
    ensures
        by_name(stages, pipeline::roots(stages, n)),
    decreases n,
{
    if n > 0 {
        lemma_roots_by_name(stages, n - 1);
        if stages[n - 1].depends_on@.len() == 0 {
            lemma_inserted_by_name(stages, pipeline::roots(stages, n - 1), n - 1);
        }
    }
}

/// Stages that depend on nothing come first, in order of their names.
pub proof fn law_independent_stages_come_first(stages: Seq<PipelineStage>, p: int, q: int)
    requires
        0 <= p < q < pipeline::run_order(stages).len(),
        stages[pipeline::run_order(stages)[q]].depends_on@.len() == 0,
    ensures
        stages[pipeline::run_order(stages)[p]].depends_on@.len() == 0,
        !text::lex_lt(
            stages[pipeline::run_order(stages)[q]].id@,
            stages[pipeline::run_order(stages)[p]].id@,
        ),
{
    let order = pipeline::run_order(stages);
    let none = Seq::<int>::empty();
    let start = pipeline::roots(stages, stages.len() as int);
    pipeline::lemma_sorting_start(stages);
    pipeline::law_order_respects_dependencies(stages);
    pipeline::lemma_roots(stages, stages.len() as int);
    lemma_roots_by_name(stages, stages.len() as int);
    let queue = lemma_queue_at(stages, none, start, stages.len(), 0);
    assert(order.take(0) + start =~= start);
    assert(order.take(start.len() as int) == start);
    assert(start.contains(order[q]));
    let i = choose|i: int| 0 <= i < start.len() && start[i] == order[q];
    assert(order.take(start.len() as int)[i] == order[i]);
    assert(i == q);
    assert(order.take(start.len() as int)[p] == order[p]);
    assert(start[p] == order[p] && start[q] == order[q]);
    assert(start.contains(order[p]));
}

/// A stage is found by its name: the first that has it.
pub proof fn law_stage_is_found(stages: Seq<PipelineStage>, name: Seq<char>, i: int)
    requires
        0 <= i <= stages.len(),
        forall|j: int| 0 <= j < i ==> (#[trigger] stages[j]).id@ != name,
        i < stages.len() ==> stages[i].id@ == name,
    ensures
        pipeline::stage_index(stages, name) == i,
{
    pipeline::lemma_stage_index(stages, name, i);
}

/// Whether one of the names is `name`.
pub open spec fn named(ids: Seq<StageId>, name: Seq<char>) -> bool {
    exists|i: int| 0 <= i < ids.len() && (#[trigger] ids[i])@ == name
}

/// The ready stages are those that are not completed while each stage that they
/// depend on is, in the order of the pipeline.
pub proof fn law_ready_stages(stages: Seq<PipelineStage>, completed: Seq<StageId>, n: int)
    requires
        0 <= n <= stages.len(),
    ensures
        pipeline::ready_names(stages, completed, n) == stages.take(n).filter(
            |s: PipelineStage|
                !named(completed, s.id@) && forall|j: int|
                    0 <= j < s.depends_on@.len() ==> named(
                        completed,
                        (#[trigger] s.depends_on@[j])@,
                    ),
        ).map_values(|s: PipelineStage| s.id@),
    decreases n,
{
    let wanted = |s: PipelineStage|
        !named(completed, s.id@) && forall|j: int|
            0 <= j < s.depends_on@.len() ==> named(completed, (#[trigger] s.depends_on@[j])@);
    let name = |s: PipelineStage| s.id@;
    reveal(Seq::filter);
    if n == 0 {
        assert(stages.take(0).filter(wanted).map_values(name) =~= Seq::empty());
    } else {
        law_ready_stages(stages, completed, n - 1);
        let s = stages[n - 1];
        assert(stages.take(n).drop_last() =~= stages.take(n - 1));
        assert(stages.take(n).last() == s);
        assert forall|id: Seq<char>| #[trigger] pipeline::has_id(completed, id) == named(
            completed,
            id,
        ) by {
            if named(completed, id) {
                let i = choose|i: int| 0 <= i < completed.len() && (#[trigger] completed[i])@ == id;
                assert(completed[i]@ == id);
            }
        }
        assert((!pipeline::has_id(completed, s.id@) && pipeline::deps_completed(
            s.depends_on@,
            completed,
        )) == wanted(s)) by {
            if wanted(s) {
                assert forall|j: int| 0 <= j < s.depends_on@.len() implies pipeline::has_id(
                    completed,
                    #[trigger] s.depends_on@[j]@,
                ) by {
                    assert(named(completed, s.depends_on@[j]@));
                }
            }
            if !pipeline::has_id(completed, s.id@) && pipeline::deps_completed(
                s.depends_on@,
                completed,
            ) {
                assert forall|j: int| 0 <= j < s.depends_on@.len() implies named(
                    completed,
                    (#[trigger] s.depends_on@[j])@,
                ) by {
                    assert(pipeline::has_id(completed, s.depends_on@[j]@));
                }
            }
        }
        let front = stages.take(n - 1).filter(wanted);
        assert(stages.take(n).filter(wanted) == if wanted(s) {
            front.push(s)
        } else {
            front
        });
        assert(front.push(s).map_values(name) =~= front.map_values(name).push(s.id@));
    }
}

/// Whether stage `i` of a run is the one called `name`: the first of that name.
pub open spec fn is_stage(stages: Seq<StageRun>, name: Seq<char>, i: int) -> bool {
    &&& 0 <= i < stages.len()
    &&& stages[i].stage_id@ == name
    &&& forall|j: int| 0 <= j < i ==> (#[trigger] stages[j]).stage_id@ != name
}

/// Whether a run has a stage of that name in that state.
pub open spec fn stage_is(stages: Seq<StageRun>, name: Seq<char>, state: StageState) -> bool {
    exists|i: int| #[trigger] is_stage(stages, name, i) && stages[i].state == state
}

/// Whether two lists of stages differ at most in stage `i`.
pub open spec fn same_but(a: Seq<StageRun>, b: Seq<StageRun>, i: int) -> bool {
    a.len() == b.len() && forall|j: int| 0 <= j < a.len() && j != i ==> #[trigger] a[j] == b[j]
}

proof fn lemma_run_stage(stages: Seq<StageRun>, name: Seq<char>)
    ensures
        0 <= run::run_index(stages, name) <= stages.len(),
        run::run_index(stages, name) < stages.len() ==> is_stage(
            stages,
            name,
            run::run_index(stages, name),
        ),
        forall|i: int| #[trigger]
            is_stage(stages, name, i) ==> run::run_index(stages, name) == i,
        run::run_index(stages, name) == stages.len() ==> forall|i: int|
            0 <= i < stages.len() ==> (#[trigger] stages[i]).stage_id@ != name,
    decreases stages.len(),
{
    if stages.len() > 0 && stages[0].stage_id@ != name {
        let rest = stages.skip(1);
        lemma_run_stage(rest, name);
        let k = run::run_index(rest, name);
        assert forall|j: int| 0 <= j < k + 1 && j < stages.len() implies (
        #[trigger] stages[j]).stage_id@ != name by {
            if j > 0 {
                assert(stages[j] == rest[j - 1]);
            }
        }
        if k < rest.len() {
            assert(stages[k + 1] == rest[k]);
        }
    }
    assert forall|i: int| #[trigger] is_stage(stages, name, i) implies run::run_index(stages, name)
        == i by {
        run::lemma_run_index(stages, name, i);
    }
}

proof fn lemma_deps_fault(stages: Seq<StageRun>, deps: Seq<StageId>, id: Seq<char>, from: int)
    requires
        0 <= from <= deps.len(),
    ensures
        run::deps_fault(stages, deps, id, from) is None <==> forall|j: int|
            from <= j < deps.len() ==> stage_is(
                stages,
                (#[trigger] deps[j])@,
                StageState::Completed,
            ),
    decreases deps.len() - from,
{
    if from < deps.len() {
        lemma_deps_fault(stages, deps, id, from + 1);
        lemma_stage_is(stages, deps[from]@, StageState::Completed);
        lemma_run_stage(stages, deps[from]@);
        let i = run::run_index(stages, deps[from]@);
        assert((i < stages.len() && stages[i].state == StageState::Completed) == stage_is(
            stages,
            deps[from]@,
            StageState::Completed,
        ));
        if run::deps_fault(stages, deps, id, from) is None {
            assert forall|j: int| from <= j < deps.len() implies stage_is(
                stages,
                (#[trigger] deps[j])@,
                StageState::Completed,
            ) by {
                if j > from {
                    assert(run::deps_fault(stages, deps, id, from + 1) is None);
                }
            }
        }
    }
}

proof fn lemma_stage_is(stages: Seq<StageRun>, name: Seq<char>, state: StageState)
    ensures
        stage_is(stages, name, state) <==> (run::run_index(stages, name) < stages.len()
            && stages[run::run_index(stages, name)].state == state),
{
    lemma_run_stage(stages, name);
    if stage_is(stages, name, state) {
        let i = choose|i: int| #[trigger] is_stage(stages, name, i) && stages[i].state == state;
        assert(run::run_index(stages, name) == i);
    }
    if run::run_index(stages, name) < stages.len() && stages[run::run_index(stages, name)].state
        == state {
        assert(is_stage(stages, name, run::run_index(stages, name)));
    }
}

/// A stage can be started where the pipeline has it, the run has it pending, and
/// every stage that it depends on is completed; it is then running in the session
/// given, and the rest of the run stays. Else nothing changes.
pub proof fn law_starting_a_stage(
    before: PipelineRun,
    after: PipelineRun,
    fault: Option<PipelineErrorView>,
    defs: Seq<PipelineStage>,
    d: int,
    name: Seq<char>,
    session: String,
    started: Timestamp,
    updated: Timestamp,
) -> (i: int)
    requires
        run::stage_started(before, after, fault, defs, name, session, started, updated),
        0 <= d < defs.len(),
        defs[d].id@ == name,
        forall|j: int| 0 <= j < d ==> (#[trigger] defs[j]).id@ != name,
    ensures
        fault is None <==> stage_is(before.stages@, name, StageState::Pending) && forall|j: int|
            0 <= j < defs[d].depends_on@.len() ==> stage_is(
                before.stages@,
                (#[trigger] defs[d].depends_on@[j])@,
                StageState::Completed,
            ),
        fault is Some ==> after == before,
        fault is None ==> {
            let s = after.stages@[i];
            &&& is_stage(before.stages@, name, i)
            &&& same_but(after.stages@, before.stages@, i)
            &&& s.state == StageState::Running
            &&& s.session_id == Some(session)
            &&& s.started_at == Some(started)
            &&& s.stage_id == before.stages@[i].stage_id
            &&& s.output == before.stages@[i].output && s.error == before.stages@[i].error
            &&& after.state == before.state && after.id == before.id
            &&& after.updated_at == updated
        },
{
    pipeline::lemma_stage_index(defs, name, d);
    lemma_run_stage(before.stages@, name);
    lemma_stage_is(before.stages@, name, StageState::Pending);
    lemma_deps_fault(before.stages@, defs[d].depends_on@, name, 0);
    run::run_index(before.stages@, name)
}

/// A stage that the pipeline does not have cannot be started.
pub proof fn law_unknown_stage_is_not_started(
    stages: Seq<StageRun>,
    defs: Seq<PipelineStage>,
    name: Seq<char>,
)
    requires
        forall|j: int| 0 <= j < defs.len() ==> (#[trigger] defs[j]).id@ != name,
    ensures
        run::start_fault(stages, defs, name) == Some(PipelineErrorView::StageNotFound(name)),
{
    pipeline::lemma_stage_index(defs, name, defs.len() as int);
}

/// A stage can be completed where it is running: its output is kept, and the run
/// is completed where each of its stages is then. Else nothing changes.
pub proof fn law_completing_a_stage(
    before: PipelineRun,
    after: PipelineRun,
    fault: Option<PipelineErrorView>,
    name: Seq<char>,
    output: String,
    completed: Timestamp,
    updated: Timestamp,
) -> (i: int)
    requires
        run::stage_completed(before, after, fault, name, output, completed, updated),
    ensures
        fault is None <==> stage_is(before.stages@, name, StageState::Running),
        fault is Some ==> after == before,
        fault is None ==> {
            let s = after.stages@[i];
            let whole = forall|j: int|
                0 <= j < after.stages@.len() ==> (#[trigger] after.stages@[j]).state
                    == StageState::Completed;
            &&& is_stage(before.stages@, name, i)
            &&& same_but(after.stages@, before.stages@, i)
            &&& s.state == StageState::Completed
            &&& s.output == Some(output)
            &&& s.completed_at == Some(completed)
            &&& s.stage_id == before.stages@[i].stage_id
            &&& s.session_id == before.stages@[i].session_id
            &&& whole ==> after.state == PipelineRunState::Completed
            &&& !whole ==> after.state == before.state
            &&& after.updated_at == updated
        },
{
    lemma_run_stage(before.stages@, name);
    lemma_stage_is(before.stages@, name, StageState::Running);
    run::run_index(before.stages@, name)
}

/// A stage can fail where it is running: its error is kept, the run fails, and
/// the stages that were pending are skipped. Else nothing changes.
pub proof fn law_failing_a_stage(
    before: PipelineRun,
    after: PipelineRun,
    fault: Option<PipelineErrorView>,
    name: Seq<char>,
    error: String,
    completed: Timestamp,
    updated: Timestamp,
) -> (i: int)
    requires
        run::stage_failed(before, after, fault, name, error, completed, updated),
    ensures
        fault is None <==> stage_is(before.stages@, name, StageState::Running),
        fault is Some ==> after == before,
        fault is None ==> {
            let s = after.stages@[i];
            &&& is_stage(before.stages@, name, i)
            &&& s.state == StageState::Failed
            &&& s.error == Some(error)
            &&& s.completed_at == Some(completed)
            &&& s.stage_id == before.stages@[i].stage_id
            &&& after.state == PipelineRunState::Failed
            &&& after.stages@.len() == before.stages@.len()
            &&& forall|j: int|
                0 <= j < after.stages@.len() && j != i ==> pending_is_skipped(
                    before.stages@[j],
                    #[trigger] after.stages@[j],
                )
        },
{
    lemma_run_stage(before.stages@, name);
    lemma_stage_is(before.stages@, name, StageState::Running);
    run::run_index(before.stages@, name)
}

/// Whether a pending stage became a skipped one, and any other stayed.
pub open spec fn pending_is_skipped(before: StageRun, after: StageRun) -> bool {
    if before.state == StageState::Pending {
        after == (StageRun { state: StageState::Skipped, ..before })
    } else {
        after == before
    }
}

/// Cancelling a run skips what is pending and leaves its other stages.
pub proof fn law_cancelling_a_run(before: PipelineRun, after: PipelineRun, updated: Timestamp)
    requires
        run::run_cancelled(before, after, updated),
    ensures
        after.state == PipelineRunState::Cancelled,
        after.stages@.len() == before.stages@.len(),
        forall|j: int|
            0 <= j < after.stages@.len() ==> pending_is_skipped(
                before.stages@[j],
                #[trigger] after.stages@[j],
            ),
{
}

/// A run starts once: a pending run is running then, with all its stages as they
/// were; any other run stays as it is.
pub proof fn law_starting_a_run(
    before: PipelineRun,
    after: PipelineRun,
    fault: Option<PipelineErrorView>,
    updated: Timestamp,
)
    requires
        run::run_started(before, after, fault, updated),
    ensures
        fault is None <==> before.state == PipelineRunState::Pending,
        fault is None ==> after.state == PipelineRunState::Running && after.stages == before.stages
            && after.id == before.id && after.pipeline_id == before.pipeline_id,
        fault is Some ==> after == before,
{
}

/// The stages that can be started are those that are pending while each stage
/// that they depend on is completed, in the order of the pipeline.
pub proof fn law_runnable_stages(stages: Seq<StageRun>, defs: Seq<PipelineStage>, n: int)
    requires
        0 <= n <= defs.len(),
    ensures
        run::runnable_names(stages, defs, n) == defs.take(n).filter(
            |s: PipelineStage|
                stage_is(stages, s.id@, StageState::Pending) && forall|j: int|
                    0 <= j < s.depends_on@.len() ==> stage_is(
                        stages,
                        (#[trigger] s.depends_on@[j])@,
                        StageState::Completed,
                    ),
        ).map_values(|s: PipelineStage| s.id@),
    decreases n,
{
    let wanted = |s: PipelineStage|
        stage_is(stages, s.id@, StageState::Pending) && forall|j: int|
            0 <= j < s.depends_on@.len() ==> stage_is(
                stages,
                (#[trigger] s.depends_on@[j])@,
                StageState::Completed,
            );
    let name = |s: PipelineStage| s.id@;
    reveal(Seq::filter);
    if n == 0 {
        assert(defs.take(0).filter(wanted).map_values(name) =~= Seq::empty());
    } else {
        law_runnable_stages(stages, defs, n - 1);
        let s = defs[n - 1];
        assert(defs.take(n).drop_last() =~= defs.take(n - 1));
        assert(defs.take(n).last() == s);
        lemma_stage_is(stages, s.id@, StageState::Pending);
        assert(run::can_start(stages, s) == wanted(s)) by {
            assert forall|j: int| 0 <= j < s.depends_on@.len() implies stage_is(
                stages,
                (#[trigger] s.depends_on@[j])@,
                StageState::Completed,
            ) == run::run_has_completed(stages, s.depends_on@[j]@) by {
                lemma_stage_is(stages, s.depends_on@[j]@, StageState::Completed);
            }
        }
        let front = defs.take(n - 1).filter(wanted);
        assert(defs.take(n).filter(wanted) == if wanted(s) {
            front.push(s)
        } else {
            front
        });
        assert(front.push(s).map_values(name) =~= front.map_values(name).push(s.id@));
    }
}

/// The outputs of a run are those of its stages that have one, in their order.
pub proof fn law_outputs_of_a_run(stages: Seq<StageRun>, n: int)
    requires
        0 <= n <= stages.len(),
    ensures
        run::outputs_of(stages, n) == stages.take(n).filter(
            |s: StageRun| s.output is Some,
        ).map_values(|s: StageRun| (s.stage_id@, (s.output->0)@)),
    decreases n,
{
    let wanted = |s: StageRun| s.output is Some;
    let pair = |s: StageRun| (s.stage_id@, (s.output->0)@);
    reveal(Seq::filter);
    if n == 0 {
        assert(stages.take(0).filter(wanted).map_values(pair) =~= Seq::empty());
    } else {
        law_outputs_of_a_run(stages, n - 1);
        assert(stages.take(n).drop_last() =~= stages.take(n - 1));
        let front = stages.take(n - 1).filter(wanted);
        let s = stages[n - 1];
        assert(stages.take(n).filter(wanted) == if wanted(s) {
            front.push(s)
        } else {
            front
        });
        assert(front.push(s).map_values(pair) =~= front.map_values(pair).push(pair(s)));
    }
}

} // verus!
