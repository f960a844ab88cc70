//! What a plan of transfers between stages holds.

use vstd::prelude::*;
use crate::file_passing as passing;
use crate::file_passing::{
    Artifact, ArtifactRef, FilePassingError, StageManifest, TransferPlan,
};
use crate::pipeline::StageId;

verus! {

/// The products of the manifests stand one behind the other, each with the stage
/// of its manifest.
pub proof fn law_products_in_a_row(manifests: Seq<StageManifest>, n: int)
    requires
        0 <= n <= manifests.len(),
    ensures
        passing::made(manifests, n) == Seq::new(
            n as nat,
            |m: int|
                Seq::new(
                    manifests[m].produces@.len(),
                    |k: int| (manifests[m].produces@[k], manifests[m].stage_id),
                ),
        ).flatten(),
    decreases n,
{
    let parts = |n: int|
        Seq::new(
            n as nat,
            |m: int|
                Seq::new(
                    manifests[m].produces@.len(),
                    |k: int| (manifests[m].produces@[k], manifests[m].stage_id),
                ),
        );
    if n == 0 {
        assert(parts(0).flatten() =~= Seq::empty());
    } else {
        law_products_in_a_row(manifests, n - 1);
        let m = manifests[n - 1];
        let own = Seq::new(m.produces@.len(), |k: int| (m.produces@[k], m.stage_id));
        assert(m.produces@.map_values(|a: Artifact| (a, m.stage_id)) =~= own);
        assert(parts(n) =~= parts(n - 1).push(own));
        lemma_flat_push(parts(n - 1), own);
    }
}

/// The uses of the manifests stand one behind the other, each with the stage of
/// its manifest.
pub proof fn law_uses_in_a_row(manifests: Seq<StageManifest>, n: int)
    requires
        0 <= n <= manifests.len(),
    ensures
        passing::used(manifests, n) == Seq::new(
            n as nat,
            |m: int|
                Seq::new(
                    manifests[m].consumes@.len(),
                    |k: int| (manifests[m].consumes@[k], manifests[m].stage_id),
                ),
        ).flatten(),
    decreases n,
{
    let parts = |n: int|
        Seq::new(
            n as nat,
            |m: int|
                Seq::new(
                    manifests[m].consumes@.len(),
                    |k: int| (manifests[m].consumes@[k], manifests[m].stage_id),
                ),
        );
    if n == 0 {
        assert(parts(0).flatten() =~= Seq::empty());
    } else {
        law_uses_in_a_row(manifests, n - 1);
        let m = manifests[n - 1];
        let own = Seq::new(m.consumes@.len(), |k: int| (m.consumes@[k], m.stage_id));
        assert(m.consumes@.map_values(|c: ArtifactRef| (c, m.stage_id)) =~= own);
        assert(parts(n) =~= parts(n - 1).push(own));
        lemma_flat_push(parts(n - 1), own);
    }
}

proof fn lemma_flat_push<A>(parts: Seq<Seq<A>>, own: Seq<A>)
    ensures
        parts.push(own).flatten() == parts.flatten() + own,
    decreases parts.len(),
{
    let all = parts.push(own);
    if parts.len() == 0 {
        assert(all.drop_first() =~= Seq::empty());
        assert(all.first() == own);
        assert(all.drop_first().flatten() =~= Seq::empty());
        assert(all.flatten() =~= parts.flatten() + own);
    } else {
        lemma_flat_push(parts.drop_first(), own);
        assert(all.drop_first() =~= parts.drop_first().push(own));
        assert(all.first() == parts.first());
        assert(all.flatten() =~= parts.flatten() + own);
    }
}

proof fn lemma_first_conflict(list: Seq<(Artifact, StageId)>, from: int)
    requires
        0 <= from <= list.len(),
    ensures
        ({
            let r = passing::first_conflict(list, from);
            &&& from <= r <= list.len()
            &&& r < list.len() ==> passing::conflicts(list, r)
            &&& forall|k: int| from <= k < r ==> !#[trigger] passing::conflicts(list, k)
        }),
    decreases list.len() - from,
{
    if from < list.len() && !passing::conflicts(list, from) {
        lemma_first_conflict(list, from + 1);
    }
}

proof fn lemma_first_unserved(
    list: Seq<(Artifact, StageId)>,
    users: Seq<(ArtifactRef, StageId)>,
    from: int,
)
    requires
        0 <= from <= users.len(),
    ensures
        ({
            let r = passing::first_unserved(list, users, from);
            &&& from <= r <= users.len()
            &&& r < users.len() ==> passing::served(list, users[r].0) is None
            &&& forall|k: int|
                from <= k < r ==> passing::served(list, (#[trigger] users[k]).0) is Some
        }),
    decreases users.len() - from,
{
    if from < users.len() && passing::served(list, users[from].0) is Some {
        lemma_first_unserved(list, users, from + 1);
    }
}

proof fn lemma_latest(list: Seq<(Artifact, StageId)>, id: Seq<char>, stage: Seq<char>, n: int)
    requires
        0 <= n <= list.len(),
    ensures
        match passing::latest(list, id, stage, n) {
            Some(a) => exists|k: int| #[trigger] is_latest(list, id, stage, n, k) && a == list[k].0,
            None => forall|k: int|
                0 <= k < n ==> !((#[trigger] list[k]).0.id@ == id && list[k].1@ == stage),
        },
    decreases n,
{
    if n > 0 {
        if list[n - 1].0.id@ == id && list[n - 1].1@ == stage {
            assert(is_latest(list, id, stage, n, n - 1));
        } else {
            lemma_latest(list, id, stage, n - 1);
            if passing::latest(list, id, stage, n - 1) is Some {
                let less = n - 1;
                let k = choose|k: int| #[trigger]
                    is_latest(list, id, stage, less, k) && passing::latest(list, id, stage, less)
                        == Some(list[k].0);
                assert(is_latest(list, id, stage, n, k));
            }
        }
    }
}

/// Whether entry `k` is the last of the first `n` that is the product `id` of
/// `stage`.
pub open spec fn is_latest(
    list: Seq<(Artifact, StageId)>,
    id: Seq<char>,
    stage: Seq<char>,
    n: int,
    k: int,
) -> bool {
    &&& 0 <= k < n
    &&& list[k].0.id@ == id
    &&& list[k].1@ == stage
    &&& forall|j: int| k < j < n ==> !((#[trigger] list[j]).0.id@ == id && list[j].1@ == stage)
}

/// A plan serves every use, in order: it copies the last product of that name
/// that the named stage lists and is recorded as the producer of, from the output
/// directory of its maker to the input directory of its user.
pub proof fn law_every_use_is_served(
    manifests: Seq<StageManifest>,
    plan: TransferPlan,
    i: int,
) -> (k: int)
    requires
        passing::transfers_planned(manifests, Ok(plan)),
        0 <= i < passing::used(manifests, manifests.len() as int).len(),
    ensures
        plan.transfers@.len() == passing::used(manifests, manifests.len() as int).len(),
        ({
            let list = passing::made(manifests, manifests.len() as int);
            let (c, user) = passing::used(manifests, manifests.len() as int)[i];
            let t = plan.transfers@[i];
            &&& is_latest(list, c.artifact_id@, c.source_stage@, list.len() as int, k)
            &&& list[k].0.producer@ == c.source_stage@
            &&& t.artifact_id == c.artifact_id
            &&& t.source_stage == c.source_stage
            &&& t.target_stage == user
            &&& t.kind == list[k].0.kind
            &&& t.source_vm_path@ == "/handoff/output/"@ + list[k].0.path@
            &&& t.target_vm_path@ == "/handoff/input/"@ + c.source_stage@ + "/"@
                + list[k].0.path@
        }),
{
    let list = passing::made(manifests, manifests.len() as int);
    let users = passing::used(manifests, manifests.len() as int);
    lemma_first_conflict(list, 0);
    lemma_first_unserved(list, users, 0);
    let c = users[i].0;
    assert(passing::is_transfer(plan.transfers@[i], passing::served(list, c), c, users[i].1));
    lemma_latest(list, c.artifact_id@, c.source_stage@, list.len() as int);
    let k = choose|k: int| #[trigger]
        is_latest(list, c.artifact_id@, c.source_stage@, list.len() as int, k) && passing::latest(
            list,
            c.artifact_id@,
            c.source_stage@,
            list.len() as int,
        ) == Some(list[k].0);
    lemma_directories();
    let p = list[k].0.path@;
    assert(passing::output_path(p) =~= "/handoff/output/"@ + p);
    assert(passing::input_path(c.source_stage@, p) =~= "/handoff/input/"@
        + c.source_stage@ + "/"@ + p);
    k
}

proof fn lemma_directories()
    ensures
        passing::HANDOFF_DIR@ + "/"@ + passing::OUTPUT_SUBDIR@ + "/"@
            == "/handoff/output/"@,
        passing::HANDOFF_DIR@ + "/"@ + passing::INPUT_SUBDIR@ + "/"@
            == "/handoff/input/"@,
{
    reveal_strlit("/");
    reveal_strlit("output");
    reveal_strlit("input");
    reveal_strlit("/handoff");
    reveal_strlit("/handoff/output/");
    reveal_strlit("/handoff/input/");
    assert(passing::HANDOFF_DIR@ + "/"@ + passing::OUTPUT_SUBDIR@ + "/"@
        =~= "/handoff/output/"@);
    assert(passing::HANDOFF_DIR@ + "/"@ + passing::INPUT_SUBDIR@ + "/"@
        =~= "/handoff/input/"@);
}

/// There is a plan where no two stages make a product of one name, and every use
/// has its product.
pub proof fn law_when_there_is_a_plan(
    manifests: Seq<StageManifest>,
    r: Result<TransferPlan, FilePassingError>,
)
    requires
        passing::transfers_planned(manifests, r),
    ensures
        ({
            let list = passing::made(manifests, manifests.len() as int);
            let users = passing::used(manifests, manifests.len() as int);
            let clear = forall|i: int, j: int|
                0 <= i < j < list.len() && (#[trigger] list[i]).0.id@ == (
                #[trigger] list[j]).0.id@ ==> list[i].1@ == list[j].1@;
            let whole = forall|i: int|
                0 <= i < users.len() ==> passing::served(list, (#[trigger] users[i]).0) is Some;
            &&& r is Ok <==> clear && whole
            &&& !clear ==> r->Err_0 is DuplicateArtifact
            &&& clear && !whole ==> r->Err_0 is ArtifactNotFound || r->Err_0 is ProducerMismatch
        }),
{
    let list = passing::made(manifests, manifests.len() as int);
    let users = passing::used(manifests, manifests.len() as int);
    lemma_first_conflict(list, 0);
    lemma_first_unserved(list, users, 0);
    let dup = passing::first_conflict(list, 0);
    if dup < list.len() {
        let j = choose|j: int|
            0 <= j < dup && (#[trigger] list[j]).0.id@ == list[dup].0.id@ && list[j].1@
                != list[dup].1@;
        assert(list[j].0.id@ == list[dup].0.id@);
    } else {
        assert forall|i: int, j: int|
            0 <= i < j < list.len() && (#[trigger] list[i]).0.id@ == (
            #[trigger] list[j]).0.id@ implies list[i].1@ == list[j].1@ by {
            assert(!passing::conflicts(list, j));
        }
        let bad = passing::first_unserved(list, users, 0);
        if bad < users.len() {
            assert(passing::served(list, users[bad].0) is None);
        }
    }
}

/// A use has its product where the named stage lists one of that name, and is
/// recorded as the producer of the last such.
pub proof fn law_when_a_use_has_its_product(
    list: Seq<(Artifact, StageId)>,
    c: ArtifactRef,
    k: int,
)
    ensures
        is_latest(list, c.artifact_id@, c.source_stage@, list.len() as int, k) ==> (
        passing::served(list, c) == if list[k].0.producer@ == c.source_stage@ {
            Some(list[k].0)
        } else {
            None
        }),
        (forall|j: int|
            0 <= j < list.len() ==> !((#[trigger] list[j]).0.id@ == c.artifact_id@ && list[j].1@
                == c.source_stage@)) ==> passing::served(list, c) is None,
{
    let n = list.len() as int;
    lemma_latest(list, c.artifact_id@, c.source_stage@, n);
    if passing::latest(list, c.artifact_id@, c.source_stage@, n) is Some {
        let m = choose|m: int| #[trigger]
            is_latest(list, c.artifact_id@, c.source_stage@, n, m) && passing::latest(
                list,
                c.artifact_id@,
                c.source_stage@,
                n,
            ) == Some(list[m].0);
        if is_latest(list, c.artifact_id@, c.source_stage@, n, k) {
            assert(m == k) by {
                if m < k {
                    assert(list[k].0.id@ == c.artifact_id@);
                } else if k < m {
                    assert(list[m].0.id@ == c.artifact_id@);
                }
            }
        }
    } else if is_latest(list, c.artifact_id@, c.source_stage@, n, k) {
        assert(list[k].0.id@ == c.artifact_id@);
    }
}

} // verus!
