//! What is found among rows, which forks are refused, and what a row keeps of a
//! record.

use vstd::prelude::*;
use crate::auth_gateway::audit::AuditView;
use crate::auth_gateway::persister;
use crate::checkpoint;
use crate::checkpoint::Checkpoint;
use crate::db::audit::AuditValues;
use crate::db::checkpoints::CheckpointRow;
use crate::db::table;
use crate::fork;
use crate::fork::ForkRequest;
use crate::json::JsonView;
use crate::text;

verus! {

/// The row that is found is the first of which the condition holds; the rows of
/// which it holds, and those without them, stand in the order of the table.
pub proof fn law_rows_that_fit<R>(rows: Seq<R>, fits: spec_fn(R) -> bool)
    ensures
        table::rows_of(rows, fits) == rows.filter(fits),
        match table::row_of(rows, fits) {
            Some(r) => exists|i: int|
                {
                    &&& 0 <= i < rows.len()
                    &&& #[trigger] rows[i] == r
                    &&& fits(r)
                    &&& forall|j: int| 0 <= j < i ==> !fits(#[trigger] rows[j])
                },
            None => forall|j: int| 0 <= j < rows.len() ==> !fits(#[trigger] rows[j]),
        },
    decreases rows.len(),
{
    reveal(Seq::filter);
    if rows.len() > 0 {
        let front = rows.drop_last();
        law_rows_that_fit(front, fits);
        match table::row_of(front, fits) {
            Some(r) => {
                let i = choose|i: int|
                    {
                        &&& 0 <= i < front.len()
                        &&& #[trigger] front[i] == r
                        &&& fits(r)
                        &&& forall|j: int| 0 <= j < i ==> !fits(#[trigger] front[j])
                    };
                assert(rows[i] == r);
                assert forall|j: int| 0 <= j < i implies !fits(#[trigger] rows[j]) by {
                    assert(front[j] == rows[j]);
                }
            },
            None => {
                let n = rows.len() - 1;
                assert(rows[n] == rows.last());
                assert forall|j: int| 0 <= j < n implies !fits(#[trigger] rows[j]) by {
                    assert(front[j] == rows[j]);
                }
            },
        }
    }
}

/// What is left without some rows is what does not fit, in order.
pub proof fn law_rows_without<R>(rows: Seq<R>, fits: spec_fn(R) -> bool)
    ensures
        table::rows_without(rows, fits) == rows.filter(|r: R| !fits(r)),
{
    law_rows_that_fit(rows, |r: R| !fits(r));
}

/// A fork is made exactly from a checkpoint that is there, is of the session that
/// is named, and is known to the runtime.
pub proof fn law_forks_that_are_made(c: Checkpoint, req: ForkRequest)
    ensures
        fork::refusal(None, req) is Some,
        fork::refusal(Some(&c), req) is None <==> c.session_id@ == req.session_id@
            && c.rivet_checkpoint_id is Some,
{
}

/// Why a fork is refused: a checkpoint of another session is told as such, known
/// to the runtime or not.
pub proof fn law_why_forks_are_refused(c: Checkpoint, req: ForkRequest)
    ensures
        fork::refusal(None, req) == Some(
            "source checkpoint "@ + req.checkpoint_id@ + " not found"@,
        ),
        c.session_id@ != req.session_id@ ==> fork::refusal(Some(&c), req) == Some(
            "checkpoint "@ + req.checkpoint_id@ + " belongs to session "@ + c.session_id@
                + ", not "@ + req.session_id@,
        ),
        c.session_id@ == req.session_id@ && c.rivet_checkpoint_id is None ==> fork::refusal(
            Some(&c),
            req,
        ) == Some(
            "checkpoint "@ + req.checkpoint_id@
                + " has no rivet checkpoint id \u{2014} cannot fork an unlinked checkpoint"@,
        ),
{
}

proof fn lemma_short_len(id: Seq<char>, n: int)
    requires
        0 <= n <= id.len(),
        n <= 8,
        forall|i: int| 0 <= i < id.len() ==> ((#[trigger] id[i]) as u32) < 0x80,
    ensures
        fork::short_len(id, n) == Some(if id.len() <= 8 {
            id.len() as int
        } else {
            8
        }),
    decreases id.len() - n,
{
    lemma_prefix_bytes(id, n);
    if n < id.len() && n < 8 {
        lemma_short_len(id, n + 1);
    }
}

proof fn lemma_prefix_bytes(id: Seq<char>, n: int)
    requires
        0 <= n <= id.len(),
        forall|i: int| 0 <= i < id.len() ==> ((#[trigger] id[i]) as u32) < 0x80,
    ensures
        fork::prefix_bytes(id, n) == n,
    decreases n,
{
    if n > 0 {
        lemma_prefix_bytes(id, n - 1);
        let c = id[n - 1];
        assert((c as u32) < 0x80);
    }
}

/// A fork is named by the label of its source; by the first eight characters of
/// the checkpoint's id where the source has none.
pub proof fn law_label_of_a_fork(c: Checkpoint, id: Seq<char>)
    ensures
        c.label is Some ==> fork::fork_label(c, id) == "fork from "@ + c.label->0@,
        c.label is None && (forall|i: int|
            0 <= i < id.len() ==> ((#[trigger] id[i]) as u32) < 0x80) ==> fork::can_shorten(id)
            && fork::fork_label(c, id) == "fork from "@ + (if id.len() <= 8 {
            id
        } else {
            id.take(8)
        }),
{
    if c.label is None && (forall|i: int|
        0 <= i < id.len() ==> ((#[trigger] id[i]) as u32) < 0x80) {
        lemma_short_len(id, 0);
        let n = fork::short_len(id, 0)->0;
        lemma_prefix_bytes(id, n);
        assert(id.take(id.len() as int) =~= id);
    }
}

/// The metadata of a fork tell the checkpoint and the session that it is from.
pub proof fn law_metadata_of_a_fork(checkpoint_id: Seq<char>, session_id: Seq<char>)
    ensures
        ({
            let m = fork::fork_metadata(checkpoint_id, session_id);
            &&& m is Object
            &&& m->Object_0.len() == 2
            &&& m->Object_0.contains(
                ("forked_from_checkpoint"@, JsonView::Str(checkpoint_id)),
            )
            &&& m->Object_0.contains(("forked_from_session"@, JsonView::Str(session_id)))
        }),
{
    let m = fork::fork_metadata(checkpoint_id, session_id)->Object_0;
    assert(m[0] == ("forked_from_checkpoint"@, JsonView::Str(checkpoint_id)));
    assert(m[1] == ("forked_from_session"@, JsonView::Str(session_id)));
}

/// A checkpoint with forks is not deleted, and the answer says how many there are;
/// one without is.
pub proof fn law_refused_deletions(id: Seq<char>, children: nat)
    ensures
        checkpoint::delete_refused(id, 0) is None,
        children > 0 ==> checkpoint::delete_refused(id, children) == Some(
            "checkpoint "@ + id + " has "@ + text::decimal(children)
                + " dependent fork(s); delete them first"@,
        ),
{
}

/// A row keeps of a record the time, the kind and the host, and what else the
/// record holds; what it does not hold stays empty.
pub proof fn law_row_of_a_record(e: AuditView, time: Seq<char>, ip: Option<Seq<char>>)
    ensures
        ({
            let r = persister::row_values(e, time, ip);
            &&& r.timestamp == time
            &&& match e {
                AuditView::Injected {
                    hostname,
                    provider_id,
                    env_key,
                    method,
                    path,
                    status,
                    ..
                } => r == (AuditValues {
                    kind: "injected"@,
                    timestamp: time,
                    hostname,
                    provider_id: Some(provider_id),
                    env_key: Some(env_key),
                    method: Some(method),
                    path: Some(path),
                    status: Some(status),
                    client_ip: ip,
                    reason: None,
                    error: None,
                }),
                AuditView::Blocked { hostname, method, path, reason, .. } => r == (AuditValues {
                    kind: "blocked"@,
                    timestamp: time,
                    hostname,
                    provider_id: None,
                    env_key: None,
                    method: Some(method),
                    path: Some(path),
                    status: None,
                    client_ip: ip,
                    reason: Some(reason),
                    error: None,
                }),
                AuditView::CredentialMissing { hostname, provider_id, env_key, .. } => r == (
                AuditValues {
                    kind: "credential_missing"@,
                    timestamp: time,
                    hostname,
                    provider_id: Some(provider_id),
                    env_key: Some(env_key),
                    method: None,
                    path: None,
                    status: None,
                    client_ip: None,
                    reason: None,
                    error: None,
                }),
                AuditView::UpstreamError { hostname, provider_id, error, .. } => r == (AuditValues {
                    kind: "upstream_error"@,
                    timestamp: time,
                    hostname,
                    provider_id: Some(provider_id),
                    env_key: None,
                    method: None,
                    path: None,
                    status: None,
                    client_ip: None,
                    reason: None,
                    error: Some(error),
                }),
            }
        }),
{
}

/// A checkpoint is its row, field by field, with the metadata read.
pub proof fn law_checkpoint_of_a_row(c: Checkpoint, row: CheckpointRow, metadata: JsonView)
    requires
        checkpoint::is_of_row(c, row, metadata),
    ensures
        c == (Checkpoint {
            id: row.id,
            session_id: row.session_id,
            rivet_checkpoint_id: row.rivet_checkpoint_id,
            parent_checkpoint_id: row.parent_checkpoint_id,
            label: row.label,
            metadata: c.metadata,
            created_at: row.created_at,
            updated_at: row.updated_at,
        }),
        c.metadata@ == metadata,
{
}

/// Metadata that are no JSON are read as an empty object, others as they are.
pub proof fn law_metadata_of_a_row(v: JsonView, e: Seq<char>)
    ensures
        checkpoint::metadata_of(Ok(v)) == v,
        checkpoint::metadata_of(Err(e)) == JsonView::Object(Seq::empty()),
{
}

} // verus!
