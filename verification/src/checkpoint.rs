//! Checkpoints of sessions.

use vstd::prelude::*;
use vstd::string::*;
use crate::db::checkpoints::CheckpointRow;
use crate::db::table;
use crate::json;
use crate::json::{Json, JsonView};
use crate::text;

verus! {

/// A checkpoint.
#[derive(Clone, PartialEq, Eq, Debug)]
pub struct Checkpoint {
    pub id: String,
    pub session_id: String,
    pub rivet_checkpoint_id: Option<String>,
    pub parent_checkpoint_id: Option<String>,
    pub label: Option<String>,
    pub metadata: Json,
    pub created_at: String,
    pub updated_at: String,
}

/// A checkpoint to make.
#[derive(PartialEq, Eq, Debug)]
pub struct CreateCheckpoint {
    pub session_id: String,
    pub rivet_checkpoint_id: Option<String>,
    pub parent_checkpoint_id: Option<String>,
    pub label: Option<String>,
    pub metadata: Option<Json>,
}

/// The values of a row for a checkpoint to make.
#[derive(Clone, PartialEq, Eq, Debug)]
pub struct CheckpointInsert {
    pub session_id: String,
    pub rivet_checkpoint_id: Option<String>,
    pub parent_checkpoint_id: Option<String>,
    pub label: Option<String>,
    pub metadata: String,
}

/// Whether `c` is the checkpoint of a row, with this metadata.
pub open spec fn is_of_row(c: Checkpoint, row: CheckpointRow, metadata: JsonView) -> bool {
    &&& c.id == row.id
    &&& c.session_id == row.session_id
    &&& c.rivet_checkpoint_id == row.rivet_checkpoint_id
    &&& c.parent_checkpoint_id == row.parent_checkpoint_id
    &&& c.label == row.label
    &&& c.metadata@ == metadata
    &&& c.created_at == row.created_at
    &&& c.updated_at == row.updated_at
}

/// The metadata that a text holds: an empty object where it is no JSON.
pub open spec fn metadata_of(parsed: Result<JsonView, Seq<char>>) -> JsonView {
    match parsed {
        Ok(v) => v,
        Err(_) => JsonView::Object(Seq::empty()),
    }
}

/// The checkpoint of a row, given what its metadata reads as.
pub fn checkpoint_with(row: CheckpointRow, parsed: Result<Json, String>) -> (r: Checkpoint)
    ensures
        is_of_row(
            r,
            row,
            match parsed {
                Ok(v) => v@,
                Err(_) => JsonView::Object(Seq::empty()),
            },
        ),
{
    let metadata = match parsed {
        Ok(v) => v,
        Err(_) => Json::Object(Vec::new()),
    };
    Checkpoint {
        id: row.id,
        session_id: row.session_id,
        rivet_checkpoint_id: row.rivet_checkpoint_id,
        parent_checkpoint_id: row.parent_checkpoint_id,
        label: row.label,
        metadata,
        created_at: row.created_at,
        updated_at: row.updated_at,
    }
}

impl Checkpoint {
    /// The checkpoint of a row.
    pub fn from_row(row: CheckpointRow) -> (r: Self)
        ensures
            is_of_row(r, row, metadata_of(json::parsed_json(row.metadata@))),
    {
        let parsed = json::parse(row.metadata.as_str());
        checkpoint_with(row, parsed)
    }
}

/// The text under which metadata is kept.
pub open spec fn metadata_text(m: Option<Json>) -> Seq<char> {
    match m {
        Some(v) => json::rendered_json(v@),
        None => "{}"@,
    }
}

/// The text under which metadata is kept.
pub fn render_metadata(m: &Option<Json>) -> (r: String)
    ensures
        r@ == metadata_text(*m),
        m is Some && json::readable(m->0@) ==> json::reads_as(r@, m->0@),
{
    match m {
        Some(v) => json::render(v),
        None => "{}".to_owned(),
    }
}

/// The row for a checkpoint to make. Its parent, where it names one, must be
/// there. Metadata that is as a text gives it is read back from the row.
pub fn plan_create(params: CreateCheckpoint, parent_exists: bool) -> (r: Result<
    CheckpointInsert,
    String,
>)
    ensures
        match r {
            Ok(x) => (params.parent_checkpoint_id is None || parent_exists) && x.session_id
                == params.session_id && x.rivet_checkpoint_id == params.rivet_checkpoint_id
                && x.parent_checkpoint_id == params.parent_checkpoint_id && x.label
                == params.label && x.metadata@ == metadata_text(params.metadata),
            Err(e) => params.parent_checkpoint_id matches Some(p) && !parent_exists && e@
                == "parent checkpoint "@ + p@ + " does not exist"@,
        },
        r is Ok && params.metadata is Some && json::readable(params.metadata->0@) ==> metadata_of(
            json::parsed_json(r->Ok_0.metadata@),
        ) == params.metadata->0@,
{
    let metadata = render_metadata(&params.metadata);
    match &params.parent_checkpoint_id {
        Some(parent) => {
            if !parent_exists {
                return Err(
                    text::concat3("parent checkpoint ", parent.as_str(), " does not exist"),
                );
            }
        },
        None => {},
    }
    Ok(
        CheckpointInsert {
            session_id: params.session_id,
            rivet_checkpoint_id: params.rivet_checkpoint_id,
            parent_checkpoint_id: params.parent_checkpoint_id,
            label: params.label,
            metadata,
        },
    )
}

/// The checkpoint that was looked for.
pub fn require(id: &str, found: Option<Checkpoint>) -> (r: Result<Checkpoint, String>)
    ensures
        match found {
            Some(c) => r == Ok::<Checkpoint, String>(c),
            None => r matches Err(e) && e@ == "checkpoint "@ + id@ + " not found"@,
        },
{
    match found {
        Some(c) => Ok(c),
        None => Err(text::concat3("checkpoint ", id, " not found")),
    }
}

/// Why a checkpoint with this many children is not deleted, if it is not.
pub open spec fn delete_refused(id: Seq<char>, children: nat) -> Option<Seq<char>> {
    if children == 0 {
        None
    } else {
        Some(
            "checkpoint "@ + id + " has "@ + text::decimal(children)
                + " dependent fork(s); delete them first"@,
        )
    }
}

/// Refuses to delete a checkpoint that others were forked from.
pub fn check_delete(id: &str, children: usize) -> (r: Result<(), String>)
    ensures
        match r {
            Ok(_) => delete_refused(id@, children as nat) is None,
            Err(e) => delete_refused(id@, children as nat) == Some(e@),
        },
{
    if children == 0 {
        return Ok(());
    }
    let n = text::u64_to_string(children as u64);
    Err(
        text::concat5(
            "checkpoint ",
            id,
            " has ",
            n.as_str(),
            " dependent fork(s); delete them first",
        ),
    )
}

/// Whether a row is that of the checkpoint `id`.
pub open spec fn is_checkpoint(id: Seq<char>) -> spec_fn(CheckpointRow) -> bool {
    |r: CheckpointRow| r.id@ == id
}

/// Whether a row is that of a child of the checkpoint `id`.
pub open spec fn is_child(id: Seq<char>) -> spec_fn(CheckpointRow) -> bool {
    |r: CheckpointRow| text::opt_view(r.parent_checkpoint_id) == Some(id)
}

/// The checkpoint `id` among the rows.
pub open spec fn checkpoint_row(rows: Seq<CheckpointRow>, id: Seq<char>) -> Option<CheckpointRow> {
    table::row_of(rows, is_checkpoint(id))
}

/// What deleting the checkpoint `id` leaves, and answers: whether it was there,
/// or why it is not deleted.
pub open spec fn checkpoint_deleted(rows: Seq<CheckpointRow>, id: Seq<char>) -> (
    Seq<CheckpointRow>,
    Result<bool, Seq<char>>,
) {
    match delete_refused(id, table::rows_of(rows, is_child(id)).len()) {
        Some(e) => (rows, Err(e)),
        None => (
            table::rows_without(rows, is_checkpoint(id)),
            Ok(checkpoint_row(rows, id) is Some),
        ),
    }
}

proof fn lemma_no_children(rows: Seq<CheckpointRow>, id: Seq<char>)
    ensures
        (table::rows_of(rows, is_child(id)).len() == 0) == !(exists|i: int|
            0 <= i < rows.len() && text::opt_view((#[trigger] rows[i]).parent_checkpoint_id) == Some(
                id,
            )),
        table::rows_of(rows, is_child(id)).len() == 0 ==> table::rows_of(
            table::rows_without(rows, is_checkpoint(id)),
            is_child(id),
        ).len() == 0,
    decreases rows.len(),
{
    if rows.len() > 0 {
        let front = rows.drop_last();
        lemma_no_children(front, id);
        assert(forall|i: int| 0 <= i < front.len() ==> #[trigger] front[i] == rows[i]);
        if table::rows_of(rows, is_child(id)).len() == 0 {
            assert forall|i: int| 0 <= i < rows.len() implies text::opt_view(
                (#[trigger] rows[i]).parent_checkpoint_id,
            ) != Some(id) by {
                if i < front.len() {
                    assert(front[i] == rows[i]);
                }
            }
            let kept = table::rows_without(rows, is_checkpoint(id));
            if kept.len() > table::rows_without(front, is_checkpoint(id)).len() {
                assert(kept.drop_last() =~= table::rows_without(front, is_checkpoint(id)));
            }
        } else if is_child(id)(rows.last()) {
            assert(text::opt_view(rows[rows.len() - 1].parent_checkpoint_id) == Some(id));
        } else {
            let i = choose|i: int|
                0 <= i < front.len() && text::opt_view((#[trigger] front[i]).parent_checkpoint_id)
                    == Some(id);
            assert(text::opt_view(rows[i].parent_checkpoint_id) == Some(id));
        }
    }
}

/// A checkpoint that another was forked from is not deleted, and nothing
/// changes. Any other is gone once it is deleted; the answer says whether it was
/// there, no other checkpoint changes, and deleting it again finds nothing.
pub proof fn law_deleting_a_checkpoint(
    rows: Seq<CheckpointRow>,
    id: Seq<char>,
    other: Seq<char>,
)
    requires
        other != id,
    ensures
        ({
            let (after, r) = checkpoint_deleted(rows, id);
            if exists|i: int|
                0 <= i < rows.len() && text::opt_view((#[trigger] rows[i]).parent_checkpoint_id)
                    == Some(id) {
                r is Err && after == rows
            } else {
                &&& r == Ok::<bool, Seq<char>>(checkpoint_row(rows, id) is Some)
                &&& checkpoint_row(after, id) is None
                &&& checkpoint_row(after, other) == checkpoint_row(rows, other)
                &&& checkpoint_deleted(after, id) == (after, Ok::<bool, Seq<char>>(false))
            }
        }),
{
    lemma_no_children(rows, id);
    table::lemma_without(rows, is_checkpoint(id), is_checkpoint(other));
}

} // verus!
