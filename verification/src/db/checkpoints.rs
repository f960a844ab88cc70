//! Rows of checkpoints.

use vstd::prelude::*;

verus! {

/// A checkpoint, its metadata as JSON text.
#[derive(Clone, PartialEq, Eq, Debug)]
pub struct CheckpointRow {
    pub id: String,
    pub session_id: String,
    pub rivet_checkpoint_id: Option<String>,
    pub parent_checkpoint_id: Option<String>,
    pub label: Option<String>,
    pub metadata: String,
    pub created_at: String,
    pub updated_at: String,
}

} // verus!
