//! The actions on an actor's checkpoints.

use vstd::prelude::*;
use vstd::string::*;
use crate::json;
use crate::json::{Json, JsonView};
use crate::rivet::filesystem;
use crate::rivet::filesystem::build_flag_args;

verus! {

/// A checkpoint as the actor tells of it.
#[derive(Clone, PartialEq, Eq, Debug)]
pub struct CheckpointRecord {
    pub checkpoint_id: String,
    pub session_id: String,
    pub label: Option<String>,
    pub created_at: Option<i64>,
    pub parent_checkpoint_id: Option<String>,
    pub metadata: Json,
}

/// How a checkpoint is made.
#[derive(Clone, PartialEq, Eq, Debug)]
pub struct CreateCheckpointOptions {
    pub label: Option<String>,
    pub metadata: Option<Json>,
}

impl Default for CreateCheckpointOptions {
    fn default() -> (r: Self)
        ensures
            r.label is None,
            r.metadata is None,
    {
        CreateCheckpointOptions { label: None, metadata: None }
    }
}

impl CreateCheckpointOptions {
    /// With a label.
    pub fn with_label(label: String) -> (r: Self)
        ensures
            r.label == Some(label),
            r.metadata is None,
    {
        CreateCheckpointOptions { label: Some(label), metadata: None }
    }

    /// Whether nothing is set.
    pub fn is_empty(&self) -> (r: bool)
        ensures
            r == (self.label is None && self.metadata is None),
    {
        self.label.is_none() && self.metadata.is_none()
    }
}

/// How a checkpoint is restored: in place, or as a new branch.
#[derive(Clone, Copy, PartialEq, Eq, Structural, Debug)]
pub struct RestoreCheckpointOptions {
    pub fork: Option<bool>,
}

impl Default for RestoreCheckpointOptions {
    fn default() -> (r: Self)
        ensures
            r.fork is None,
    {
        RestoreCheckpointOptions { fork: None }
    }
}

impl RestoreCheckpointOptions {
    /// Whether nothing is set.
    pub fn is_empty(&self) -> (r: bool)
        ensures
            r == (self.fork is None),
    {
        self.fork.is_none()
    }
}

/// The arguments with which a checkpoint is made: the options stand behind the
/// session where any is set.
pub open spec fn create_args(session_id: Seq<char>, o: CreateCheckpointOptions) -> Seq<JsonView> {
    let session = JsonView::Str(session_id);
    match (o.label, o.metadata) {
        (None, None) => seq![session],
        (Some(l), None) => seq![session, JsonView::Object(seq![("label"@, JsonView::Str(l@))])],
        (None, Some(m)) => seq![session, JsonView::Object(seq![("metadata"@, m@)])],
        (Some(l), Some(m)) => seq![
            session,
            JsonView::Object(seq![("label"@, JsonView::Str(l@)), ("metadata"@, m@)]),
        ],
    }
}

/// The arguments with which a checkpoint is made.
pub fn build_create_args(session_id: &str, options: &CreateCheckpointOptions) -> (r: Vec<Json>)
    ensures
        json::json_views(r@) == create_args(session_id@, *options),
{
    match (&options.label, &options.metadata) {
        (None, None) => json::list1(json::string(session_id)),
        (Some(l), None) => json::list2(
            json::string(session_id),
            json::object1("label", Json::Str(l.clone())),
        ),
        (None, Some(m)) => json::list2(
            json::string(session_id),
            json::object1("metadata", m.clone()),
        ),
        (Some(l), Some(m)) => json::list2(
            json::string(session_id),
            json::object2("label", Json::Str(l.clone()), "metadata", m.clone()),
        ),
    }
}

/// The arguments with which a checkpoint is restored.
pub fn build_restore_args(checkpoint_id: &str, options: &RestoreCheckpointOptions) -> (r: Vec<
    Json,
>)
    ensures
        json::json_views(r@) == filesystem::flag_args(checkpoint_id@, "fork"@, options.fork),
{
    build_flag_args(checkpoint_id, "fork", options.fork)
}

} // verus!
