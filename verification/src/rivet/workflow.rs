//! The actions on an actor's workflows.

use vstd::prelude::*;
use vstd::string::*;
use crate::json;
use crate::json::{Json, JsonView};

verus! {

/// A workflow as the actor tells of it.
#[derive(Clone, PartialEq, Eq, Debug)]
pub struct WorkflowRecord {
    pub workflow_id: String,
    pub workflow_name: String,
    pub status: String,
    pub output: Option<Json>,
    pub error: Option<String>,
    pub created_at: Option<String>,
}

/// A signal to a workflow.
#[derive(Clone, PartialEq, Eq, Debug)]
pub struct WorkflowSignal {
    pub name: String,
    pub payload: Json,
}

/// A workflow to start.
#[derive(Clone, PartialEq, Eq, Debug)]
pub struct StartWorkflowRequest {
    pub workflow_name: String,
    pub input: Json,
    pub tags: Option<Json>,
}

/// The arguments with which a workflow is started: the tags stand last where
/// there are any.
pub fn build_start_args(req: &StartWorkflowRequest) -> (r: Vec<Json>)
    ensures
        json::json_views(r@) == (match req.tags {
            None => seq![JsonView::Str(req.workflow_name@), req.input@],
            Some(tags) => seq![JsonView::Str(req.workflow_name@), req.input@, tags@],
        }),
{
    let mut args = json::list2(Json::Str(req.workflow_name.clone()), req.input.clone());
    match &req.tags {
        Some(tags) => {
            json::append(&mut args, tags.clone());
            proof {
                assert(json::json_views(args@) =~= seq![
                    JsonView::Str(req.workflow_name@),
                    req.input@,
                    tags@,
                ]);
            }
        },
        None => {},
    }
    args
}

/// The arguments with which a workflow is signalled.
pub fn build_signal_args(workflow_id: &str, signal: &WorkflowSignal) -> (r: Vec<Json>)
    ensures
        json::json_views(r@) == seq![
            JsonView::Str(workflow_id@),
            JsonView::Str(signal.name@),
            signal.payload@,
        ],
{
    let mut args = json::list2(json::string(workflow_id), Json::Str(signal.name.clone()));
    json::append(&mut args, signal.payload.clone());
    proof {
        assert(json::json_views(args@) =~= seq![
            JsonView::Str(workflow_id@),
            JsonView::Str(signal.name@),
            signal.payload@,
        ]);
    }
    args
}

/// The arguments with which workflows are listed: all, or those with a name.
pub fn build_list_args(workflow_name: Option<&str>) -> (r: Vec<Json>)
    ensures
        json::json_views(r@) == (match workflow_name {
            None => Seq::<JsonView>::empty(),
            Some(name) => seq![JsonView::Object(seq![("workflowName"@, JsonView::Str(name@))])],
        }),
{
    match workflow_name {
        Some(name) => json::list1(json::object1("workflowName", json::string(name))),
        None => Vec::new(),
    }
}

} // verus!
