//! Rows of workspaces.

use vstd::prelude::*;

verus! {

/// A workspace.
#[derive(Clone, PartialEq, Eq, Debug)]
pub struct WorkspaceRow {
    pub id: String,
    pub name: String,
    pub path: String,
    pub created_at: String,
    pub updated_at: String,
}

} // verus!
