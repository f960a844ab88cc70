//! Rows of sessions.

use vstd::prelude::*;

verus! {

/// A session.
#[derive(PartialEq, Eq, Debug)]
pub struct SessionRow {
    pub id: String,
    pub workspace_id: String,
    pub server_id: String,
    pub agent_type: String,
    pub rivet_session_id: Option<String>,
    pub status: String,
    pub created_at: String,
    pub updated_at: String,
}

impl Clone for SessionRow {
    fn clone(&self) -> (r: Self)
        ensures
            r == *self,
    {
        SessionRow {
            id: self.id.clone(),
            workspace_id: self.workspace_id.clone(),
            server_id: self.server_id.clone(),
            agent_type: self.agent_type.clone(),
            rivet_session_id: self.rivet_session_id.clone(),
            status: self.status.clone(),
            created_at: self.created_at.clone(),
            updated_at: self.updated_at.clone(),
        }
    }
}

} // verus!
