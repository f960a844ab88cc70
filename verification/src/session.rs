//! Agent sessions and their states.

use vstd::prelude::*;
use vstd::string::*;
use crate::text;

verus! {

/// The state of a session.
#[derive(Clone, PartialEq, Eq, Debug)]
pub enum SessionState {
    Created,
    Booting,
    Ready,
    Running,
    Paused,
    Checkpointed,
    Reviewing,
    Error(String),
    Destroyed,
}

/// Whether a session may go from `from` to `to`.
pub open spec fn may_go(from: SessionState, to: SessionState) -> bool {
    match from {
        SessionState::Created => to is Booting,
        SessionState::Booting => to is Ready || to is Error,
        SessionState::Ready => to is Running || to is Checkpointed || to is Reviewing
            || to is Destroyed,
        SessionState::Running => to is Ready || to is Paused || to is Error,
        SessionState::Paused => to is Running,
        SessionState::Checkpointed => to is Ready,
        SessionState::Reviewing => to is Ready,
        SessionState::Error(_) => to is Ready || to is Destroyed,
        SessionState::Destroyed => false,
    }
}

/// The name of a state, with the message of an error.
pub open spec fn state_text(s: SessionState) -> Seq<char> {
    match s {
        SessionState::Created => "Created"@,
        SessionState::Booting => "Booting"@,
        SessionState::Ready => "Ready"@,
        SessionState::Running => "Running"@,
        SessionState::Paused => "Paused"@,
        SessionState::Checkpointed => "Checkpointed"@,
        SessionState::Reviewing => "Reviewing"@,
        SessionState::Error(m) => "Error("@ + text::debug_quoted(m@) + ")"@,
        SessionState::Destroyed => "Destroyed"@,
    }
}

impl SessionState {
    /// Whether a session may go from this state to `next`.
    pub fn can_transition_to(&self, next: &SessionState) -> (r: bool)
        ensures
            r == may_go(*self, *next),
    {
        match (self, next) {
            (SessionState::Created, SessionState::Booting) => true,
            (SessionState::Booting, SessionState::Ready) => true,
            (SessionState::Booting, SessionState::Error(_)) => true,
            (SessionState::Ready, SessionState::Running) => true,
            (SessionState::Ready, SessionState::Checkpointed) => true,
            (SessionState::Ready, SessionState::Reviewing) => true,
            (SessionState::Ready, SessionState::Destroyed) => true,
            (SessionState::Running, SessionState::Ready) => true,
            (SessionState::Running, SessionState::Paused) => true,
            (SessionState::Running, SessionState::Error(_)) => true,
            (SessionState::Paused, SessionState::Running) => true,
            (SessionState::Checkpointed, SessionState::Ready) => true,
            (SessionState::Reviewing, SessionState::Ready) => true,
            (SessionState::Error(_), SessionState::Ready) => true,
            (SessionState::Error(_), SessionState::Destroyed) => true,
            _ => false,
        }
    }

    /// The name of the state, with the message of an error.
    pub fn describe(&self) -> (r: String)
        ensures
            r@ == state_text(*self),
    {
        match self {
            SessionState::Created => "Created".to_owned(),
            SessionState::Booting => "Booting".to_owned(),
            SessionState::Ready => "Ready".to_owned(),
            SessionState::Running => "Running".to_owned(),
            SessionState::Paused => "Paused".to_owned(),
            SessionState::Checkpointed => "Checkpointed".to_owned(),
            SessionState::Reviewing => "Reviewing".to_owned(),
            SessionState::Error(m) => {
                let quoted = text::debug_str(m.as_str());
                text::concat3("Error(", quoted.as_str(), ")")
            },
            SessionState::Destroyed => "Destroyed".to_owned(),
        }
    }
}

/// One session of an agent.
#[derive(Clone, Debug)]
pub struct Session {
    pub id: String,
    pub workspace_id: String,
    pub server_id: String,
    pub agent_type: String,
    pub rivet_vm_id: Option<String>,
    pub rivet_session_id: Option<String>,
    pub state: SessionState,
}

impl Session {
    /// A session that was just created.
    pub fn new(id: String, workspace_id: String, server_id: String, agent_type: String) -> (r: Self)
        ensures
            r == (Session {
                id,
                workspace_id,
                server_id,
                agent_type,
                rivet_vm_id: None,
                rivet_session_id: None,
                state: SessionState::Created,
            }),
    {
        Session {
            id,
            workspace_id,
            server_id,
            agent_type,
            rivet_vm_id: None,
            rivet_session_id: None,
            state: SessionState::Created,
        }
    }

    /// Takes the session to `next`, where it may go there.
    pub fn transition(&mut self, next: SessionState) -> (r: Result<(), String>)
        ensures
            match r {
                Ok(_) => may_go(old(self).state, next) && *final(self) == (Session {
                    state: next,
                    ..*old(self)
                }),
                Err(m) => !may_go(old(self).state, next) && *final(self) == *old(self) && m@
                    == "invalid transition from "@ + state_text(old(self).state) + " to "@
                    + state_text(next),
            },
    {
        if self.state.can_transition_to(&next) {
            self.state = next;
            Ok(())
        } else {
            let from = self.state.describe();
            let to = next.describe();
            Err(text::concat4("invalid transition from ", from.as_str(), " to ", to.as_str()))
        }
    }
}

/// No session leaves the state `Destroyed`.
pub proof fn law_destroyed_is_final(to: SessionState)
    ensures
        !may_go(SessionState::Destroyed, to),
{
}

/// Only a ready or failed session can be destroyed.
pub proof fn law_destroyed_from_ready_or_error(from: SessionState)
    requires
        may_go(from, SessionState::Destroyed),
    ensures
        from is Ready || from is Error,
{
}

/// From where a session comes to each state: it boots once, right after it was
/// created; it runs when ready or after a pause; it is paused while it runs, and
/// saved or reviewed while it is ready; it fails while it boots or runs, and
/// becomes ready again from all of these but a pause.
pub proof fn law_from_where_a_session_comes(from: SessionState, to: SessionState)
    ensures
        to is Created ==> !may_go(from, to),
        to is Booting ==> (may_go(from, to) <==> from is Created),
        to is Ready ==> (may_go(from, to) <==> from is Booting || from is Running
            || from is Checkpointed || from is Reviewing || from is Error),
        to is Running ==> (may_go(from, to) <==> from is Ready || from is Paused),
        to is Paused ==> (may_go(from, to) <==> from is Running),
        to is Checkpointed ==> (may_go(from, to) <==> from is Ready),
        to is Reviewing ==> (may_go(from, to) <==> from is Ready),
        to is Error ==> (may_go(from, to) <==> from is Booting || from is Running),
        to is Destroyed ==> (may_go(from, to) <==> from is Ready || from is Error),
{
}

} // verus!
