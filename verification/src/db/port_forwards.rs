//! Rows of port forwards.

use vstd::prelude::*;

verus! {

/// A port forward of a session.
#[derive(Clone, PartialEq, Eq, Debug)]
pub struct PortForwardRow {
    pub id: String,
    pub session_id: String,
    pub direction: String,
    pub sandbox_port: u16,
    pub host_port: u16,
    pub enabled: bool,
    pub created_at: String,
}

} // verus!
