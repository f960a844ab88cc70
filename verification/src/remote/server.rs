//! A server that sessions run on.

use vstd::prelude::*;
use vstd::string::*;
use crate::db::servers::{ServerRow, LOCAL_SERVER_ID};

verus! {

/// A server: this host, or one of the tailnet.
#[derive(PartialEq, Eq, Debug)]
pub struct RemoteServer {
    pub id: String,
    pub name: String,
    pub address: String,
    pub tailscale_ip: Option<String>,
    pub is_local: bool,
}

impl Clone for RemoteServer {
    fn clone(&self) -> (r: Self)
        ensures
            r == *self,
    {
        RemoteServer {
            id: self.id.clone(),
            name: self.name.clone(),
            address: self.address.clone(),
            tailscale_ip: self.tailscale_ip.clone(),
            is_local: self.is_local,
        }
    }
}

impl RemoteServer {
    /// This host, where no row tells of it yet.
    pub fn local_default() -> (r: Self)
        ensures
            r.id@ == LOCAL_SERVER_ID@,
            r.name@ == "This Mac"@,
            r.address@ == "http://localhost:6420"@,
            r.tailscale_ip is None,
            r.is_local,
    {
        RemoteServer {
            id: LOCAL_SERVER_ID.to_owned(),
            name: "This Mac".to_owned(),
            address: "http://localhost:6420".to_owned(),
            tailscale_ip: None,
            is_local: true,
        }
    }

    /// Where its actor runtime listens.
    pub fn rivet_url(&self) -> (r: &str)
        ensures
            r@ == self.address@,
    {
        self.address.as_str()
    }

    /// The server of a row.
    pub open spec fn of_row(row: ServerRow) -> RemoteServer {
        RemoteServer {
            id: row.id,
            name: row.name,
            address: row.address,
            tailscale_ip: row.tailscale_ip,
            is_local: row.is_local,
        }
    }

    /// The server of a row.
    pub fn from_row(row: ServerRow) -> (r: Self)
        ensures
            r == Self::of_row(row),
    {
        RemoteServer {
            id: row.id,
            name: row.name,
            address: row.address,
            tailscale_ip: row.tailscale_ip,
            is_local: row.is_local,
        }
    }
}

} // verus!
