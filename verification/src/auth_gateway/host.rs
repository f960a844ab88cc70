//! The life of the gateway.

use vstd::prelude::*;
use vstd::string::*;
use crate::net::SocketAddr;
use crate::text;

verus! {

/// How far the gateway is.
#[derive(Clone, PartialEq, Eq, Debug)]
pub enum GatewayStatus {
    Idle,
    Starting,
    /// It listens at this address.
    Ready(SocketAddr),
    Failed(String),
}

/// How far the gateway is once it tried to listen.
pub fn bound(result: Result<SocketAddr, String>) -> (r: GatewayStatus)
    ensures
        match result {
            Ok(addr) => r == GatewayStatus::Ready(addr),
            Err(e) => r matches GatewayStatus::Failed(m) && m@ == "bind: "@ + e@,
        },
{
    match result {
        Ok(addr) => GatewayStatus::Ready(addr),
        Err(e) => GatewayStatus::Failed(text::concat2("bind: ", e.as_str())),
    }
}

/// What one who waits for the gateway does next.
#[derive(Clone, PartialEq, Eq, Debug)]
pub enum WaitStep {
    /// Stop waiting: at this address, or in vain.
    Done(Option<SocketAddr>),
    /// Look again a little later.
    Again,
}

/// What one who waits for the gateway does next: stop where it listens or has
/// failed, or where the time is over.
pub fn wait_until_ready(status: &GatewayStatus, expired: bool) -> (r: WaitStep)
    ensures
        match *status {
            GatewayStatus::Ready(addr) => r == WaitStep::Done(Some(addr)),
            GatewayStatus::Failed(_) => r == WaitStep::Done(None),
            _ => if expired {
                r == WaitStep::Done(None)
            } else {
                r is Again
            },
        },
{
    match status {
        GatewayStatus::Ready(addr) => WaitStep::Done(Some(*addr)),
        GatewayStatus::Failed(_) => WaitStep::Done(None),
        _ => {
            if expired {
                WaitStep::Done(None)
            } else {
                WaitStep::Again
            }
        },
    }
}

} // verus!
