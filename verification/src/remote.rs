//! Servers that sessions run on: this host, and hosts of the tailnet.

pub mod laws;
pub mod registry;
pub mod server;
pub mod sync;
pub mod tailscale;
