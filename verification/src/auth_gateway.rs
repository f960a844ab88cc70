//! Reverse proxy between the agents of a sandbox and the model providers.
//!
//! Agents talk to the gateway with a dummy credential. The gateway finds the
//! rule for the host that a request names, takes the authentication headers
//! of the agent off it, and puts the stored credential on before the request
//! goes out.

pub mod audit;
pub mod firewall;
pub mod host;
pub mod laws;
pub mod persister;
pub mod proxy;
pub mod rules;
