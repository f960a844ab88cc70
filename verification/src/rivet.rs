//! The protocol of the actor runtime: what is sent to it, and what its answers
//! and broadcasts mean.

pub mod base64;
pub mod checkpoints;
pub mod client;
pub mod event_decode;
pub mod events;
pub mod filesystem;
pub mod laws;
pub mod network;
pub mod sidecar;
pub mod workflow;
