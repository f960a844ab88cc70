//! What the tables hold, and the decisions that are taken on their rows.
//!
//! Rows are read and written by the program; the rules for them are here.

pub mod audit;
pub mod checkpoints;
pub mod credentials;
pub mod crypto;
pub mod port_forwards;
pub mod servers;
pub mod sessions;
pub mod table;
pub mod workspaces;
