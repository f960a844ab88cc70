//! Control plane for coding agents that run in sandboxed virtual machines:
//! pipelines, workflows, schedules, overlay reviews, the credential gateway,
//! the actor protocol, the server registry and the terminal grid.
//!
//! Everything here computes on plain values. Processes, sockets, files and
//! the database live in the application around this crate.

pub mod address_laws;
pub mod agent;
pub mod auth_gateway;
pub mod availability;
pub mod availability_laws;
pub mod calendar;
pub mod checkpoint;
pub mod config;
pub mod credential_laws;
pub mod credential_store;
pub mod cron;
pub mod cron_laws;
pub mod db;
pub mod diff_render;
pub mod file_passing;
pub mod file_passing_laws;
pub mod firewall;
pub mod fork;
pub mod json;
pub mod line_laws;
pub mod mount_laws;
pub mod net;
pub mod network_laws;
pub mod overlay;
pub mod overlay_laws;
pub mod pipeline;
pub mod pipeline_laws;
pub mod pipeline_run;
pub mod plan_laws;
pub mod prompt_laws;
pub mod record_laws;
pub mod remote;
pub mod review;
pub mod review_laws;
pub mod rivet;
pub mod session;
pub mod terminal;
pub mod text;
pub mod text_laws;
pub mod time;
pub mod workflow;
pub mod workflow_laws;
pub mod workspace;
pub mod workspace_mount;
