//! The agent: sensors over what the host shows, and the detection pass.

pub mod audit;
pub mod cmd;
pub mod discover;
pub mod engine;
pub mod hostid;
pub mod journald;
pub mod logs;
pub mod pattern;
pub mod procfs;
pub mod sensors;
pub mod state;
pub mod telemetry;
