//! The control plane: what comes in, how it is grouped into incidents, and
//! who is told about them.

pub mod api;
pub mod api_incidents;
pub mod auth;
pub mod config;
pub mod correlation;
pub mod errors;
pub mod events;
pub mod hosts;
pub mod incidents;
pub mod ingest;
pub mod notify;
pub mod probes;
pub mod reply;
pub mod supervise;
pub mod watchdog;
