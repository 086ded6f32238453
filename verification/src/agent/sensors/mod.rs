//! The sensors.

pub mod accesslog;
pub mod certs;
pub mod disk;
pub mod docker;
pub mod fim_types;
pub mod health;
pub mod netflow;
pub mod process;
pub mod resource;
pub mod security;
pub mod sshauth;
pub mod systemd;
