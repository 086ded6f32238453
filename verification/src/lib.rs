//! Host monitoring: the agent's sensors, the server's incident logic and the
//! error-reporting client, as verified functions over plain values.

pub mod agent;
pub mod civil;
pub mod common;
pub mod ids;
pub mod json;
pub mod sdk;
pub mod seqs;
pub mod server;
pub mod table;
pub mod text;
