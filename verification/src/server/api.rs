//! Bodies of the API's requests.

use vstd::prelude::*;

use crate::common::AgentEvent;

verus! {

/// POST /v1/telemetry body.
#[derive(Debug)]
pub struct TelemetryPayload {
    pub batch: Vec<AgentEvent>,
}

pub const API_PREFIX: &'static str = "/v1";

} // verus!
