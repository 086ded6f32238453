//! The host registry.

use vstd::prelude::*;

use crate::json;
use crate::json::{Json, JsonView};

verus! {

/// What GET /v1/hosts asks for.
#[derive(Debug)]
pub struct HostQuery {
    pub host: Option<String>,
}

/// A row of the host registry.
pub struct HostEntry {
    pub host_id: String,
    pub first_seen: i64,
    pub last_seen: i64,
    pub version: String,
    pub queue_len: i64,
}

/// A row of the host registry as JSON, its members in the order of their
/// names.
pub open spec fn host_view(h: HostEntry) -> JsonView {
    JsonView::Object(
        seq![
            ("first_seen"@, JsonView::Number(h.first_seen as int)),
            ("host_id"@, JsonView::Text(h.host_id@)),
            ("last_seen"@, JsonView::Number(h.last_seen as int)),
            ("queue_len"@, JsonView::Number(h.queue_len as int)),
            ("version"@, JsonView::Text(h.version@)),
        ],
    )
}

/// A row of the host registry as JSON.
pub fn host_json(h: &HostEntry) -> (r: Json)
    ensures
        r@ == host_view(*h),
{
    let mut m: Vec<(String, Json)> = Vec::new();
    json::add_member(&mut m, "first_seen", Json::Number(h.first_seen));
    json::add_member(&mut m, "host_id", json::text_json(h.host_id.as_str()));
    json::add_member(&mut m, "last_seen", Json::Number(h.last_seen));
    json::add_member(&mut m, "queue_len", Json::Number(h.queue_len));
    json::add_member(&mut m, "version", json::text_json(h.version.as_str()));
    assert(json::members(m@) =~= host_view(*h)->Object_0);
    json::object_of(m)
}

/// A host is given with every column of its row.
pub proof fn law_hosts_are_given_whole(h: HostEntry)
    ensures
        host_view(h) matches JsonView::Object(m) && m.len() == 5 && m.contains(
            ("host_id"@, JsonView::Text(h.host_id@)),
        ) && m.contains(("version"@, JsonView::Text(h.version@))) && m.contains(
            ("first_seen"@, JsonView::Number(h.first_seen as int)),
        ) && m.contains(("last_seen"@, JsonView::Number(h.last_seen as int))) && m.contains(
            ("queue_len"@, JsonView::Number(h.queue_len as int)),
        ),
{
    let m = host_view(h)->Object_0;
    assert(m[0].0 == "first_seen"@ && m[1].0 == "host_id"@ && m[2].0 == "last_seen"@ && m[3].0
        == "queue_len"@ && m[4].0 == "version"@);
}

} // verus!
