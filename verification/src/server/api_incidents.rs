//! The incidents API: queries, actions, and the JSON of an incident.

use vstd::prelude::*;

use crate::json;
use crate::json::{Json, JsonView};
use crate::server::incidents;
use crate::server::incidents::{Incident, IncidentEvent, IncidentStatus, IncidentView, TimelineView};
use crate::server::reply;
use crate::server::reply::{Reply, ReplyView};
use crate::text;

verus! {

/// What GET /v1/incidents asks for.
#[derive(Debug, Default)]
pub struct IncidentQuery {
    pub status: Option<String>,
    pub severity: Option<String>,
    pub host: Option<String>,
    pub limit: i64,
}

impl IncidentQuery {
    /// How many incidents a query may return.
    pub fn row_limit(&self) -> (r: i64)
        ensures
            r == reply::clamped(self.limit as int),
    {
        reply::clamp_limit(self.limit)
    }
}

/// The status that an action sets.
pub open spec fn action_status(action: Seq<char>) -> Option<IncidentStatus> {
    if action == "ack"@ {
        Some(IncidentStatus::Acknowledged)
    } else if action == "resolve"@ {
        Some(IncidentStatus::Resolved)
    } else {
        None
    }
}

/// The reply to an unknown action.
pub open spec fn unknown_action() -> ReplyView {
    reply::failure(reply::NOT_FOUND, "unknown action"@)
}

/// The status that POST /v1/incidents/{id}/ack | /resolve sets, or the reply
/// to any other action.
pub fn set_status_route(action: &str) -> (r: Result<IncidentStatus, Reply>)
    ensures
        match r {
            Ok(s) => action_status(action@) == Some(s),
            Err(e) => action_status(action@) is None && e@ == unknown_action(),
        },
{
    if text::same(action, "ack") {
        Ok(IncidentStatus::Acknowledged)
    } else if text::same(action, "resolve") {
        Ok(IncidentStatus::Resolved)
    } else {
        Err(reply::fail(reply::NOT_FOUND, "unknown action"))
    }
}

/// What came of setting a status: a row was updated, none was found, or the
/// store failed.
#[derive(Debug, Clone, Copy, PartialEq, Eq, Structural)]
pub enum StoreOutcome {
    Updated,
    NotFound,
    Failed,
}

/// The reply to a status that was set.
pub open spec fn outcome_reply(o: StoreOutcome) -> ReplyView {
    match o {
        StoreOutcome::Updated => ReplyView {
            status: reply::OK,
            body: reply::only_member("ok"@, JsonView::Flag(true)),
        },
        StoreOutcome::NotFound => reply::failure(reply::NOT_FOUND, "incident not found"@),
        StoreOutcome::Failed => reply::failure(reply::INTERNAL_SERVER_ERROR, "store failed"@),
    }
}

/// The reply to a status that was set.
pub fn status_reply(o: StoreOutcome) -> (r: Reply)
    ensures
        r@ == outcome_reply(o),
{
    match o {
        StoreOutcome::Updated => Reply {
            status: reply::OK,
            body: reply::single_member("ok", Json::Flag(true)),
        },
        StoreOutcome::NotFound => reply::fail(reply::NOT_FOUND, "incident not found"),
        StoreOutcome::Failed => reply::fail(reply::INTERNAL_SERVER_ERROR, "store failed"),
    }
}

/// An event of a timeline as JSON, its members in the order of their names.
pub open spec fn event_view(e: TimelineView) -> JsonView {
    JsonView::Object(
        seq![
            ("evidence"@, JsonView::Verbatim(e.evidence)),
            ("host_id"@, JsonView::Text(e.host_id)),
            ("id"@, JsonView::Text(e.id)),
            ("kind"@, JsonView::Text(e.kind)),
            ("severity"@, JsonView::Text(e.severity)),
            ("summary"@, JsonView::Text(e.summary)),
            ("ts"@, JsonView::Number(e.ts as int)),
        ],
    )
}

/// An incident as JSON, its members in the order of their names.
pub open spec fn incident_view(i: IncidentView) -> JsonView {
    JsonView::Object(
        seq![
            ("acked_at"@, json::number_or_null(i.acked_at)),
            ("actions"@, json::texts_view(i.actions)),
            ("affected"@, json::texts_view(i.affected)),
            ("cause"@, JsonView::Text(i.cause)),
            ("created_at"@, JsonView::Number(i.created_at as int)),
            ("headline"@, JsonView::Text(i.headline)),
            ("host_id"@, JsonView::Text(i.host_id)),
            ("id"@, JsonView::Text(i.id)),
            ("key"@, JsonView::Text(i.key)),
            ("resolved_at"@, json::number_or_null(i.resolved_at)),
            ("severity"@, JsonView::Text(i.severity)),
            ("status"@, JsonView::Text(incidents::status_name(i.status))),
            (
                "timeline"@,
                JsonView::List(i.timeline.map_values(|e: TimelineView| event_view(e))),
            ),
            ("updated_at"@, JsonView::Number(i.updated_at as int)),
        ],
    )
}

/// An event of a timeline as JSON.
pub fn event_json(e: &IncidentEvent) -> (r: Json)
    ensures
        r@ == event_view(e@),
{
    let mut m: Vec<(String, Json)> = Vec::new();
    json::add_member(&mut m, "evidence", Json::Verbatim(e.evidence.clone()));
    json::add_member(&mut m, "host_id", json::text_json(e.host_id.as_str()));
    json::add_member(&mut m, "id", json::text_json(e.id.as_str()));
    json::add_member(&mut m, "kind", json::text_json(e.kind.as_str()));
    json::add_member(&mut m, "severity", json::text_json(e.severity.as_str()));
    json::add_member(&mut m, "summary", json::text_json(e.summary.as_str()));
    json::add_member(&mut m, "ts", Json::Number(e.ts));
    assert(json::members(m@) =~= event_view(e@)->Object_0);
    json::object_of(m)
}

fn timeline_json(v: &Vec<IncidentEvent>) -> (r: Json)
    ensures
        r@ == JsonView::List(
            incidents::timeline_views(v@).map_values(|e: TimelineView| event_view(e)),
        ),
{
    let mut items: Vec<Json> = Vec::new();
    let mut i: usize = 0;
    while i < v.len()
        invariant
            i <= v@.len(),
            items@.len() == i,
            forall|k: int| 0 <= k < i ==> (#[trigger] items@[k])@ == event_view(v@[k]@),
        decreases v@.len() - i,
    {
        items.push(event_json(&v[i]));
        i = i + 1;
    }
    let r = Json::List(items);
    assert(r@->List_0 =~= incidents::timeline_views(v@).map_values(
        |e: TimelineView| event_view(e),
    ));
    r
}

/// Canonical incident JSON: the notifier and UI both use this shape.
pub fn incident_json(inc: &Incident) -> (r: Json)
    ensures
        r@ == incident_view(inc@),
{
    let mut m: Vec<(String, Json)> = Vec::new();
    json::add_member(&mut m, "acked_at", json::optional_number(inc.acked_at));
    json::add_member(&mut m, "actions", json::texts_json(&inc.actions));
    json::add_member(&mut m, "affected", json::texts_json(&inc.affected));
    json::add_member(&mut m, "cause", json::text_json(inc.cause.as_str()));
    json::add_member(&mut m, "created_at", Json::Number(inc.created_at));
    json::add_member(&mut m, "headline", json::text_json(inc.headline.as_str()));
    json::add_member(&mut m, "host_id", json::text_json(inc.host_id.as_str()));
    json::add_member(&mut m, "id", json::text_json(inc.id.as_str()));
    json::add_member(&mut m, "key", json::text_json(inc.key.as_str()));
    json::add_member(&mut m, "resolved_at", json::optional_number(inc.resolved_at));
    json::add_member(&mut m, "severity", json::text_json(inc.severity.as_str()));
    json::add_member(
        &mut m,
        "status",
        json::text_json(incidents::status_text(inc.status)),
    );
    json::add_member(&mut m, "timeline", timeline_json(&inc.timeline));
    json::add_member(&mut m, "updated_at", Json::Number(inc.updated_at));
    assert(json::members(m@) =~= incident_view(inc@)->Object_0);
    json::object_of(m)
}

/// Two actions are known, and each sets its own status.
pub proof fn law_actions_set_their_status(action: Seq<char>)
    ensures
        action_status(action) == Some(IncidentStatus::Acknowledged) <==> action == "ack"@,
        action_status(action) == Some(IncidentStatus::Resolved) <==> action == "resolve"@,
        action_status(action) != Some(IncidentStatus::Open),
{
    reveal_strlit("ack");
    reveal_strlit("resolve");
    assert("ack"@.len() == 3 && "resolve"@.len() == 7);
}

/// A change is confirmed only where the store made it.
pub proof fn law_outcomes_are_told(o: StoreOutcome)
    ensures
        o is Updated <==> outcome_reply(o).status == 200,
        o is NotFound <==> outcome_reply(o).status == 404,
        o is Failed <==> outcome_reply(o).status == 500,
        unknown_action().status == 404,
{
}

/// An incident is given whole: every part of it stands under its name.
pub proof fn law_incidents_are_given_whole(i: IncidentView)
    ensures
        incident_view(i) matches JsonView::Object(m) && m.len() == 14 && m.contains(
            ("id"@, JsonView::Text(i.id)),
        ) && m.contains(("key"@, JsonView::Text(i.key))) && m.contains(
            ("host_id"@, JsonView::Text(i.host_id)),
        ) && m.contains(("severity"@, JsonView::Text(i.severity))) && m.contains(
            ("headline"@, JsonView::Text(i.headline)),
        ) && m.contains(("cause"@, JsonView::Text(i.cause))) && m.contains(
            (
                "status"@,
                JsonView::Text(
                    match i.status {
                        IncidentStatus::Open => "open"@,
                        IncidentStatus::Acknowledged => "acknowledged"@,
                        IncidentStatus::Resolved => "resolved"@,
                    },
                ),
            ),
        ) && m.contains(("created_at"@, JsonView::Number(i.created_at as int))) && m.contains(
            ("updated_at"@, JsonView::Number(i.updated_at as int)),
        ) && (i.acked_at is None ==> m.contains(("acked_at"@, JsonView::Null))) && (
        i.acked_at matches Some(t) ==> m.contains(("acked_at"@, JsonView::Number(t as int)))) && (
        i.resolved_at is None ==> m.contains(("resolved_at"@, JsonView::Null))) && (
        i.resolved_at matches Some(t) ==> m.contains(
            ("resolved_at"@, JsonView::Number(t as int)),
        )),
        incident_view(i) matches JsonView::Object(m) && m.contains(
            (
                "actions"@,
                JsonView::List(
                    Seq::new(i.actions.len(), |k: int| JsonView::Text(i.actions[k])),
                ),
            ),
        ) && m.contains(
            (
                "affected"@,
                JsonView::List(
                    Seq::new(i.affected.len(), |k: int| JsonView::Text(i.affected[k])),
                ),
            ),
        ),
{
    let m = incident_view(i)->Object_0;
    assert(m[0].0 == "acked_at"@ && m[1].0 == "actions"@ && m[2].0 == "affected"@ && m[3].0
        == "cause"@ && m[4].0 == "created_at"@ && m[5].0 == "headline"@ && m[6].0 == "host_id"@
        && m[7].0 == "id"@ && m[8].0 == "key"@ && m[9].0 == "resolved_at"@ && m[10].0
        == "severity"@ && m[11].0 == "status"@ && m[12].0 == "timeline"@ && m[13].0
        == "updated_at"@);
    assert(Seq::new(i.actions.len(), |k: int| JsonView::Text(i.actions[k])) =~= i.actions.map_values(
        |s: Seq<char>| JsonView::Text(s),
    ));
    assert(Seq::new(i.affected.len(), |k: int| JsonView::Text(i.affected[k]))
        =~= i.affected.map_values(|s: Seq<char>| JsonView::Text(s)));
}

/// The timeline tells each event with its time, kind, severity, summary, host
/// and evidence, in order.
pub proof fn law_timelines_are_given_whole(i: IncidentView, k: int)
    requires
        0 <= k < i.timeline.len(),
    ensures
        incident_view(i) matches JsonView::Object(m) && m[12].0 == "timeline"@ && (
        m[12].1 matches JsonView::List(v) && v.len() == i.timeline.len() && (
        v[k] matches JsonView::Object(e) && e.len() == 7 && e.contains(
            ("ts"@, JsonView::Number(i.timeline[k].ts as int)),
        ) && e.contains(("id"@, JsonView::Text(i.timeline[k].id))) && e.contains(
            ("host_id"@, JsonView::Text(i.timeline[k].host_id)),
        ) && e.contains(("kind"@, JsonView::Text(i.timeline[k].kind))) && e.contains(
            ("severity"@, JsonView::Text(i.timeline[k].severity)),
        ) && e.contains(("summary"@, JsonView::Text(i.timeline[k].summary))) && e.contains(
            ("evidence"@, JsonView::Verbatim(i.timeline[k].evidence)),
        ))),
{
    let e = event_view(i.timeline[k])->Object_0;
    assert(e[0].0 == "evidence"@ && e[1].0 == "host_id"@ && e[2].0 == "id"@ && e[3].0 == "kind"@
        && e[4].0 == "severity"@ && e[5].0 == "summary"@ && e[6].0 == "ts"@);
}

} // verus!
