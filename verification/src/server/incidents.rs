//! Incidents: how rows become incidents, how one is opened, raised and closed.

use vstd::prelude::*;

use crate::common;
use crate::common::Severity;
use crate::ids;
use crate::json;
use crate::json::{Json, JsonView};
use crate::text;

verus! {

#[derive(Debug, Clone, Copy, PartialEq, Eq, Structural)]
pub enum IncidentStatus {
    Open,
    Acknowledged,
    Resolved,
}

/// The name of a status in the store and in JSON.
pub open spec fn status_name(s: IncidentStatus) -> Seq<char> {
    match s {
        IncidentStatus::Open => "open"@,
        IncidentStatus::Acknowledged => "acknowledged"@,
        IncidentStatus::Resolved => "resolved"@,
    }
}

/// The name of a status.
pub fn status_text(s: IncidentStatus) -> (r: &'static str)
    ensures
        r@ == status_name(s),
{
    match s {
        IncidentStatus::Open => "open",
        IncidentStatus::Acknowledged => "acknowledged",
        IncidentStatus::Resolved => "resolved",
    }
}

/// The status that a stored name stands for: one that is not known is open.
pub open spec fn status_of(name: Seq<char>) -> IncidentStatus {
    if name == "acknowledged"@ {
        IncidentStatus::Acknowledged
    } else if name == "resolved"@ {
        IncidentStatus::Resolved
    } else {
        IncidentStatus::Open
    }
}

/// A stored status is read back as it was.
pub proof fn law_status_names_round_trip(s: IncidentStatus)
    ensures
        status_of(status_name(s)) == s,
{
    reveal_strlit("open");
    reveal_strlit("acknowledged");
    reveal_strlit("resolved");
    assert("open"@.len() == 4 && "acknowledged"@.len() == 12 && "resolved"@.len() == 8);
}

/// An event of an incident's timeline. Its evidence is the text of a JSON
/// array.
#[derive(Debug, Clone)]
pub struct IncidentEvent {
    pub id: String,
    pub ts: i64,
    pub host_id: String,
    pub kind: String,
    pub severity: String,
    pub summary: String,
    pub evidence: String,
}

/// What an `IncidentEvent` says.
#[verifier::ext_equal]
pub struct TimelineView {
    pub id: Seq<char>,
    pub ts: i64,
    pub host_id: Seq<char>,
    pub kind: Seq<char>,
    pub severity: Seq<char>,
    pub summary: Seq<char>,
    pub evidence: Seq<char>,
}

impl View for IncidentEvent {
    type V = TimelineView;

    open spec fn view(&self) -> TimelineView {
        TimelineView {
            id: self.id@,
            ts: self.ts,
            host_id: self.host_id@,
            kind: self.kind@,
            severity: self.severity@,
            summary: self.summary@,
            evidence: self.evidence@,
        }
    }
}

/// What each event of a timeline says.
pub open spec fn timeline_views(v: Seq<IncidentEvent>) -> Seq<TimelineView> {
    v.map_values(|e: IncidentEvent| e@)
}

#[derive(Debug, Clone)]
pub struct Incident {
    pub id: String,
    pub key: String,
    pub host_id: String,
    pub severity: String,
    pub status: IncidentStatus,
    pub headline: String,
    pub cause: String,
    pub actions: Vec<String>,
    pub affected: Vec<String>,
    pub created_at: i64,
    pub updated_at: i64,
    pub acked_at: Option<i64>,
    pub resolved_at: Option<i64>,
    pub timeline: Vec<IncidentEvent>,
}

/// What an `Incident` says.
#[verifier::ext_equal]
pub struct IncidentView {
    pub id: Seq<char>,
    pub key: Seq<char>,
    pub host_id: Seq<char>,
    pub severity: Seq<char>,
    pub status: IncidentStatus,
    pub headline: Seq<char>,
    pub cause: Seq<char>,
    pub actions: Seq<Seq<char>>,
    pub affected: Seq<Seq<char>>,
    pub created_at: i64,
    pub updated_at: i64,
    pub acked_at: Option<i64>,
    pub resolved_at: Option<i64>,
    pub timeline: Seq<TimelineView>,
}

impl View for Incident {
    type V = IncidentView;

    open spec fn view(&self) -> IncidentView {
        IncidentView {
            id: self.id@,
            key: self.key@,
            host_id: self.host_id@,
            severity: self.severity@,
            status: self.status,
            headline: self.headline@,
            cause: self.cause@,
            actions: text::views(self.actions@),
            affected: text::views(self.affected@),
            created_at: self.created_at,
            updated_at: self.updated_at,
            acked_at: self.acked_at,
            resolved_at: self.resolved_at,
            timeline: timeline_views(self.timeline@),
        }
    }
}

/// A stored incident.
pub struct IncidentRow {
    pub id: String,
    pub key: String,
    pub host_id: String,
    pub severity: String,
    pub headline: String,
    pub cause: String,
    pub actions_json: String,
    pub affected_json: String,
    pub created_at: i64,
    pub updated_at: i64,
    pub acked_at: Option<i64>,
    pub resolved_at: Option<i64>,
    pub status: String,
}

/// A row is what is stored of an incident: its lists as JSON arrays, and
/// everything else as it is but the timeline, which is stored elsewhere.
pub open spec fn is_row_of(r: IncidentRow, i: IncidentView) -> bool {
    &&& r.id@ == i.id
    &&& r.key@ == i.key
    &&& r.host_id@ == i.host_id
    &&& r.severity@ == i.severity
    &&& r.headline@ == i.headline
    &&& r.cause@ == i.cause
    &&& r.actions_json@ == json::rendered(json::texts_view(i.actions))
    &&& r.affected_json@ == json::rendered(json::texts_view(i.affected))
    &&& r.created_at == i.created_at
    &&& r.updated_at == i.updated_at
    &&& r.acked_at == i.acked_at
    &&& r.resolved_at == i.resolved_at
    &&& r.status@ == status_name(i.status)
}

/// What is stored of an incident.
pub fn incident_row(i: &Incident) -> (r: IncidentRow)
    ensures
        is_row_of(r, i@),
{
    IncidentRow {
        id: i.id.clone(),
        key: i.key.clone(),
        host_id: i.host_id.clone(),
        severity: i.severity.clone(),
        headline: i.headline.clone(),
        cause: i.cause.clone(),
        actions_json: json::texts_json(&i.actions).render(),
        affected_json: json::texts_json(&i.affected).render(),
        created_at: i.created_at,
        updated_at: i.updated_at,
        acked_at: i.acked_at,
        resolved_at: i.resolved_at,
        status: text::owned(status_text(i.status)),
    }
}

/// A list of texts that was read; empty when it could not be.
pub open spec fn list_or_empty(read: Option<Seq<Seq<char>>>) -> Seq<Seq<char>> {
    match read {
        Some(v) => v,
        None => seq![],
    }
}

/// The incident of a row, given its lists as they were read.
pub open spec fn incident_of(
    r: IncidentRow,
    actions: Option<Seq<Seq<char>>>,
    affected: Option<Seq<Seq<char>>>,
) -> IncidentView {
    IncidentView {
        id: r.id@,
        key: r.key@,
        host_id: r.host_id@,
        severity: r.severity@,
        status: status_of(r.status@),
        headline: r.headline@,
        cause: r.cause@,
        actions: list_or_empty(actions),
        affected: list_or_empty(affected),
        created_at: r.created_at,
        updated_at: r.updated_at,
        acked_at: r.acked_at,
        resolved_at: r.resolved_at,
        timeline: seq![],
    }
}

fn list_of(v: Option<Vec<String>>) -> (r: Vec<String>)
    ensures
        text::views(r@) == list_or_empty(json::list_view(v)),
{
    match v {
        Some(v) => v,
        None => {
            let r: Vec<String> = Vec::new();
            assert(text::views(r@) =~= seq![]);
            r
        },
    }
}

/// The incident of a row, given its lists as they were read.
pub fn make_incident(
    r: IncidentRow,
    actions: Option<Vec<String>>,
    affected: Option<Vec<String>>,
) -> (i: Incident)
    ensures
        i@ == incident_of(r, json::list_view(actions), json::list_view(affected)),
{
    let ghost row = r;
    let status = if text::same(r.status.as_str(), "acknowledged") {
        IncidentStatus::Acknowledged
    } else if text::same(r.status.as_str(), "resolved") {
        IncidentStatus::Resolved
    } else {
        IncidentStatus::Open
    };
    let i = Incident {
        id: r.id,
        key: r.key,
        host_id: r.host_id,
        severity: r.severity,
        status,
        headline: r.headline,
        cause: r.cause,
        actions: list_of(actions),
        affected: list_of(affected),
        created_at: r.created_at,
        updated_at: r.updated_at,
        acked_at: r.acked_at,
        resolved_at: r.resolved_at,
        timeline: Vec::new(),
    };
    assert(i@.timeline =~= seq![]);
    assert(i@ =~= incident_of(row, json::list_view(actions), json::list_view(affected)));
    i
}

/// The incident of a row, without its timeline. Lists that are no JSON arrays
/// of strings are empty. What is stored of an incident is read back as it was.
pub fn row_to_incident(r: IncidentRow) -> (i: Incident)
    ensures
        i@ == incident_of(
            r,
            json::string_list(r.actions_json@),
            json::string_list(r.affected_json@),
        ),
        forall|stored: IncidentView| #[trigger]
            is_row_of(r, stored) ==> i@ == (IncidentView { timeline: seq![], ..stored }),
{
    let ghost row = r;
    let actions = json::read_strings(r.actions_json.as_str());
    let affected = json::read_strings(r.affected_json.as_str());
    let i = make_incident(r, actions, affected);
    assert forall|stored: IncidentView| #[trigger] is_row_of(row, stored) implies i@ == (
    IncidentView { timeline: seq![], ..stored }) by {
        law_status_names_round_trip(stored.status);
        assert(i@ =~= IncidentView { timeline: seq![], ..stored });
    }
    i
}

/// A new incident, whatever its id.
pub open spec fn new_incident(
    key: Seq<char>,
    host_id: Seq<char>,
    severity: Seq<char>,
    headline: Seq<char>,
    cause: Seq<char>,
    actions: Seq<Seq<char>>,
    affected: Seq<Seq<char>>,
    now: i64,
) -> IncidentView {
    IncidentView {
        id: seq![],
        key,
        host_id,
        severity,
        status: IncidentStatus::Open,
        headline,
        cause,
        actions,
        affected,
        created_at: now,
        updated_at: now,
        acked_at: None,
        resolved_at: None,
        timeline: seq![],
    }
}

/// Open a new incident, or ABSORB into the open incident with the same key
/// (dedup while open), which the caller has looked up. Returns the incident to
/// operate on: the caller then re-links events (idempotent) and touches
/// updated_at only when new events were linked.
pub fn create_incident(
    existing: Option<Incident>,
    key: &str,
    host_id: &str,
    severity: &str,
    headline: &str,
    cause: &str,
    actions: &Vec<String>,
    affected: &Vec<String>,
    now: i64,
) -> (r: Incident)
    ensures
        match existing {
            Some(i) => r == i,
            None => ids::is_random_id(r.id@) && r@ == (IncidentView {
                id: r.id@,
                ..new_incident(
                    key@,
                    host_id@,
                    severity@,
                    headline@,
                    cause@,
                    text::views(actions@),
                    text::views(affected@),
                    now,
                )
            }),
        },
{
    match existing {
        Some(i) => i,
        None => {
            let r = Incident {
                id: ids::fresh_id(),
                key: text::owned(key),
                host_id: text::owned(host_id),
                severity: text::owned(severity),
                status: IncidentStatus::Open,
                headline: text::owned(headline),
                cause: text::owned(cause),
                actions: text::copied(actions),
                affected: text::copied(affected),
                created_at: now,
                updated_at: now,
                acked_at: None,
                resolved_at: None,
                timeline: Vec::new(),
            };
            assert(r@.timeline =~= seq![]);
            r
        },
    }
}

/// No two incidents of a store that are not resolved have the same key.
pub open spec fn one_unresolved_per_key(rows: Seq<IncidentView>) -> bool {
    forall|i: int, j: int|
        0 <= i < j < rows.len() && !((#[trigger] rows[i]).status is Resolved) && !((
        #[trigger] rows[j]).status is Resolved) ==> rows[i].key != rows[j].key
}

/// `found` is the store's incident of a key that is not resolved; none when it
/// has none.
pub open spec fn is_unresolved_of(
    rows: Seq<IncidentView>,
    key: Seq<char>,
    found: Option<IncidentView>,
) -> bool {
    match found {
        Some(i) => rows.contains(i) && i.key == key && !(i.status is Resolved),
        None => forall|i: int|
            0 <= i < rows.len() && (#[trigger] rows[i]).key == key ==> rows[i].status is Resolved,
    }
}

/// A store with a new incident as its last; unchanged where one of the key is
/// absorbed into.
pub open spec fn rows_after(
    rows: Seq<IncidentView>,
    found: Option<IncidentView>,
    new: IncidentView,
) -> Seq<IncidentView> {
    match found {
        Some(_) => rows,
        None => rows.push(new),
    }
}

/// A store in which no two unresolved incidents share a key stays one when an
/// incident is opened, or absorbed into the one that was looked up; and then
/// it has an unresolved incident of that key.
pub proof fn law_one_unresolved_incident_per_key(
    rows: Seq<IncidentView>,
    found: Option<IncidentView>,
    id: Seq<char>,
    key: Seq<char>,
    host_id: Seq<char>,
    severity: Seq<char>,
    headline: Seq<char>,
    cause: Seq<char>,
    actions: Seq<Seq<char>>,
    affected: Seq<Seq<char>>,
    now: i64,
)
    requires
        one_unresolved_per_key(rows),
        is_unresolved_of(rows, key, found),
    ensures
        ({
            let new = IncidentView {
                id,
                ..new_incident(
                    key,
                    host_id,
                    severity,
                    headline,
                    cause,
                    actions,
                    affected,
                    now,
                )
            };
            let after = rows_after(rows, found, new);
            &&& one_unresolved_per_key(after)
            &&& exists|i: int|
                0 <= i < after.len() && (#[trigger] after[i]).key == key && !(
                after[i].status is Resolved)
        }),
{
    let new = IncidentView {
        id,
        ..new_incident(key, host_id, severity, headline, cause, actions, affected, now)
    };
    let after = rows_after(rows, found, new);
    match found {
        Some(f) => {
            let i = choose|i: int| 0 <= i < rows.len() && rows[i] == f;
            assert(after[i].key == key);
        },
        None => {
            assert(after[rows.len() as int] == new);
            assert forall|i: int, j: int|
                0 <= i < j < after.len() && !((#[trigger] after[i]).status is Resolved) && !((
                #[trigger] after[j]).status is Resolved) implies after[i].key != after[j].key by {
                assert(after[i] == rows[i]);
                if j < rows.len() {
                    assert(after[j] == rows[j]);
                }
            }
        },
    }
}

/// Whether a severity is higher than a stored one: Critical > Warning > Info,
/// and whatever is not Info is above Info.
pub open spec fn raises(stored: Seq<char>, severity: Seq<char>) -> bool {
    ||| stored == "Info"@ && severity != "Info"@
    ||| stored == "Warning"@ && severity == "Critical"@
}

/// Raise the incident severity if `severity` is higher (never lower): whether
/// the stored severity gives way.
pub fn raise_severity(stored: &str, severity: &str) -> (r: bool)
    ensures
        r == raises(stored@, severity@),
{
    (text::same(stored, "Info") && !text::same(severity, "Info")) || (text::same(
        stored,
        "Warning",
    ) && text::same(severity, "Critical"))
}

proof fn lemma_differ(a: Severity, b: Severity)
    requires
        a != b,
    ensures
        common::severity_name(a) != common::severity_name(b),
{
    if common::severity_name(a) == common::severity_name(b) {
        common::law_severity_names_differ(a, b);
    }
}

/// An incident's severity gives way exactly to a higher one.
pub proof fn law_severity_only_rises(stored: Severity, severity: Severity)
    ensures
        raises(common::severity_name(stored), common::severity_name(severity)) <==> common::rank(
            severity,
        ) > common::rank(stored),
{
    lemma_differ(Severity::Info, Severity::Warning);
    lemma_differ(Severity::Info, Severity::Critical);
    lemma_differ(Severity::Warning, Severity::Critical);
}

/// The name and the time column that a status is stored with; none for an
/// open incident, which no request asks for.
pub open spec fn status_change(status: IncidentStatus) -> Option<(Seq<char>, Seq<char>)> {
    match status {
        IncidentStatus::Acknowledged => Some(("acknowledged"@, "acked_at"@)),
        IncidentStatus::Resolved => Some(("resolved"@, "resolved_at"@)),
        IncidentStatus::Open => None,
    }
}

/// What acking or resolving an incident sets: the status, and the column of
/// the ack/resolve time.
pub fn set_status(status: IncidentStatus) -> (r: Option<(&'static str, &'static str)>)
    ensures
        match r {
            Some(c) => status_change(status) == Some((c.0@, c.1@)),
            None => status_change(status) is None,
        },
{
    match status {
        IncidentStatus::Acknowledged => Some(("acknowledged", "acked_at")),
        IncidentStatus::Resolved => Some(("resolved", "resolved_at")),
        IncidentStatus::Open => None,
    }
}

/// A status that is set is the one that is read back.
pub proof fn law_set_status_is_read_back(status: IncidentStatus)
    ensures
        status_change(status) matches Some(c) ==> status_of(c.0) == status,
{
    law_status_names_round_trip(status);
}

/// A stored event of a timeline.
pub struct TimelineRow {
    pub id: String,
    pub ts: i64,
    pub host_id: String,
    pub kind: String,
    pub severity: String,
    pub summary: String,
    pub evidence_json: String,
}

/// The event of a row, given its evidence as it was read: an empty array when
/// it could not be.
pub open spec fn timeline_of(r: TimelineRow, evidence: Option<Seq<char>>) -> TimelineView {
    TimelineView {
        id: r.id@,
        ts: r.ts,
        host_id: r.host_id@,
        kind: r.kind@,
        severity: r.severity@,
        summary: r.summary@,
        evidence: match evidence {
            Some(t) => t,
            None => "[]"@,
        },
    }
}

/// The event of a row, given its evidence as it was read.
pub fn make_timeline_event(r: TimelineRow, evidence: Option<String>) -> (e: IncidentEvent)
    ensures
        e@ == timeline_of(r, text::opt_view(evidence)),
{
    IncidentEvent {
        id: r.id,
        ts: r.ts,
        host_id: r.host_id,
        kind: r.kind,
        severity: r.severity,
        summary: r.summary,
        evidence: match evidence {
            Some(t) => t,
            None => text::owned("[]"),
        },
    }
}

/// The event of a row. Evidence that is no JSON array is empty.
pub fn row_to_event(r: TimelineRow) -> (e: IncidentEvent)
    ensures
        e@ == timeline_of(r, json::compact_list(r.evidence_json@)),
{
    let evidence = json::rewrite_list(r.evidence_json.as_str());
    make_timeline_event(r, evidence)
}

/// What the list of incidents shows of one.
pub struct IncidentSummary {
    pub id: String,
    pub key: String,
    pub host_id: String,
    pub severity: String,
    pub headline: String,
    pub status: String,
    pub cause: String,
    pub created_at: i64,
    pub updated_at: i64,
    pub acked_at: Option<i64>,
    pub resolved_at: Option<i64>,
}

/// A summary as JSON, its members in the order of their names.
pub open spec fn summary_view(s: IncidentSummary) -> JsonView {
    JsonView::Object(
        seq![
            ("acked_at"@, json::number_or_null(s.acked_at)),
            ("cause"@, JsonView::Text(s.cause@)),
            ("created_at"@, JsonView::Number(s.created_at as int)),
            ("headline"@, JsonView::Text(s.headline@)),
            ("host_id"@, JsonView::Text(s.host_id@)),
            ("id"@, JsonView::Text(s.id@)),
            ("key"@, JsonView::Text(s.key@)),
            ("resolved_at"@, json::number_or_null(s.resolved_at)),
            ("severity"@, JsonView::Text(s.severity@)),
            ("status"@, JsonView::Text(s.status@)),
            ("updated_at"@, JsonView::Number(s.updated_at as int)),
        ],
    )
}

/// A summary (no timeline) as JSON.
pub fn summary_json(s: &IncidentSummary) -> (r: Json)
    ensures
        r@ == summary_view(*s),
{
    let mut m: Vec<(String, Json)> = Vec::new();
    json::add_member(&mut m, "acked_at", json::optional_number(s.acked_at));
    json::add_member(&mut m, "cause", json::text_json(s.cause.as_str()));
    json::add_member(&mut m, "created_at", Json::Number(s.created_at));
    json::add_member(&mut m, "headline", json::text_json(s.headline.as_str()));
    json::add_member(&mut m, "host_id", json::text_json(s.host_id.as_str()));
    json::add_member(&mut m, "id", json::text_json(s.id.as_str()));
    json::add_member(&mut m, "key", json::text_json(s.key.as_str()));
    json::add_member(&mut m, "resolved_at", json::optional_number(s.resolved_at));
    json::add_member(&mut m, "severity", json::text_json(s.severity.as_str()));
    json::add_member(&mut m, "status", json::text_json(s.status.as_str()));
    json::add_member(&mut m, "updated_at", Json::Number(s.updated_at));
    assert(json::members(m@) =~= summary_view(*s)->Object_0);
    json::object_of(m)
}

/// A new incident is open, unanswered and as old as it is, and says what it
/// was made with.
pub proof fn law_new_incidents_are_open(
    key: Seq<char>,
    host_id: Seq<char>,
    severity: Seq<char>,
    headline: Seq<char>,
    cause: Seq<char>,
    actions: Seq<Seq<char>>,
    affected: Seq<Seq<char>>,
    now: i64,
)
    ensures
        ({
            let i = new_incident(key, host_id, severity, headline, cause, actions, affected, now);
            &&& i.status is Open
            &&& i.created_at == now && i.updated_at == now
            &&& i.acked_at is None && i.resolved_at is None
            &&& i.key == key && i.host_id == host_id && i.severity == severity
            &&& i.headline == headline && i.cause == cause
            &&& i.actions == actions && i.affected == affected
        }),
{
}

/// The severity that is stored never goes down, and of two severities that
/// come in turn the higher stays, whichever comes first.
pub proof fn law_the_highest_severity_stays(stored: Severity, a: Severity, b: Severity)
    ensures
        ({
            let up = |s: Seq<char>, x: Seq<char>| if raises(s, x) {
                x
            } else {
                s
            };
            let (s, x, y) = (
                common::severity_name(stored),
                common::severity_name(a),
                common::severity_name(b),
            );
            &&& up(up(s, x), y) == up(up(s, y), x)
            &&& up(s, s) == s
            &&& up("Info"@, x) == x
            &&& up("Critical"@, x) == "Critical"@
            &&& up("Warning"@, x) == (if a is Critical {
                "Critical"@
            } else {
                "Warning"@
            })
        }),
{
    lemma_differ(Severity::Info, Severity::Warning);
    lemma_differ(Severity::Info, Severity::Critical);
    lemma_differ(Severity::Warning, Severity::Critical);
}

/// Acknowledging and resolving are recorded under their own times, and nothing
/// reopens an incident.
pub proof fn law_status_changes_are_recorded()
    ensures
        status_change(IncidentStatus::Acknowledged) == Some(("acknowledged"@, "acked_at"@)),
        status_change(IncidentStatus::Resolved) == Some(("resolved"@, "resolved_at"@)),
        status_change(IncidentStatus::Open) is None,
        status_name(IncidentStatus::Open) == "open"@,
        status_name(IncidentStatus::Acknowledged) == "acknowledged"@,
        status_name(IncidentStatus::Resolved) == "resolved"@,
{
}

/// A summary gives every column of its row under the column's name.
pub proof fn law_summaries_are_whole(s: IncidentSummary)
    ensures
        summary_view(s) matches JsonView::Object(m) && m.len() == 11 && m.contains(
            ("id"@, JsonView::Text(s.id@)),
        ) && m.contains(("key"@, JsonView::Text(s.key@))) && m.contains(
            ("host_id"@, JsonView::Text(s.host_id@)),
        ) && m.contains(("severity"@, JsonView::Text(s.severity@))) && m.contains(
            ("status"@, JsonView::Text(s.status@)),
        ) && m.contains(("headline"@, JsonView::Text(s.headline@))) && m.contains(
            ("cause"@, JsonView::Text(s.cause@)),
        ) && m.contains(("created_at"@, JsonView::Number(s.created_at as int))) && m.contains(
            ("updated_at"@, JsonView::Number(s.updated_at as int)),
        ) && (s.acked_at is None ==> m.contains(("acked_at"@, JsonView::Null))) && (
        s.acked_at matches Some(t) ==> m.contains(("acked_at"@, JsonView::Number(t as int)))) && (
        s.resolved_at is None ==> m.contains(("resolved_at"@, JsonView::Null))) && (
        s.resolved_at matches Some(t) ==> m.contains(
            ("resolved_at"@, JsonView::Number(t as int)),
        )),
{
    let m = summary_view(s)->Object_0;
    assert(m[0].0 == "acked_at"@ && m[1].0 == "cause"@ && m[2].0 == "created_at"@ && m[3].0
        == "headline"@ && m[4].0 == "host_id"@ && m[5].0 == "id"@ && m[6].0 == "key"@ && m[7].0
        == "resolved_at"@ && m[8].0 == "severity"@ && m[9].0 == "status"@ && m[10].0
        == "updated_at"@);
}

} // verus!
