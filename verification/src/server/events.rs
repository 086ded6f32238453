//! Stored events: how rows become events and JSON.

use vstd::prelude::*;

use crate::common;
use crate::common::{AgentEvent, EventKind, EventView, Evidence, Severity};
use crate::json;
use crate::json::Json;
use crate::seqs;
use crate::server::api_incidents;
use crate::server::incidents;
use crate::server::incidents::TimelineRow;
use crate::server::reply;
use crate::text;

verus! {

broadcast use common::lemma_events_push;

/// What GET /v1/events asks for.
#[derive(Debug, Default)]
pub struct EventQuery {
    pub host: Option<String>,
    pub kind: Option<String>,
    pub severity: Option<String>,
    pub since: Option<i64>,
    pub limit: i64,
}

impl EventQuery {
    /// How many events a query may return.
    pub fn row_limit(&self) -> (r: i64)
        ensures
            r == reply::clamped(self.limit as int),
    {
        reply::clamp_limit(self.limit)
    }
}

/// A stored event as JSON. Evidence that is no JSON is an empty array.
pub fn event_row_json(r: TimelineRow) -> (j: Json)
    ensures
        j@ == api_incidents::event_view(
            incidents::timeline_of(r, json::compact_value(r.evidence_json@)),
        ),
{
    let evidence = json::rewrite_value(r.evidence_json.as_str());
    let e = incidents::make_timeline_event(r, evidence);
    api_incidents::event_json(&e)
}

/// A stored event, its evidence read already.
pub struct EventRow {
    pub id: String,
    pub ts: i64,
    pub host_id: String,
    pub key: String,
    pub kind: String,
    pub severity: String,
    pub summary: String,
    pub evidence: Vec<Evidence>,
}

/// A stored name as a JSON string.
pub open spec fn between_quotes(name: Seq<char>) -> Seq<char> {
    "\""@ + name + "\""@
}

/// The kind of a stored name: a kind's own name, or what the name says when
/// it is read as the inside of a JSON string.
pub open spec fn stored_kind(name: Seq<char>, inner: Option<Seq<char>>) -> Option<EventKind> {
    match (common::named_kind(name), inner) {
        (Some(k), _) => Some(k),
        (None, Some(s)) => common::named_kind(s),
        _ => None,
    }
}

/// The severity of a stored name, likewise.
pub open spec fn stored_severity(name: Seq<char>, inner: Option<Seq<char>>) -> Option<Severity> {
    match (common::named_severity(name), inner) {
        (Some(s), _) => Some(s),
        (None, Some(t)) => common::named_severity(t),
        _ => None,
    }
}

/// The event of a row, of a kind and a severity.
pub open spec fn event_in(r: EventRow, kind: EventKind, severity: Severity) -> EventView {
    EventView {
        id: r.id@,
        ts: r.ts,
        host_id: r.host_id@,
        key: r.key@,
        kind,
        severity,
        summary: r.summary@,
        evidence: common::evidence_views(r.evidence@),
    }
}

/// The event of a row; none when its kind or its severity is not known.
pub open spec fn row_event(r: EventRow) -> Option<EventView> {
    let kind = stored_kind(r.kind@, json::string_value(between_quotes(r.kind@)));
    let severity = stored_severity(
        r.severity@,
        json::string_value(between_quotes(r.severity@)),
    );
    match (kind, severity) {
        (Some(k), Some(s)) => Some(event_in(r, k, s)),
        _ => None,
    }
}

/// What is stored of an event is read back as the event.
pub proof fn law_stored_events_are_read_back(r: EventRow, e: EventView)
    requires
        r.id@ == e.id,
        r.ts == e.ts,
        r.host_id@ == e.host_id,
        r.key@ == e.key,
        r.kind@ == common::kind_name(e.kind),
        r.severity@ == common::severity_name(e.severity),
        r.summary@ == e.summary,
        common::evidence_views(r.evidence@) == e.evidence,
    ensures
        row_event(r) == Some(e),
{
    common::law_names_name(e.kind, e.severity);
}

/// The kind of a stored name, given what it says as the inside of a JSON
/// string.
pub fn read_kind(name: &str, inner: Option<String>) -> (r: Option<EventKind>)
    ensures
        r == stored_kind(name@, text::opt_view(inner)),
{
    match common::kind_named(name) {
        Some(k) => Some(k),
        None => match inner {
            Some(s) => common::kind_named(s.as_str()),
            None => None,
        },
    }
}

/// The severity of a stored name, likewise.
pub fn read_severity(name: &str, inner: Option<String>) -> (r: Option<Severity>)
    ensures
        r == stored_severity(name@, text::opt_view(inner)),
{
    match common::severity_named(name) {
        Some(s) => Some(s),
        None => match inner {
            Some(s) => common::severity_named(s.as_str()),
            None => None,
        },
    }
}

fn quote_name(name: &str) -> (r: String)
    ensures
        r@ == between_quotes(name@),
{
    text::owned("\"").concat(name).concat("\"")
}

/// The event of a row.
pub fn event_from_row(r: EventRow) -> (e: Option<AgentEvent>)
    ensures
        match e {
            Some(e) => row_event(r) == Some(e@),
            None => row_event(r) is None,
        },
{
    let inner = json::read_string(quote_name(r.kind.as_str()).as_str());
    let kind = read_kind(r.kind.as_str(), inner)?;
    let inner = json::read_string(quote_name(r.severity.as_str()).as_str());
    let severity = read_severity(r.severity.as_str(), inner)?;
    Some(
        AgentEvent {
            id: r.id,
            ts: r.ts,
            host_id: r.host_id,
            key: r.key,
            kind,
            severity,
            summary: r.summary,
            evidence: r.evidence,
        },
    )
}

/// Raw events for the correlation scan: those of the rows that are known.
pub fn fetch_events_simple(rows: Vec<EventRow>) -> (r: Vec<AgentEvent>)
    ensures
        common::events(r@) == seqs::picked(rows@, |row: EventRow| row_event(row)),
{
    let ghost all = rows@;
    let ghost f = |row: EventRow| row_event(row);
    let mut rows = rows;
    let mut out: Vec<AgentEvent> = Vec::new();
    let total: usize = rows.len();
    let mut i: usize = 0;
    assert(common::events(out@) =~= seqs::picked(all.take(0), f));
    while i < total
        invariant
            i <= total,
            total == all.len(),
            f == (|row: EventRow| row_event(row)),
            rows@ == all.skip(i as int),
            common::events(out@) == seqs::picked(all.take(i as int), f),
        decreases total - i,
    {
        proof {
            seqs::lemma_take_step(all, i as int);
            assert(rows@[0] == all[i as int]);
        }
        let row = rows.remove(0);
        assert(rows@ =~= all.skip(i + 1));
        match event_from_row(row) {
            Some(e) => {
                out.push(e);
            },
            None => {},
        }
        i = i + 1;
    }
    assert(all.take(total as int) =~= all);
    out
}

} // verus!
