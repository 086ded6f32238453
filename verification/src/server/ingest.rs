//! Telemetry: which batches are taken, on behalf of which host, and what is
//! counted.

use vstd::prelude::*;

use crate::common;
use crate::common::{AgentEvent, EventKind, EventView, Severity};
use crate::json;
use crate::json::{Json, JsonView};
use crate::server::api::TelemetryPayload;
use crate::server::reply;
use crate::server::reply::{Reply, ReplyView};
use crate::text;

verus! {

/// Must fit the agent's maximum spool file (10 MB) plus envelope: a smaller
/// cap would make the drain POST 400 and the agent would drop the whole file
/// as "permanent".
pub const MAX_BODY_BYTES: usize = 12582912;

/// What a telemetry request's body turned out to be.
pub enum TelemetryBody {
    TooLarge,
    Invalid,
    Payload(TelemetryPayload),
}

/// What is wrong with a body.
pub open spec fn refusal(body: TelemetryBody) -> Option<Seq<char>> {
    match body {
        TelemetryBody::TooLarge => Some("body too large"@),
        TelemetryBody::Invalid => Some("invalid payload"@),
        TelemetryBody::Payload(p) => if p.batch@.len() == 0 {
            Some("empty batch"@)
        } else {
            None
        },
    }
}

/// An event on behalf of a host, where the presenter is pinned to one.
pub open spec fn attributed(e: EventView, host: Option<Seq<char>>) -> EventView {
    match host {
        Some(h) => EventView { host_id: h, ..e },
        None => e,
    }
}

/// The events to store for a batch.
pub open spec fn attributed_all(evs: Seq<EventView>, host: Option<Seq<char>>) -> Seq<EventView> {
    evs.map_values(|e: EventView| attributed(e, host))
}

/// Whatever a batch claims, what a pinned presenter sends is its host's; what
/// a presenter of the shared token sends is left as it is.
pub proof fn law_pinned_batches_are_the_hosts(evs: Seq<EventView>, host: Option<Seq<char>>, i: int)
    requires
        0 <= i < evs.len(),
    ensures
        host matches Some(h) ==> attributed_all(evs, host)[i].host_id == h,
        host is None ==> attributed_all(evs, host)[i] == evs[i],
        attributed_all(evs, host)[i].id == evs[i].id,
        attributed_all(evs, host).len() == evs.len(),
{
}

/// POST /v1/telemetry: the events to store, on behalf of the host that the
/// presenter is pinned to, or the reply to a body that is refused.
pub fn ingest(host: Option<String>, body: TelemetryBody) -> (r: Result<Vec<AgentEvent>, Reply>)
    ensures
        match r {
            Ok(v) => {
                &&& refusal(body) is None
                &&& body matches TelemetryBody::Payload(p) && common::events(v@) == attributed_all(
                    common::events(p.batch@),
                    text::opt_view(host),
                )
            },
            Err(e) => refusal(body) matches Some(why) && e@ == reply::failure(
                reply::BAD_REQUEST,
                why,
            ),
        },
{
    match body {
        TelemetryBody::TooLarge => Err(reply::fail(reply::BAD_REQUEST, "body too large")),
        TelemetryBody::Invalid => Err(reply::fail(reply::BAD_REQUEST, "invalid payload")),
        TelemetryBody::Payload(p) => {
            if p.batch.len() == 0 {
                return Err(reply::fail(reply::BAD_REQUEST, "empty batch"));
            }
            let ghost h = text::opt_view(host);
            let mut out: Vec<AgentEvent> = Vec::new();
            let mut i: usize = 0;
            while i < p.batch.len()
                invariant
                    i <= p.batch@.len(),
                    h == text::opt_view(host),
                    out@.len() == i,
                    forall|k: int|
                        0 <= k < i ==> (#[trigger] out@[k])@ == attributed(p.batch@[k]@, h),
                decreases p.batch@.len() - i,
            {
                let mut e = p.batch[i].copy();
                match &host {
                    Some(name) => {
                        e.host_id = name.clone();
                    },
                    None => {},
                }
                assert(e@ =~= attributed(p.batch@[i as int]@, h));
                out.push(e);
                i = i + 1;
            }
            assert(common::events(out@) =~= attributed_all(common::events(p.batch@), h));
            Ok(out)
        },
    }
}

/// How many of the inserts added a row.
pub open spec fn added(rows_affected: Seq<u64>) -> nat
    decreases rows_affected.len(),
{
    if rows_affected.len() == 0 {
        0
    } else {
        added(rows_affected.drop_last()) + (if rows_affected.last() > 0 {
            1nat
        } else {
            0nat
        })
    }
}

/// What came of storing a batch: given how many rows each insert added, the
/// events that are new, and those that were there already.
pub fn store_events(rows_affected: &Vec<u64>) -> (r: (u64, u64))
    ensures
        r.0 == added(rows_affected@),
        r.0 + r.1 == rows_affected@.len(),
{
    let mut accepted: u64 = 0;
    let mut i: usize = 0;
    assert(rows_affected@.take(0) =~= seq![]);
    while i < rows_affected.len()
        invariant
            i <= rows_affected@.len(),
            accepted <= i,
            accepted == added(rows_affected@.take(i as int)),
        decreases rows_affected@.len() - i,
    {
        assert(rows_affected@.take(i + 1).drop_last() =~= rows_affected@.take(i as int));
        if rows_affected[i] > 0 {
            accepted = accepted + 1;
        }
        i = i + 1;
    }
    assert(rows_affected@.take(rows_affected@.len() as int) =~= rows_affected@);
    (accepted, rows_affected.len() as u64 - accepted)
}

/// The ids of a store after inserting some in order.
pub open spec fn ids_after(stored: Set<Seq<char>>, ids: Seq<Seq<char>>) -> Set<Seq<char>>
    decreases ids.len(),
{
    if ids.len() == 0 {
        stored
    } else {
        ids_after(stored, ids.drop_last()).insert(ids.last())
    }
}

/// How many rows each insert adds, in a store that keeps the row of an id that
/// it has and adds one for an id that it has not.
pub open spec fn inserts(stored: Set<Seq<char>>, ids: Seq<Seq<char>>) -> Seq<u64>
    decreases ids.len(),
{
    if ids.len() == 0 {
        seq![]
    } else {
        inserts(stored, ids.drop_last()).push(
            if ids_after(stored, ids.drop_last()).contains(ids.last()) {
                0
            } else {
                1
            },
        )
    }
}

/// A list holds what all but its last item hold, and the last.
proof fn lemma_last_id(ids: Seq<Seq<char>>)
    requires
        ids.len() > 0,
    ensures
        forall|x: Seq<char>| #[trigger]
            ids.contains(x) <==> (ids.drop_last().contains(x) || x == ids.last()),
{
    let init = ids.drop_last();
    assert forall|x: Seq<char>| #[trigger] ids.contains(x) <==> (init.contains(x) || x
        == ids.last()) by {
        if ids.contains(x) {
            let i = choose|i: int| 0 <= i < ids.len() && ids[i] == x;
            if i < init.len() {
                assert(init[i] == x);
            }
        }
        if init.contains(x) {
            let i = choose|i: int| 0 <= i < init.len() && init[i] == x;
            assert(ids[i] == x);
        }
        assert(ids[ids.len() - 1] == ids.last());
    }
}

/// A store has the ids that it had and those inserted.
proof fn lemma_ids_after(stored: Set<Seq<char>>, ids: Seq<Seq<char>>)
    ensures
        ids_after(stored, ids) == stored.union(ids.to_set()),
        inserts(stored, ids).len() == ids.len(),
    decreases ids.len(),
{
    if ids.len() == 0 {
        assert(stored.union(ids.to_set()) =~= stored);
    } else {
        let init = ids.drop_last();
        lemma_ids_after(stored, init);
        assert(ids.to_set() =~= init.to_set().insert(ids.last())) by {
            lemma_last_id(ids);
        }
        assert(stored.union(ids.to_set()) =~= stored.union(init.to_set()).insert(ids.last()));
    }
}

/// In such a store, the events of a batch that count as new are the different
/// ids that it had not, and afterwards it has them all.
pub proof fn law_new_ids_are_accepted(stored: Set<Seq<char>>, ids: Seq<Seq<char>>)
    ensures
        ids_after(stored, ids) == stored.union(ids.to_set()),
        inserts(stored, ids).len() == ids.len(),
        ids.to_set().difference(stored).finite(),
        added(inserts(stored, ids)) == ids.to_set().difference(stored).len(),
    decreases ids.len(),
{
    lemma_ids_after(stored, ids);
    if ids.len() == 0 {
        assert(ids.to_set().difference(stored) =~= Set::<Seq<char>>::empty());
    } else {
        let init = ids.drop_last();
        let x = ids.last();
        law_new_ids_are_accepted(stored, init);
        let before = init.to_set().difference(stored);
        let after = ids.to_set().difference(stored);
        let r = inserts(stored, ids);
        assert(r.drop_last() =~= inserts(stored, init));
        lemma_ids_after(stored, init);
        lemma_last_id(ids);
        if ids_after(stored, init).contains(x) {
            assert(after =~= before);
        } else {
            assert(after =~= before.insert(x));
        }
    }
}

/// A batch that is sent again adds nothing: all of it counts as there already,
/// and the store has the ids that it had.
pub proof fn law_a_batch_sent_again_adds_nothing(stored: Set<Seq<char>>, ids: Seq<Seq<char>>)
    ensures
        added(inserts(ids_after(stored, ids), ids)) == 0,
        ids_after(ids_after(stored, ids), ids) == ids_after(stored, ids),
{
    let s = ids_after(stored, ids);
    law_new_ids_are_accepted(stored, ids);
    law_new_ids_are_accepted(s, ids);
    assert(ids.to_set().difference(s) =~= Set::<Seq<char>>::empty());
    assert(s.union(ids.to_set()) =~= s);
}

/// The reply to a batch, given the counts, or that the store failed.
pub open spec fn counts_reply(stored: Option<(u64, u64)>) -> ReplyView {
    match stored {
        Some(c) => ReplyView {
            status: reply::OK,
            body: JsonView::Object(
                seq![
                    ("accepted"@, JsonView::Verbatim(text::dec(c.0 as nat))),
                    ("duplicates"@, JsonView::Verbatim(text::dec(c.1 as nat))),
                ],
            ),
        },
        None => reply::failure(reply::INTERNAL_SERVER_ERROR, "store failed"@),
    }
}

/// The reply to a batch: the counts as numbers, or that the store failed.
pub fn stored_reply(stored: Option<(u64, u64)>) -> (r: Reply)
    ensures
        r@ == counts_reply(stored),
{
    match stored {
        Some(c) => {
            let mut m: Vec<(String, Json)> = Vec::new();
            json::add_member(&mut m, "accepted", Json::Verbatim(text::dec_u64(c.0)));
            json::add_member(&mut m, "duplicates", Json::Verbatim(text::dec_u64(c.1)));
            assert(json::members(m@) =~= counts_reply(stored).body->Object_0);
            Reply { status: reply::OK, body: json::object_of(m) }
        },
        None => reply::fail(reply::INTERNAL_SERVER_ERROR, "store failed"),
    }
}

/// PascalCase wire strings, identical to the JSON representation
/// (server-generated events go through the same store).
pub fn kind_wire(kind: EventKind) -> (r: String)
    ensures
        r@ == common::kind_name(kind),
{
    text::owned(common::kind_text(kind))
}

/// The wire string of a severity.
pub fn severity_wire(sev: Severity) -> (r: String)
    ensures
        r@ == common::severity_name(sev),
{
    text::owned(common::severity_text(sev))
}

/// A token that is bound to a host names the host of every event of a batch,
/// and changes nothing else of them; other batches stay as they are.
pub proof fn law_attribution_changes_the_host_alone(
    evs: Seq<EventView>,
    host: Option<Seq<char>>,
    i: int,
)
    requires
        0 <= i < evs.len(),
    ensures
        host matches Some(h) ==> attributed_all(evs, host)[i] == (EventView {
            host_id: h,
            ..evs[i]
        }),
        host is None ==> attributed_all(evs, host) =~= evs,
{
}

/// A batch is refused exactly when it is too large, cannot be read or is empty.
pub proof fn law_batches_are_refused(body: TelemetryBody)
    ensures
        body is TooLarge ==> refusal(body) == Some("body too large"@),
        body is Invalid ==> refusal(body) == Some("invalid payload"@),
        body matches TelemetryBody::Payload(p) ==> (refusal(body) is Some <==> p.batch@.len() == 0),
        body matches TelemetryBody::Payload(p) ==> (p.batch@.len() == 0 ==> refusal(body) == Some(
            "empty batch"@,
        )),
{
}

/// An event counts as accepted exactly when its row was added.
pub proof fn law_added_rows_are_counted(rows_affected: Seq<u64>)
    ensures
        added(rows_affected) == rows_affected.filter(|n: u64| n != 0).len(),
    decreases rows_affected.len(),
{
    reveal(Seq::filter);
    if rows_affected.len() > 0 {
        law_added_rows_are_counted(rows_affected.drop_last());
    }
}

/// The reply tells how many events were accepted and how many were there
/// already; where they could not be stored it is an error.
pub proof fn law_replies_tell_the_counts(stored: Option<(u64, u64)>)
    ensures
        stored matches Some(c) ==> counts_reply(stored).status == 200 && counts_reply(stored).body
            == JsonView::Object(
            seq![
                ("accepted"@, JsonView::Verbatim(text::digits(c.0 as nat, 10))),
                ("duplicates"@, JsonView::Verbatim(text::digits(c.1 as nat, 10))),
            ],
        ),
        stored is None ==> counts_reply(stored).status == 500,
{
}

} // verus!
