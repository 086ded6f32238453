//! The watchdog: hosts that stopped reporting, and queues that grow.

use vstd::prelude::*;

use crate::common;
use crate::common::{AgentEvent, EventKind, EventView, Severity};
use crate::ids;
use crate::table;
use crate::table::Table;
use crate::text;

verus! {

broadcast use common::lemma_events_push;

/// Watchdog episode state per host: heartbeat-missing emission per episode.
pub struct WatchdogState {
    /// last_seen at which AgentHeartbeatMissing was emitted, per host. A
    /// fresh heartbeat advances last_seen and opens a new episode.
    pub missing_emitted: Table<String, i64>,
}

impl Default for WatchdogState {
    fn default() -> (r: Self)
        ensures
            r.missing_emitted@ == Seq::<(Seq<char>, i64)>::empty(),
    {
        WatchdogState { missing_emitted: Table::new() }
    }
}

/// What the host registry says of a host.
pub struct HostRow {
    pub host_id: String,
    pub last_seen: i64,
    pub queue_len: i64,
}

/// What a `HostRow` says.
#[verifier::ext_equal]
pub struct HostRowView {
    pub host_id: Seq<char>,
    pub last_seen: i64,
    pub queue_len: i64,
}

impl View for HostRow {
    type V = HostRowView;

    open spec fn view(&self) -> HostRowView {
        HostRowView {
            host_id: self.host_id@,
            last_seen: self.last_seen,
            queue_len: self.queue_len,
        }
    }
}

/// What each row of a list says.
pub open spec fn host_rows(v: Seq<HostRow>) -> Seq<HostRowView> {
    v.map_values(|r: HostRow| r@)
}

/// The seconds that a host may stay silent: at least one.
pub open spec fn grace(grace_secs: int) -> int {
    if grace_secs < 1 {
        1
    } else {
        grace_secs
    }
}

/// A host that has been silent for longer than the grace.
pub open spec fn missing(row: HostRowView, grace_secs: int, now: int) -> bool {
    now - row.last_seen > grace(grace_secs) * 1000
}

/// The last_seen at which a host was last reported missing.
pub open spec fn reported(emitted: Seq<(Seq<char>, i64)>, host: Seq<char>) -> i64 {
    match table::lookup(emitted, host) {
        Some(t) => t,
        None => i64::MIN,
    }
}

/// The event of a host that stopped reporting, whatever its id.
pub open spec fn missing_event(row: HostRowView, grace_secs: int, now: i64) -> EventView {
    common::event_of(
        seq![],
        now,
        row.host_id,
        "heartbeat:"@ + row.host_id,
        EventKind::AgentHeartbeatMissing,
        Severity::Critical,
        row.host_id + " stopped reporting (last heartbeat "@ + text::dec_int(
            (now - row.last_seen) / 1000,
        ) + "s ago)"@,
        "watchdog"@,
        "LastSeen="@ + text::dec_int(row.last_seen as int) + " GraceSecs="@ + text::dec_int(
            grace(grace_secs),
        ),
    )
}

/// The event of a queue that grows, whatever its id.
pub open spec fn queue_event(row: HostRowView, queue_threshold: int, now: i64) -> EventView {
    common::event_of(
        seq![],
        now,
        row.host_id,
        "queue:"@ + row.host_id,
        EventKind::AgentQueueGrowing,
        Severity::Warning,
        row.host_id + " telemetry queue is growing ("@ + text::dec_int(row.queue_len as int)
            + " events)"@,
        "watchdog"@,
        "QueueLen="@ + text::dec_int(row.queue_len as int) + " Threshold="@ + text::dec_int(
            queue_threshold,
        ),
    )
}

/// The limits that the watchdog goes by.
pub struct Limits {
    pub heartbeat_grace_secs: i64,
    pub queue_threshold: i64,
}

/// The episode state after a look at a host: a missing host is noted at its
/// last_seen, and the episode of one that reports is over.
pub open spec fn emitted_after(
    emitted: Seq<(Seq<char>, i64)>,
    row: HostRowView,
    limits: Limits,
    now: int,
) -> Seq<(Seq<char>, i64)> {
    if missing(row, limits.heartbeat_grace_secs as int, now) {
        table::put(emitted, row.host_id, row.last_seen)
    } else {
        table::without(emitted, row.host_id)
    }
}

/// The heartbeat event that a look at a host brings: once per episode.
pub open spec fn heartbeat_news(
    emitted: Seq<(Seq<char>, i64)>,
    row: HostRowView,
    limits: Limits,
    now: i64,
) -> Seq<EventView> {
    if missing(row, limits.heartbeat_grace_secs as int, now as int) && reported(
        emitted,
        row.host_id,
    ) != row.last_seen {
        seq![missing_event(row, limits.heartbeat_grace_secs as int, now)]
    } else {
        seq![]
    }
}

/// The queue event that a look at a host brings: on every look while the
/// queue is above the threshold.
pub open spec fn queue_news(row: HostRowView, limits: Limits, now: i64) -> Seq<EventView> {
    if row.queue_len > limits.queue_threshold {
        seq![queue_event(row, limits.queue_threshold as int, now)]
    } else {
        seq![]
    }
}

/// What a scan has noted and what it has to report.
#[verifier::ext_equal]
pub struct WatchView {
    pub emitted: Seq<(Seq<char>, i64)>,
    pub events: Seq<EventView>,
}

/// A scan of the hosts in turn.
pub open spec fn watch(
    emitted: Seq<(Seq<char>, i64)>,
    rows: Seq<HostRowView>,
    limits: Limits,
    now: i64,
) -> WatchView
    decreases rows.len(),
{
    if rows.len() == 0 {
        WatchView { emitted, events: seq![] }
    } else {
        let before = watch(emitted, rows.drop_last(), limits, now);
        let row = rows.last();
        WatchView {
            emitted: emitted_after(before.emitted, row, limits, now as int),
            events: before.events + heartbeat_news(before.emitted, row, limits, now) + queue_news(
                row,
                limits,
                now,
            ),
        }
    }
}

/// A host that stays silent is reported missing once.
pub proof fn law_missing_is_reported_once(
    emitted: Seq<(Seq<char>, i64)>,
    row: HostRowView,
    limits: Limits,
    now: i64,
    later: i64,
)
    requires
        missing(row, limits.heartbeat_grace_secs as int, now as int),
    ensures
        heartbeat_news(emitted_after(emitted, row, limits, now as int), row, limits, later)
            == Seq::<EventView>::empty(),
{
    table::law_put_then_lookup(emitted, row.host_id, row.last_seen, row.host_id);
}

/// A host that was heard of again, and then falls silent, is reported again.
/// A time before all others stands for no report, so a host never seen since
/// then is left out.
pub proof fn law_recovery_opens_a_new_episode(
    emitted: Seq<(Seq<char>, i64)>,
    silent: HostRowView,
    back: HostRowView,
    limits: Limits,
    now: i64,
    later: i64,
)
    requires
        silent.host_id == back.host_id,
        silent.last_seen != back.last_seen,
        back.last_seen != i64::MIN,
        missing(silent, limits.heartbeat_grace_secs as int, now as int),
        missing(back, limits.heartbeat_grace_secs as int, later as int),
    ensures
        heartbeat_news(emitted_after(emitted, silent, limits, now as int), back, limits, later)
            == seq![missing_event(back, limits.heartbeat_grace_secs as int, later)],
{
    table::law_put_then_lookup(emitted, silent.host_id, silent.last_seen, silent.host_id);
}

/// A look at one host changes no other host's episode.
pub proof fn law_hosts_are_independent(
    emitted: Seq<(Seq<char>, i64)>,
    row: HostRowView,
    other: HostRowView,
    limits: Limits,
    now: i64,
    later: i64,
)
    requires
        row.host_id != other.host_id,
    ensures
        heartbeat_news(emitted_after(emitted, row, limits, now as int), other, limits, later)
            == heartbeat_news(emitted, other, limits, later),
{
    table::law_put_then_lookup(emitted, row.host_id, row.last_seen, other.host_id);
    table::law_without_then_lookup(emitted, row.host_id, other.host_id);
}

/// A look at a host, and when it was taken.
#[verifier::ext_equal]
pub struct Look {
    pub row: HostRowView,
    pub now: i64,
}

/// A scan: the rows that it saw, and when.
#[verifier::ext_equal]
pub struct Scan {
    pub rows: Seq<HostRowView>,
    pub now: i64,
}

/// The looks of a scan.
pub open spec fn looks_of(s: Scan) -> Seq<Look> {
    s.rows.map_values(|row: HostRowView| Look { row, now: s.now })
}

/// The looks of scans in order.
pub open spec fn all_looks(scans: Seq<Scan>) -> Seq<Look>
    decreases scans.len(),
{
    if scans.len() == 0 {
        seq![]
    } else {
        all_looks(scans.drop_last()) + looks_of(scans.last())
    }
}

/// What has been noted after looks in order, nothing having been noted before.
pub open spec fn noted(looks: Seq<Look>, limits: Limits) -> Seq<(Seq<char>, i64)>
    decreases looks.len(),
{
    if looks.len() == 0 {
        seq![]
    } else {
        emitted_after(
            noted(looks.drop_last(), limits),
            looks.last().row,
            limits,
            looks.last().now as int,
        )
    }
}

/// The heartbeat event that a look of a history brings.
pub open spec fn told(looks: Seq<Look>, limits: Limits, n: int) -> Seq<EventView> {
    heartbeat_news(noted(looks.take(n), limits), looks[n].row, limits, looks[n].now)
}

/// All that looks in order have to report.
pub open spec fn reports(looks: Seq<Look>, limits: Limits) -> Seq<EventView>
    decreases looks.len(),
{
    if looks.len() == 0 {
        seq![]
    } else {
        reports(looks.drop_last(), limits) + told(looks, limits, looks.len() - 1) + queue_news(
            looks.last().row,
            limits,
            looks.last().now,
        )
    }
}

/// What scans in order have noted and reported, starting from nothing.
pub open spec fn watched(scans: Seq<Scan>, limits: Limits) -> WatchView
    decreases scans.len(),
{
    if scans.len() == 0 {
        WatchView { emitted: seq![], events: seq![] }
    } else {
        let before = watched(scans.drop_last(), limits);
        let s = scans.last();
        let here = watch(before.emitted, s.rows, limits, s.now);
        WatchView { emitted: here.emitted, events: before.events + here.events }
    }
}

/// A history in which the clock does not go back, and neither does the time at
/// which a host was last seen. The time before all others is left out: it
/// stands for no report.
pub open spec fn steady(looks: Seq<Look>) -> bool {
    &&& forall|i: int, j: int|
        0 <= i <= j < looks.len() ==> (#[trigger] looks[i]).now <= (#[trigger] looks[j]).now
    &&& forall|i: int, j: int|
        0 <= i <= j < looks.len() && looks[i].row.host_id == looks[j].row.host_id ==> (
        #[trigger] looks[i]).row.last_seen <= (#[trigger] looks[j]).row.last_seen
    &&& forall|i: int| 0 <= i < looks.len() ==> (#[trigger] looks[i]).row.last_seen != i64::MIN
}

/// Whether an earlier look reported this look's host missing since the same
/// time.
pub open spec fn told_before(looks: Seq<Look>, limits: Limits, n: int) -> bool {
    exists|i: int|
        0 <= i < n && (#[trigger] looks[i]).row.host_id == looks[n].row.host_id
            && looks[i].row.last_seen == looks[n].row.last_seen && told(looks, limits, i).len() > 0
}

/// `j` is the last look at a host before the look `n`.
spec fn last_look(looks: Seq<Look>, host: Seq<char>, n: int, j: int) -> bool {
    &&& 0 <= j < n
    &&& looks[j].row.host_id == host
    &&& forall|i: int| j < i < n ==> (#[trigger] looks[i]).row.host_id != host
}

/// What is noted of a host is what the last look at it showed.
proof fn lemma_noted(looks: Seq<Look>, limits: Limits, host: Seq<char>, n: int) -> (j: int)
    requires
        0 <= n <= looks.len(),
    ensures
        if j < 0 {
            &&& table::lookup(noted(looks.take(n), limits), host) is None
            &&& forall|i: int| 0 <= i < n ==> (#[trigger] looks[i]).row.host_id != host
        } else {
            &&& last_look(looks, host, n, j)
            &&& table::lookup(noted(looks.take(n), limits), host) == (if missing(
                looks[j].row,
                limits.heartbeat_grace_secs as int,
                looks[j].now as int,
            ) {
                Some(looks[j].row.last_seen)
            } else {
                None
            })
        },
    decreases n,
{
    if n == 0 {
        -1
    } else {
        let prev = lemma_noted(looks, limits, host, n - 1);
        let front = looks.take(n - 1);
        assert(looks.take(n).drop_last() =~= front);
        let l = looks[n - 1];
        assert(looks.take(n).last() == l);
        let before = noted(front, limits);
        table::law_put_then_lookup(before, l.row.host_id, l.row.last_seen, host);
        table::law_without_then_lookup(before, l.row.host_id, host);
        if l.row.host_id == host {
            n - 1
        } else {
            prev
        }
    }
}

/// Over a history of looks, a host that is missing is reported exactly when no
/// earlier look reported it missing since the same time; a host that is not
/// missing is not reported.
pub proof fn law_missing_is_reported_once_per_episode(looks: Seq<Look>, limits: Limits, n: int)
    requires
        steady(looks),
        0 <= n < looks.len(),
    ensures
        told(looks, limits, n) == (if missing(
            looks[n].row,
            limits.heartbeat_grace_secs as int,
            looks[n].now as int,
        ) && !told_before(looks, limits, n) {
            seq![
                missing_event(looks[n].row, limits.heartbeat_grace_secs as int, looks[n].now),
            ]
        } else {
            seq![]
        }),
    decreases n,
{
    let g = limits.heartbeat_grace_secs as int;
    let host = looks[n].row.host_id;
    let j = lemma_noted(looks, limits, host, n);
    if told_before(looks, limits, n) {
        let i = choose|i: int|
            0 <= i < n && (#[trigger] looks[i]).row.host_id == looks[n].row.host_id
                && looks[i].row.last_seen == looks[n].row.last_seen && told(
                looks,
                limits,
                i,
            ).len() > 0;
        assert(missing(looks[i].row, g, looks[i].now as int));
        assert(i <= j);
        assert(looks[i].now <= looks[j].now);
        assert(looks[i].row.last_seen <= looks[j].row.last_seen);
        assert(looks[j].row.last_seen <= looks[n].row.last_seen);
    } else if j >= 0 && missing(looks[j].row, g, looks[j].now as int) && looks[j].row.last_seen
        == looks[n].row.last_seen {
        law_missing_is_reported_once_per_episode(looks, limits, j);
        if told_before(looks, limits, j) {
            let i = choose|i: int|
                0 <= i < j && (#[trigger] looks[i]).row.host_id == looks[j].row.host_id
                    && looks[i].row.last_seen == looks[j].row.last_seen && told(
                    looks,
                    limits,
                    i,
                ).len() > 0;
            assert(looks[i].row.host_id == host);
        } else {
            assert(told(looks, limits, j).len() == 1);
            assert(looks[j].row.host_id == host);
        }
        assert(told_before(looks, limits, n));
    }
}

/// A scan after looks notes and reports what its own looks do.
proof fn lemma_scan_is_looks(before: Seq<Look>, s: Scan, limits: Limits)
    ensures
        watch(noted(before, limits), s.rows, limits, s.now).emitted == noted(
            before + looks_of(s),
            limits,
        ),
        reports(before, limits) + watch(noted(before, limits), s.rows, limits, s.now).events
            == reports(before + looks_of(s), limits),
    decreases s.rows.len(),
{
    let e = noted(before, limits);
    if s.rows.len() == 0 {
        assert(before + looks_of(s) =~= before);
        assert(reports(before, limits) + Seq::<EventView>::empty() =~= reports(before, limits));
    } else {
        let t = Scan { rows: s.rows.drop_last(), now: s.now };
        lemma_scan_is_looks(before, t, limits);
        let whole = before + looks_of(s);
        let l = Look { row: s.rows.last(), now: s.now };
        assert(whole.drop_last() =~= before + looks_of(t));
        assert(whole.last() == l);
        assert(whole.take(whole.len() - 1) =~= before + looks_of(t));
        let w = watch(e, t.rows, limits, s.now);
        let h = heartbeat_news(w.emitted, l.row, limits, s.now);
        let q = queue_news(l.row, limits, s.now);
        assert(told(whole, limits, whole.len() - 1) == h);
        assert(reports(before, limits) + (w.events + h + q) =~= reports(before, limits) + w.events
            + h + q);
    }
}

/// A history of scans reports what its looks report, in their order: of each
/// look the heartbeat event that it brings, then the queue event, and nothing
/// else.
pub proof fn law_scans_report_their_looks(scans: Seq<Scan>, limits: Limits)
    ensures
        watched(scans, limits).emitted == noted(all_looks(scans), limits),
        watched(scans, limits).events == reports(all_looks(scans), limits),
    decreases scans.len(),
{
    if scans.len() > 0 {
        law_scans_report_their_looks(scans.drop_last(), limits);
        lemma_scan_is_looks(all_looks(scans.drop_last()), scans.last(), limits);
    }
}

/// The event of a host that stopped reporting.
pub fn make_missing_event(id: String, row: &HostRow, grace_secs: i64, now: i64) -> (e: AgentEvent)
    requires
        missing(row@, grace_secs as int, now as int),
    ensures
        e@ == (EventView { id: id@, ..missing_event(row@, grace_secs as int, now) }),
{
    let silent: i64 = ((now as i128 - row.last_seen as i128) / 1000) as i64;
    assert(silent == (now - row.last_seen) / 1000);
    let grace_secs: i64 = if grace_secs < 1 {
        1
    } else {
        grace_secs
    };
    common::make_event(
        id,
        now,
        row.host_id.as_str(),
        text::owned("heartbeat:").concat(row.host_id.as_str()),
        EventKind::AgentHeartbeatMissing,
        Severity::Critical,
        text::owned(row.host_id.as_str()).concat(" stopped reporting (last heartbeat ").concat(
            text::dec_i64(silent).as_str(),
        ).concat("s ago)"),
        "watchdog",
        text::owned("LastSeen=").concat(text::dec_i64(row.last_seen).as_str()).concat(
            " GraceSecs=",
        ).concat(text::dec_i64(grace_secs).as_str()),
    )
}

/// The event of a queue that grows.
pub fn make_queue_event(id: String, row: &HostRow, queue_threshold: i64, now: i64) -> (e: AgentEvent)
    ensures
        e@ == (EventView { id: id@, ..queue_event(row@, queue_threshold as int, now) }),
{
    let len = text::dec_i64(row.queue_len);
    common::make_event(
        id,
        now,
        row.host_id.as_str(),
        text::owned("queue:").concat(row.host_id.as_str()),
        EventKind::AgentQueueGrowing,
        Severity::Warning,
        text::owned(row.host_id.as_str()).concat(" telemetry queue is growing (").concat(
            len.as_str(),
        ).concat(" events)"),
        "watchdog",
        text::owned("QueueLen=").concat(len.as_str()).concat(" Threshold=").concat(
            text::dec_i64(queue_threshold).as_str(),
        ),
    )
}

proof fn lemma_report(before: Seq<AgentEvent>, e: AgentEvent, v: EventView)
    requires
        common::without_id(e@) == v,
    ensures
        common::without_ids(common::events(before.push(e))) == common::without_ids(
            common::events(before),
        ) + seq![v],
{
    assert(common::without_ids(common::events(before.push(e))) =~= common::without_ids(
        common::events(before),
    ) + seq![v]);
}

impl WatchdogState {
    fn look(&mut self, row: &HostRow, limits: &Limits, now: i64, out: &mut Vec<AgentEvent>)
        requires
            forall|k: int|
                0 <= k < old(out)@.len() ==> ids::is_random_id((#[trigger] old(out)@[k]).id@),
        ensures
            final(self).missing_emitted@ == emitted_after(
                old(self).missing_emitted@,
                row@,
                *limits,
                now as int,
            ),
            common::without_ids(common::events(final(out)@)) == common::without_ids(
                common::events(old(out)@),
            ) + heartbeat_news(old(self).missing_emitted@, row@, *limits, now) + queue_news(
                row@,
                *limits,
                now,
            ),
            forall|k: int|
                0 <= k < final(out)@.len() ==> ids::is_random_id((#[trigger] final(out)@[k]).id@),
    {
        let ghost start = common::without_ids(common::events(out@));
        let grace_secs: i64 = if limits.heartbeat_grace_secs < 1 {
            1
        } else {
            limits.heartbeat_grace_secs
        };
        if now as i128 - row.last_seen as i128 > grace_secs as i128 * 1000 {
            let noted: i64 = match self.missing_emitted.get(&row.host_id) {
                Some(t) => *t,
                None => i64::MIN,
            };
            if noted != row.last_seen {
                let e = make_missing_event(
                    ids::fresh_id(),
                    row,
                    limits.heartbeat_grace_secs,
                    now,
                );
                proof {
                    let v = missing_event(row@, limits.heartbeat_grace_secs as int, now);
                    assert(common::without_id(e@) =~= v);
                    lemma_report(out@, e, v);
                }
                out.push(e);
            } else {
                assert(start + seq![] =~= start);
            }
            self.missing_emitted.set(row.host_id.clone(), row.last_seen);
        } else {
            assert(start + seq![] =~= start);
            self.missing_emitted.remove(&row.host_id);
        }
        let ghost middle = common::without_ids(common::events(out@));
        if row.queue_len > limits.queue_threshold {
            let e = make_queue_event(ids::fresh_id(), row, limits.queue_threshold, now);
            proof {
                let v = queue_event(row@, limits.queue_threshold as int, now);
                assert(common::without_id(e@) =~= v);
                lemma_report(out@, e, v);
            }
            out.push(e);
        } else {
            assert(middle + seq![] =~= middle);
        }
    }
}

/// Scan hosts for liveness + queue growth. Emits server-generated events
/// (they flow into the correlation engine like any other event).
pub fn watchdog_scan(
    state: &mut WatchdogState,
    hosts: &Vec<HostRow>,
    limits: &Limits,
    now: i64,
) -> (r: Vec<AgentEvent>)
    ensures
        final(state).missing_emitted@ == watch(
            old(state).missing_emitted@,
            host_rows(hosts@),
            *limits,
            now,
        ).emitted,
        common::without_ids(common::events(r@)) == watch(
            old(state).missing_emitted@,
            host_rows(hosts@),
            *limits,
            now,
        ).events,
        forall|k: int| 0 <= k < r@.len() ==> ids::is_random_id((#[trigger] r@[k]).id@),
{
    let ghost start = state.missing_emitted@;
    let ghost all = host_rows(hosts@);
    let mut out: Vec<AgentEvent> = Vec::new();
    let mut i: usize = 0;
    assert(common::without_ids(common::events(out@)) =~= seq![]);
    assert(all.take(0) =~= seq![]);
    while i < hosts.len()
        invariant
            i <= hosts@.len(),
            all == host_rows(hosts@),
            state.missing_emitted@ == watch(start, all.take(i as int), *limits, now).emitted,
            common::without_ids(common::events(out@)) == watch(
                start,
                all.take(i as int),
                *limits,
                now,
            ).events,
            forall|k: int| 0 <= k < out@.len() ==> ids::is_random_id((#[trigger] out@[k]).id@),
        decreases hosts@.len() - i,
    {
        proof {
            assert(all.take(i + 1).drop_last() =~= all.take(i as int));
            assert(all.take(i + 1).last() == hosts@[i as int]@);
        }
        state.look(&hosts[i], limits, now, &mut out);
        i = i + 1;
    }
    assert(all.take(hosts@.len() as int) =~= all);
    out
}

/// What one look at a host tells: that it is missing where its last heartbeat
/// is more than the grace away, a second at least, and was not told of yet; and
/// that its queue grows where it is longer than the threshold.
pub proof fn law_a_look_at_a_host(
    emitted: Seq<(Seq<char>, i64)>,
    row: HostRowView,
    limits: Limits,
    now: i64,
)
    requires
        row.last_seen != i64::MIN,
    ensures
        ({
            let silent = now - row.last_seen;
            let gone = silent > 1000 && silent > limits.heartbeat_grace_secs * 1000;
            let told = table::lookup(emitted, row.host_id) == Some(row.last_seen);
            let evs = heartbeat_news(emitted, row, limits, now);
            let after = emitted_after(emitted, row, limits, now as int);
            &&& gone && !told ==> evs.len() == 1 && evs[0].kind is AgentHeartbeatMissing
                && evs[0].severity is Critical && evs[0].key == "heartbeat:"@ + row.host_id
                && evs[0].host_id == row.host_id && evs[0].ts == now
            &&& !gone || told ==> evs.len() == 0
            &&& gone ==> table::lookup(after, row.host_id) == Some(row.last_seen)
            &&& !gone ==> table::lookup(after, row.host_id) is None
        }),
        ({
            let evs = queue_news(row, limits, now);
            &&& row.queue_len > limits.queue_threshold ==> evs.len() == 1
                && evs[0].kind is AgentQueueGrowing && evs[0].severity is Warning && evs[0].key
                == "queue:"@ + row.host_id && evs[0].host_id == row.host_id && evs[0].ts == now
            &&& row.queue_len <= limits.queue_threshold ==> evs.len() == 0
        }),
{
    table::law_put_then_lookup(emitted, row.host_id, row.last_seen, row.host_id);
    table::law_without_then_lookup(emitted, row.host_id, row.host_id);
}

/// A scan looks at every host: what it tells of each is what a look at that
/// host alone would tell.
pub proof fn law_a_scan_looks_at_every_host(
    emitted: Seq<(Seq<char>, i64)>,
    rows: Seq<HostRowView>,
    limits: Limits,
    now: i64,
    i: int,
    e: EventView,
)
    requires
        0 <= i < rows.len(),
        forall|a: int, b: int|
            0 <= a < b < rows.len() ==> (#[trigger] rows[a]).host_id != (#[trigger] rows[b]).host_id,
    ensures
        heartbeat_news(emitted, rows[i], limits, now).contains(e) || queue_news(
            rows[i],
            limits,
            now,
        ).contains(e) ==> watch(emitted, rows, limits, now).events.contains(e),
    decreases rows.len(),
{
    let init = rows.drop_last();
    let before = watch(emitted, init, limits, now);
    let l = rows.last();
    assert(l == rows[rows.len() - 1]);
    let h = heartbeat_news(before.emitted, l, limits, now);
    let q = queue_news(l, limits, now);
    assert forall|a: int, b: int| 0 <= a < b < init.len() implies (#[trigger] init[a]).host_id != (
    #[trigger] init[b]).host_id by {
        assert(init[a] == rows[a] && init[b] == rows[b]);
    }
    if i < init.len() {
        assert(init[i] == rows[i]);
        law_a_scan_looks_at_every_host(emitted, init, limits, now, i, e);
        if before.events.contains(e) {
            let k = choose|k: int| 0 <= k < before.events.len() && before.events[k] == e;
            assert((before.events + h + q)[k] == e);
        }
    } else {
        assert forall|a: int| 0 <= a < init.len() implies (#[trigger] init[a]).host_id != l.host_id by {
            assert(init[a] == rows[a]);
            assert(rows[a].host_id != rows[rows.len() - 1].host_id);
        }
        lemma_other_hosts(emitted, init, limits, now, l);
        if h.contains(e) {
            let k = choose|k: int| 0 <= k < h.len() && h[k] == e;
            assert((before.events + h + q)[before.events.len() + k] == e);
        }
        if q.contains(e) {
            let k = choose|k: int| 0 <= k < q.len() && q[k] == e;
            assert((before.events + h + q)[before.events.len() + h.len() + k] == e);
        }
    }
}

proof fn lemma_other_hosts(
    emitted: Seq<(Seq<char>, i64)>,
    rows: Seq<HostRowView>,
    limits: Limits,
    now: i64,
    other: HostRowView,
)
    requires
        forall|a: int| 0 <= a < rows.len() ==> (#[trigger] rows[a]).host_id != other.host_id,
    ensures
        heartbeat_news(watch(emitted, rows, limits, now).emitted, other, limits, now)
            == heartbeat_news(emitted, other, limits, now),
    decreases rows.len(),
{
    if rows.len() > 0 {
        let init = rows.drop_last();
        assert forall|a: int| 0 <= a < init.len() implies (#[trigger] init[a]).host_id
            != other.host_id by {
            assert(init[a] == rows[a]);
        }
        lemma_other_hosts(emitted, init, limits, now, other);
        assert(rows.last() == rows[rows.len() - 1]);
        law_hosts_are_independent(
            watch(emitted, init, limits, now).emitted,
            rows.last(),
            other,
            limits,
            now,
            now,
        );
    }
}

/// A missing host is told with the seconds since its last heartbeat, and a
/// growing queue with its length.
pub proof fn law_looks_are_told_in_words(row: HostRowView, limits: Limits, now: i64)
    requires
        now >= row.last_seen,
    ensures
        missing_event(row, limits.heartbeat_grace_secs as int, now).summary == row.host_id
            + " stopped reporting (last heartbeat "@ + text::dec(
            ((now - row.last_seen) / 1000) as nat,
        ) + "s ago)"@,
        row.queue_len >= 0 ==> queue_event(row, limits.queue_threshold as int, now).summary
            == row.host_id + " telemetry queue is growing ("@ + text::dec(row.queue_len as nat)
            + " events)"@,
{
}

} // verus!
