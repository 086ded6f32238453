//! The detection pass: every sensor over one poll, and what is remembered
//! between polls.

use vstd::prelude::*;

use crate::agent::cmd;
use crate::agent::cmd::{CommandRunner, Runners};
use crate::agent::journald;
use crate::agent::journald::JournalLine;
use crate::agent::pattern;
use crate::agent::procfs;
use crate::agent::procfs::ProcFs;
use crate::agent::sensors::certs;
use crate::agent::sensors::disk;
use crate::agent::sensors::disk::MountStat;
use crate::agent::sensors::docker;
use crate::agent::sensors::docker::ContainerTracker;
use crate::agent::sensors::fim_types;
use crate::agent::sensors::fim_types::FimEvent;
use crate::agent::sensors::netflow;
use crate::agent::sensors::netflow::NetState;
use crate::agent::sensors::resource;
use crate::agent::sensors::resource::{CpuSample, GaugeReading, LoadReading};
use crate::agent::sensors::sshauth;
use crate::agent::sensors::sshauth::{AuthEvent, AuthKind, BruteForceTracker, SeenIps};
use crate::agent::sensors::systemd;
use crate::agent::sensors::systemd::{CrashTracker, ServiceState};
use crate::civil;
use crate::common;
use crate::common::{AgentEvent, Config, EventKind, EventView, Severity};
use crate::seqs;
use crate::table;
use crate::table::Table;
use crate::text;

verus! {

// ---------------------------------------------------------------------------
// Deduplication
// ---------------------------------------------------------------------------

/// The times of the last emissions by kind and key.
pub type EmittedView = Seq<((EventKind, Seq<char>), i64)>;

/// The time of the last emission; the earliest time when there was none.
pub open spec fn last_emission(m: EmittedView, kind: EventKind, key: Seq<char>) -> i64 {
    match table::lookup(m, (kind, key)) {
        Some(t) => t,
        None => i64::MIN,
    }
}

/// `n`, or the nearest number that an `i64` can hold.
pub open spec fn clamped(n: int) -> int {
    if n > i64::MAX {
        i64::MAX as int
    } else if n < i64::MIN {
        i64::MIN as int
    } else {
        n
    }
}

/// Whether an event of a kind and key is emitted at `ts`: the window since the
/// last emission is over.
pub open spec fn emits(m: EmittedView, window: int, kind: EventKind, key: Seq<char>, ts: i64) -> bool {
    clamped(ts - last_emission(m, kind, key)) >= window
}

/// The emissions remembered after an event at `ts`.
pub open spec fn emitted_after(
    m: EmittedView,
    window: int,
    kind: EventKind,
    key: Seq<char>,
    ts: i64,
) -> EmittedView {
    table::put(
        m,
        (kind, key),
        if emits(m, window, kind, key, ts) {
            ts
        } else {
            last_emission(m, kind, key)
        },
    )
}

/// Suppress re-emission of the same (kind, key) within `window_secs`.
pub struct Deduper {
    pub window_secs: i64,
    pub last_emitted: Table<(EventKind, String), i64>,
}

impl Deduper {
    /// A deduper that has seen no events.
    pub fn new(window_secs: i64) -> (r: Self)
        ensures
            r.window_secs == window_secs,
            r.last_emitted@ == EmittedView::empty(),
    {
        Deduper { window_secs, last_emitted: Table::new() }
    }

    /// Whether an event at `ts` (unix seconds) is to be emitted; an emission
    /// is remembered.
    pub fn should_emit(&mut self, kind: EventKind, key: &str, ts: i64) -> (r: bool)
        ensures
            r == emits(old(self).last_emitted@, old(self).window_secs as int, kind, key@, ts),
            final(self).last_emitted@ == emitted_after(
                old(self).last_emitted@,
                old(self).window_secs as int,
                kind,
                key@,
                ts,
            ),
            final(self).window_secs == old(self).window_secs,
    {
        let k = (kind, text::owned(key));
        assert(k@ == (kind, key@));
        let last: i64 = match self.last_emitted.get(&k) {
            Some(t) => *t,
            None => i64::MIN,
        };
        let since: i128 = ts as i128 - last as i128;
        let capped: i64 = if since > i64::MAX as i128 {
            i64::MAX
        } else if since < i64::MIN as i128 {
            i64::MIN
        } else {
            since as i64
        };
        let emit = capped >= self.window_secs;
        self.last_emitted.set(
            k,
            if emit {
                ts
            } else {
                last
            },
        );
        emit
    }
}

/// After an emission, the same kind and key is suppressed until the window is
/// over, and emitted again from then on.
pub proof fn law_suppressed_within_window(
    m: EmittedView,
    window: int,
    kind: EventKind,
    key: Seq<char>,
    ts: i64,
    later: i64,
)
    requires
        emits(m, window, kind, key, ts),
        ts <= later,
        later - ts <= i64::MAX,
    ensures
        emits(emitted_after(m, window, kind, key, ts), window, kind, key, later) <==> later - ts
            >= window,
{
    table::law_put_then_lookup(m, (kind, key), ts, (kind, key));
}

/// A suppressed event does not lengthen the window.
pub proof fn law_suppression_leaves_the_window(
    m: EmittedView,
    window: int,
    kind: EventKind,
    key: Seq<char>,
    ts: i64,
)
    requires
        !emits(m, window, kind, key, ts),
    ensures
        last_emission(emitted_after(m, window, kind, key, ts), kind, key) == last_emission(
            m,
            kind,
            key,
        ),
{
    table::law_put_then_lookup(m, (kind, key), last_emission(m, kind, key), (kind, key));
}

/// Kinds and keys do not suppress each other.
pub proof fn law_keys_are_independent(
    m: EmittedView,
    window: int,
    kind: EventKind,
    key: Seq<char>,
    ts: i64,
    other_kind: EventKind,
    other_key: Seq<char>,
    other_ts: i64,
)
    requires
        kind != other_kind || key != other_key,
    ensures
        emits(emitted_after(m, window, kind, key, ts), window, other_kind, other_key, other_ts)
            == emits(m, window, other_kind, other_key, other_ts),
{
    let v = if emits(m, window, kind, key, ts) {
        ts
    } else {
        last_emission(m, kind, key)
    };
    table::law_put_then_lookup(m, (kind, key), v, (other_kind, other_key));
}

/// What was never emitted is emitted, at any time from 1970 on.
pub proof fn law_first_events_are_emitted(
    m: EmittedView,
    window: int,
    kind: EventKind,
    key: Seq<char>,
    ts: i64,
)
    requires
        table::lookup(m, (kind, key)) is None,
        ts >= 0,
        window <= i64::MAX,
    ensures
        emits(m, window, kind, key, ts),
        table::lookup(emitted_after(m, window, kind, key, ts), (kind, key)) == Some(ts),
{
    table::law_put_then_lookup(m, (kind, key), ts, (kind, key));
}

/// What was emitted last at some time is emitted again exactly when the window
/// has passed since, and only then is the time moved.
pub proof fn law_the_window_counts_from_the_last_emission(
    m: EmittedView,
    window: int,
    kind: EventKind,
    key: Seq<char>,
    last: i64,
    ts: i64,
)
    requires
        table::lookup(m, (kind, key)) == Some(last),
        i64::MIN <= ts - last <= i64::MAX,
    ensures
        emits(m, window, kind, key, ts) <==> ts >= last + window,
        table::lookup(emitted_after(m, window, kind, key, ts), (kind, key)) == (if ts >= last
            + window {
            Some(ts)
        } else {
            Some(last)
        }),
{
    table::law_put_then_lookup(m, (kind, key), ts, (kind, key));
    table::law_put_then_lookup(m, (kind, key), last, (kind, key));
}

/// The events of a list that are emitted, each at its time in seconds, and the
/// emissions remembered after them.
pub open spec fn dedup_pass(m: EmittedView, window: int, evs: Seq<EventView>) -> (
    EmittedView,
    Seq<EventView>,
)
    decreases evs.len(),
{
    if evs.len() == 0 {
        (m, seq![])
    } else {
        let (n, out) = dedup_pass(m, window, evs.drop_last());
        let e = evs.last();
        let secs = civil::quot(e.ts as int, 1000) as i64;
        (
            emitted_after(n, window, e.kind, e.key, secs),
            if emits(n, window, e.kind, e.key, secs) {
                out.push(e)
            } else {
                out
            },
        )
    }
}

/// Of the events of one poll, all at one time, each kind and key comes out
/// once, as the first of them, unless the window since its last emission is
/// not over: then none does. Nothing else comes out.
pub proof fn law_a_poll_emits_each_key_once(
    m: EmittedView,
    window: int,
    evs: Seq<EventView>,
    ts: i64,
    kind: EventKind,
    key: Seq<char>,
)
    requires
        forall|i: int| 0 <= i < evs.len() ==> (#[trigger] evs[i]).ts == ts,
        ts >= 0,
        0 < window <= i64::MAX,
        table::lookup(m, (kind, key)) matches Some(t) ==> t >= 0,
    ensures
        ({
            let mine = |e: EventView| e.kind == kind && e.key == key;
            let own = evs.filter(mine);
            let over = table::lookup(m, (kind, key)) matches Some(t) ==> ts as int / 1000 - t
                >= window;
            let (n, out) = dedup_pass(m, window, evs);
            &&& out.filter(mine) == (if own.len() > 0 && over {
                seq![own[0]]
            } else {
                seq![]
            })
            &&& table::lookup(n, (kind, key)) == (if own.len() > 0 && over {
                Some((ts as int / 1000) as i64)
            } else {
                table::lookup(m, (kind, key))
            })
        }),
    decreases evs.len(),
{
    reveal(Seq::filter);
    let mine = |e: EventView| e.kind == kind && e.key == key;
    let secs = (ts as int / 1000) as i64;
    let k = (kind, key);
    if evs.len() > 0 {
        let init = evs.drop_last();
        let e = evs.last();
        assert(e == evs[evs.len() - 1]);
        assert forall|i: int| 0 <= i < init.len() implies (#[trigger] init[i]).ts == ts by {
            assert(init[i] == evs[i]);
        }
        law_a_poll_emits_each_key_once(m, window, init, ts, kind, key);
        let (n, out) = dedup_pass(m, window, init);
        assert(civil::quot(e.ts as int, 1000) as i64 == secs);
        let stamp = if emits(n, window, e.kind, e.key, secs) {
            secs
        } else {
            last_emission(n, e.kind, e.key)
        };
        table::law_put_then_lookup(n, (e.kind, e.key), stamp, k);
        assert(out.push(e).drop_last() =~= out);
        let own = init.filter(mine);
        assert(own.push(e).drop_last() =~= own);
        assert(seq![e] =~= Seq::<EventView>::empty().push(e));
    } else {
        assert(dedup_pass(m, window, evs).1.filter(mine) =~= seq![]);
    }
}

/// Drop the events that are suppressed.
pub fn dedup(deduper: &mut Deduper, evs: Vec<AgentEvent>) -> (out: Vec<AgentEvent>)
    ensures
        common::events(out@) == dedup_pass(
            old(deduper).last_emitted@,
            old(deduper).window_secs as int,
            common::events(evs@),
        ).1,
        final(deduper).last_emitted@ == dedup_pass(
            old(deduper).last_emitted@,
            old(deduper).window_secs as int,
            common::events(evs@),
        ).0,
        final(deduper).window_secs == old(deduper).window_secs,
{
    broadcast use common::lemma_events_push;

    let ghost m = deduper.last_emitted@;
    let ghost w = deduper.window_secs as int;
    let ghost all = common::events(evs@);
    let mut out: Vec<AgentEvent> = Vec::new();
    let mut i: usize = 0;
    assert(common::events(out@) =~= seq![]);
    assert(all.take(0) =~= seq![]);
    while i < evs.len()
        invariant
            i <= evs@.len(),
            all == common::events(evs@),
            deduper.window_secs == w,
            deduper.last_emitted@ == dedup_pass(m, w, all.take(i as int)).0,
            common::events(out@) == dedup_pass(m, w, all.take(i as int)).1,
        decreases evs@.len() - i,
    {
        proof {
            seqs::lemma_take_step(all, i as int);
            assert(all[i as int] == evs@[i as int]@);
        }
        let e = &evs[i];
        if deduper.should_emit(e.kind, e.key.as_str(), e.ts / 1000) {
            let c = e.copy();
            out.push(c);
        }
        i = i + 1;
    }
    assert(all.take(evs@.len() as int) =~= all);
    out
}

// ---------------------------------------------------------------------------
// Reboots
// ---------------------------------------------------------------------------

/// Whether the boot epoch moved by more than a minute.
pub open spec fn epoch_jumped(prev: Option<i64>, boot: i64) -> bool {
    match prev {
        Some(p) => boot - p > 60_000 || p - boot > 60_000,
        None => false,
    }
}

/// Whether the boot id allows for a reboot: both ids are known and differ, or
/// one is unknown.
pub open spec fn id_changed(prev: Option<Seq<char>>, id: Option<Seq<char>>) -> bool {
    match (prev, id) {
        (Some(p), Some(c)) => p != c,
        _ => true,
    }
}

/// Detects boot-epoch changes (uptime resets) between polls. A reboot fires
/// only when BOTH the boot epoch jumped (>60s) AND the kernel boot id
/// changed (clock steps and VM suspension move the epoch alone; a real
/// reboot changes both). When the boot id is unreadable, the epoch
/// heuristic alone decides.
pub struct RebootDetector {
    pub boot_epoch: Option<i64>,
    pub boot_id: Option<String>,
}

impl Default for RebootDetector {
    fn default() -> (r: Self)
        ensures
            r.boot_epoch is None,
            r.boot_id is None,
    {
        RebootDetector { boot_epoch: None, boot_id: None }
    }
}

impl RebootDetector {
    /// See a boot epoch and id; whether a reboot happened, and the epoch. An
    /// unreadable id leaves the known one.
    pub fn observe(&mut self, boot: i64, id: Option<String>, _ts_ms: i64) -> (r: (bool, i64))
        ensures
            r.0 == (epoch_jumped(old(self).boot_epoch, boot) && id_changed(
                text::opt_view(old(self).boot_id),
                text::opt_view(id),
            )),
            r.1 == boot,
            final(self).boot_epoch == Some(boot),
            text::opt_view(final(self).boot_id) == (if id is Some {
                text::opt_view(id)
            } else {
                text::opt_view(old(self).boot_id)
            }),
    {
        let jumped = match self.boot_epoch {
            Some(prev) => {
                let d: i128 = boot as i128 - prev as i128;
                d > 60_000 || d < -60_000
            },
            None => false,
        };
        let changed = match (&self.boot_id, &id) {
            (Some(prev), Some(cur)) => !text::same(prev.as_str(), cur.as_str()),
            _ => true,
        };
        self.boot_epoch = Some(boot);
        if id.is_some() {
            self.boot_id = id;
        }
        (jumped && changed, boot)
    }
}

/// A reboot needs both signals: with both ids known, an epoch that stays or an
/// id that stays fires nothing.
pub proof fn law_reboot_needs_both_signals(
    prev_epoch: Option<i64>,
    boot: i64,
    prev_id: Option<Seq<char>>,
    id: Option<Seq<char>>,
)
    ensures
        prev_epoch == Some(boot) ==> !epoch_jumped(prev_epoch, boot),
        prev_epoch is None ==> !epoch_jumped(prev_epoch, boot),
        prev_id is Some && prev_id == id ==> !id_changed(prev_id, id),
        prev_id is None || id is None ==> id_changed(prev_id, id),
{
}

/// Boot epoch (unix millis) from a now and an uptime, both in milliseconds;
/// none when an `i64` cannot hold it.
pub fn boot_epoch(now_ms: i64, uptime_ms: i64) -> (r: Option<i64>)
    ensures
        r == (if i64::MIN <= now_ms - uptime_ms <= i64::MAX {
            Some((now_ms - uptime_ms) as i64)
        } else {
            None::<i64>
        }),
{
    let d: i128 = now_ms as i128 - uptime_ms as i128;
    if d < i64::MIN as i128 || d > i64::MAX as i128 {
        None
    } else {
        Some(d as i64)
    }
}

// ---------------------------------------------------------------------------
// The state across polls
// ---------------------------------------------------------------------------

/// Times of matching lines by (ident, pattern).
pub type CountsView = Seq<((Seq<char>, Seq<char>), Seq<i64>)>;

/// What the sensors remember between polls.
#[verifier::ext_equal]
pub struct AgentView {
    pub cpu_total: u64,
    pub cpu_busy: u64,
    pub crash: systemd::CrashView,
    pub crash_window: u64,
    pub seen: Seq<Seq<char>>,
    pub failures: sshauth::FailureView,
    pub brute_threshold: u32,
    pub brute_window: u64,
    pub net: netflow::NetView,
    pub docker: docker::TrackerView,
    pub boot_epoch: Option<i64>,
    pub boot_id: Option<Seq<char>>,
    pub cursor: i64,
    pub patterns: Seq<Seq<char>>,
    pub counts: CountsView,
    pub cert_paths: Seq<Seq<char>>,
    pub last_cert_scan: i64,
    pub read_only: Seq<(Seq<char>, bool)>,
}

/// Mutable state shared by the sensors across polls.
pub struct AgentState {
    /// Cpu counters of the last sample.
    pub cpu_total: u64,
    pub cpu_busy: u64,
    pub crash: CrashTracker,
    pub ssh_seen: SeenIps,
    pub ssh_brute: BruteForceTracker,
    pub net: NetState,
    pub docker: ContainerTracker,
    pub reboot: RebootDetector,
    /// Journal read cursor in unix MILLIS: the max line ts_ms seen. The
    /// journalctl @since arg (seconds) is derived as journal_since_ms / 1000.
    /// Lines with ts_ms <= cursor are skipped, so a line is never processed
    /// twice, even when the newest line is re-read on every poll.
    pub journal_since_ms: i64,
    /// The error patterns that compile; empty when none are configured.
    pub error_patterns: Vec<String>,
    /// Per (ident, pattern) line timestamps (ms) for sliding-window counting.
    pub error_counts: Table<(String, String), Vec<i64>>,
    /// Concrete cert paths to scan (glob-expanded at startup).
    pub cert_paths: Vec<String>,
    /// Last TLS cert scan time (ms); gates the openssl spawn.
    pub last_cert_scan: i64,
    /// Whether each mount was read-only when last seen.
    pub ro_baseline: Table<String, bool>,
}

impl View for AgentState {
    type V = AgentView;

    open spec fn view(&self) -> AgentView {
        AgentView {
            cpu_total: self.cpu_total,
            cpu_busy: self.cpu_busy,
            crash: self.crash@,
            crash_window: self.crash.window_secs,
            seen: self.ssh_seen@,
            failures: self.ssh_brute.failures@,
            brute_threshold: self.ssh_brute.threshold,
            brute_window: self.ssh_brute.window_secs,
            net: self.net@,
            docker: self.docker@,
            boot_epoch: self.reboot.boot_epoch,
            boot_id: text::opt_view(self.reboot.boot_id),
            cursor: self.journal_since_ms,
            patterns: text::views(self.error_patterns@),
            counts: self.error_counts@,
            cert_paths: text::views(self.cert_paths@),
            last_cert_scan: self.last_cert_scan,
            read_only: self.ro_baseline@,
        }
    }
}

/// What each pattern finds in a text.
pub open spec fn outcomes_on(ps: Seq<Seq<char>>, text: Seq<char>) -> Seq<Option<bool>> {
    ps.map_values(|p: Seq<char>| pattern::pattern_outcome(p, text))
}

/// The patterns of a list that have an outcome.
pub open spec fn usable(ps: Seq<Seq<char>>, outcomes: Seq<Option<bool>>) -> Seq<Seq<char>>
    decreases ps.len(),
{
    if ps.len() == 0 {
        seq![]
    } else if outcomes.last() is Some {
        usable(ps.drop_last(), outcomes.drop_last()).push(ps.last())
    } else {
        usable(ps.drop_last(), outcomes.drop_last())
    }
}

/// The patterns of a list that compile: those with an outcome on some text,
/// such as the empty one.
pub open spec fn compiling(ps: Seq<Seq<char>>) -> Seq<Seq<char>> {
    usable(ps, outcomes_on(ps, ""@))
}

fn find_outcomes(ps: &Vec<String>, text: &str) -> (r: Vec<Option<bool>>)
    ensures
        r@ == outcomes_on(text::views(ps@), text@),
{
    let mut r: Vec<Option<bool>> = Vec::new();
    let mut i: usize = 0;
    while i < ps.len()
        invariant
            i <= ps@.len(),
            r@ =~= outcomes_on(text::views(ps@), text@).take(i as int),
        decreases ps@.len() - i,
    {
        r.push(pattern::try_match(ps[i].as_str(), text));
        i = i + 1;
    }
    r
}

/// Keep the patterns of a list that have an outcome.
pub fn keep_usable(ps: &Vec<String>, outcomes: &Vec<Option<bool>>) -> (r: Vec<String>)
    requires
        outcomes@.len() == ps@.len(),
    ensures
        text::views(r@) == usable(text::views(ps@), outcomes@),
{
    let ghost all = text::views(ps@);
    let mut r: Vec<String> = Vec::new();
    let mut i: usize = 0;
    assert(text::views(r@) =~= usable(all.take(0), outcomes@.take(0)));
    while i < ps.len()
        invariant
            i <= ps@.len(),
            outcomes@.len() == ps@.len(),
            all == text::views(ps@),
            text::views(r@) == usable(all.take(i as int), outcomes@.take(i as int)),
        decreases ps@.len() - i,
    {
        proof {
            assert(all.take(i + 1).drop_last() =~= all.take(i as int));
            assert(outcomes@.take(i + 1).drop_last() =~= outcomes@.take(i as int));
        }
        if outcomes[i].is_some() {
            let ghost before = r@;
            r.push(ps[i].clone());
            assert(text::views(r@) =~= text::views(before).push(ps@[i as int]@));
        }
        i = i + 1;
    }
    assert(all.take(ps@.len() as int) =~= all);
    assert(outcomes@.take(ps@.len() as int) =~= outcomes@);
    r
}

/// Append the events of one list to another.
fn add_all(evs: &mut Vec<AgentEvent>, more: Vec<AgentEvent>)
    ensures
        common::events(final(evs)@) == common::events(old(evs)@) + common::events(more@),
{
    let ghost before = evs@;
    let ghost added = more@;
    let mut rest = more;
    evs.append(&mut rest);
    assert(common::events(evs@) =~= common::events(before) + common::events(added));
}

// ---------------------------------------------------------------------------
// One journal line
// ---------------------------------------------------------------------------

/// The event of a brute-force episode.
pub open spec fn brute_event(
    a: sshauth::AuthView,
    count: nat,
    window_secs: u64,
    ts: i64,
    host: Seq<char>,
) -> EventView {
    common::event_of(
        "brute-"@ + host + "-"@ + a.user + "-"@ + a.ip + "-"@ + text::dec_int(ts as int),
        ts,
        host,
        "ssh:brute:"@ + a.user + ":"@ + a.ip,
        EventKind::SshBruteForce,
        Severity::Warning,
        text::dec(count) + " failed SSH logins for "@ + a.user + " from "@ + a.ip + " in "@
            + text::dec(window_secs as nat) + "s"@,
        "journald"@,
        a.detail,
    )
}

/// The event of a failed login.
pub open spec fn failed_event(
    a: sshauth::AuthView,
    count: nat,
    ts: i64,
    host: Seq<char>,
) -> EventView {
    common::event_of(
        "sshf-"@ + text::dec_int(ts as int) + "-"@ + text::dec(count),
        ts,
        host,
        "ssh:failed:"@ + a.user + ":"@ + a.ip,
        EventKind::SshFailed,
        Severity::Warning,
        "failed SSH login for "@ + a.user + " from "@ + a.ip,
        "journald"@,
        a.detail,
    )
}

/// The severity of a login from a known address.
pub open spec fn base_severity(kind: AuthKind) -> Severity {
    if kind is RootLogin {
        Severity::Warning
    } else {
        Severity::Info
    }
}

/// The event of a login or of the use of sudo.
pub open spec fn access_event(
    a: sshauth::AuthView,
    severity: Severity,
    ts: i64,
    host: Seq<char>,
) -> EventView {
    common::event_of(
        "ssh-"@ + text::dec_int(ts as int) + "-"@ + a.user,
        ts,
        host,
        if a.kind is SudoUsed {
            "sudo:"@ + a.user
        } else {
            "ssh:login:"@ + a.user
        },
        match a.kind {
            AuthKind::SshLogin => EventKind::SshLogin,
            AuthKind::RootLogin => EventKind::RootLogin,
            AuthKind::SudoUsed => EventKind::SudoUsed,
            AuthKind::SshFailed => EventKind::SshFailed,
        },
        severity,
        match a.kind {
            AuthKind::SshLogin => "SSH login by "@ + a.user + " from "@ + a.ip,
            AuthKind::RootLogin => "root login from "@ + a.ip,
            AuthKind::SudoUsed => a.user + " ran sudo"@,
            AuthKind::SshFailed => seq![],
        },
        "journald"@,
        a.detail,
    )
}

/// The event of a started service.
pub open spec fn start_event(
    unit: Seq<char>,
    message: Seq<char>,
    ts: i64,
    host: Seq<char>,
) -> EventView {
    common::event_of(
        "svcstart-"@ + text::dec_int(ts as int) + "-"@ + unit,
        ts,
        host,
        "svc:"@ + unit,
        EventKind::ServiceRestarted,
        Severity::Info,
        unit + " restarted"@,
        "journald"@,
        message,
    )
}

/// What is remembered, and the event, of an authentication line. Local events
/// have no source address, and are never first-seen.
pub open spec fn auth_step(
    v: AgentView,
    a: sshauth::AuthView,
    shown_window: u64,
    ts: i64,
    host: Seq<char>,
) -> (AgentView, EventView) {
    if a.kind is SshFailed {
        let list = sshauth::counted_failures(
            v.failures,
            a.user,
            a.ip,
            ts,
            v.brute_window as int,
        );
        let after = AgentView {
            failures: sshauth::failures_after(
                v.failures,
                a.user,
                a.ip,
                ts,
                v.brute_window as int,
                v.brute_threshold as int,
            ),
            ..v
        };
        (
            after,
            if list.len() >= v.brute_threshold {
                brute_event(a, list.len(), shown_window, ts, host)
            } else {
                failed_event(a, list.len(), ts, host)
            },
        )
    } else {
        let is_new = a.ip.len() > 0 && !v.seen.contains(a.ip);
        let after = AgentView {
            seen: if a.ip.len() > 0 {
                table::with_item(v.seen, a.ip)
            } else {
                v.seen
            },
            ..v
        };
        let base = base_severity(a.kind);
        (
            after,
            access_event(
                a,
                if is_new {
                    sshauth::escalated(base)
                } else {
                    base
                },
                ts,
                host,
            ),
        )
    }
}

/// The counts after a line, given what each pattern finds in it: one more
/// time for each pattern that matches.
pub open spec fn counted(
    counts: CountsView,
    patterns: Seq<Seq<char>>,
    outcomes: Seq<Option<bool>>,
    ident: Seq<char>,
    ts_ms: i64,
) -> CountsView
    decreases patterns.len(),
{
    if patterns.len() == 0 {
        counts
    } else {
        let c = counted(counts, patterns.drop_last(), outcomes.drop_last(), ident, ts_ms);
        if outcomes.last() == Some(true) {
            let k = (ident, patterns.last());
            let before = match table::lookup(c, k) {
                Some(list) => list,
                None => seq![],
            };
            table::put(c, k, before.push(ts_ms))
        } else {
            c
        }
    }
}

/// The counts after a line.
pub open spec fn counts_after(
    counts: CountsView,
    patterns: Seq<Seq<char>>,
    l: journald::LineView,
) -> CountsView {
    counted(counts, patterns, outcomes_on(patterns, l.message), l.ident, l.ts_ms)
}

/// What is remembered, and the events, of a journal line. A line at or before
/// the cursor was processed already.
pub open spec fn line_step(
    v: AgentView,
    l: journald::LineView,
    shown_window: u64,
    host: Seq<char>,
) -> (AgentView, Seq<EventView>) {
    if l.ts_ms <= v.cursor {
        (v, seq![])
    } else {
        let v1 = AgentView { cursor: l.ts_ms, ..v };
        let (v2, logins) = match sshauth::auth_of(l) {
            Some(a) => {
                let (w, e) = auth_step(v1, a, shown_window, l.ts_ms, host);
                (w, seq![e])
            },
            None => (v1, seq![]),
        };
        let starts = match journald::started_unit(l) {
            Some(u) => seq![start_event(u, l.message, l.ts_ms, host)],
            None => seq![],
        };
        (
            AgentView { counts: counts_after(v2.counts, v2.patterns, l), ..v2 },
            logins + starts,
        )
    }
}

/// What is remembered, and the events, after journal lines in order.
pub open spec fn journal_pass(
    v: AgentView,
    ls: Seq<journald::LineView>,
    shown_window: u64,
    host: Seq<char>,
) -> (AgentView, Seq<EventView>)
    decreases ls.len(),
{
    if ls.len() == 0 {
        (v, seq![])
    } else {
        let (w, evs) = journal_pass(v, ls.drop_last(), shown_window, host);
        let (x, more) = line_step(w, ls.last(), shown_window, host);
        (x, evs + more)
    }
}

/// A login, and the use of sudo, is graded by who logged in and by whether the
/// address was seen before: a login is Info from a known address and Warning
/// from a new one, a root login is Warning and Critical, and what has no
/// address is never new. The address is known from then on.
pub proof fn law_new_addresses_raise_the_severity(
    v: AgentView,
    l: journald::LineView,
    shown_window: u64,
    host: Seq<char>,
    a: sshauth::AuthView,
)
    requires
        l.ts_ms > v.cursor,
        sshauth::auth_of(l) == Some(a),
        !(a.kind is SshFailed),
    ensures
        ({
            let (w, evs) = line_step(v, l, shown_window, host);
            let known = v.seen.contains(a.ip) || a.ip.len() == 0;
            &&& evs.len() >= 1
            &&& evs[0].ts == l.ts_ms
            &&& evs[0].host_id == host
            &&& a.kind is SshLogin ==> evs[0].summary == "SSH login by "@ + a.user + " from "@ + a.ip
            &&& a.kind is RootLogin ==> evs[0].summary == "root login from "@ + a.ip
            &&& a.kind is SudoUsed ==> evs[0].summary == a.user + " ran sudo"@
            &&& evs[0].evidence.len() == 1 && evs[0].evidence[0].detail == a.detail
            &&& a.kind is SshLogin ==> evs[0].kind is SshLogin && evs[0].key == "ssh:login:"@
                + a.user && (if known {
                evs[0].severity is Info
            } else {
                evs[0].severity is Warning
            })
            &&& a.kind is RootLogin ==> evs[0].kind is RootLogin && evs[0].key == "ssh:login:"@
                + a.user && (if known {
                evs[0].severity is Warning
            } else {
                evs[0].severity is Critical
            })
            &&& a.kind is SudoUsed ==> evs[0].kind is SudoUsed && evs[0].key == "sudo:"@ + a.user
                && (if known {
                evs[0].severity is Info
            } else {
                evs[0].severity is Warning
            })
            &&& forall|ip: Seq<char>| #[trigger]
                w.seen.contains(ip) <==> (v.seen.contains(ip) || (ip == a.ip && ip.len() > 0))
            &&& w.failures == v.failures
        }),
{
    table::law_with_item(v.seen, a.ip);
}

/// The same line from an address that was not seen is one step more severe
/// than from one that was, Critical at most.
pub proof fn law_new_addresses_are_one_step_more_severe(
    v: AgentView,
    w: AgentView,
    l: journald::LineView,
    shown_window: u64,
    host: Seq<char>,
    a: sshauth::AuthView,
)
    requires
        l.ts_ms > v.cursor,
        l.ts_ms > w.cursor,
        sshauth::auth_of(l) == Some(a),
        !(a.kind is SshFailed),
        a.ip.len() > 0,
        v.seen.contains(a.ip),
        !w.seen.contains(a.ip),
    ensures
        ({
            let old_one = line_step(v, l, shown_window, host).1[0];
            let new_one = line_step(w, l, shown_window, host).1[0];
            &&& common::rank(new_one.severity) == (if common::rank(old_one.severity) + 1 <= 2 {
                common::rank(old_one.severity) + 1
            } else {
                2
            })
            &&& new_one == (EventView { severity: new_one.severity, ..old_one })
        }),
{
}

/// A second login with an address is never first-seen: after a line from an
/// address, a later one from it is graded as known.
pub proof fn law_an_address_is_new_once(
    v: AgentView,
    l: journald::LineView,
    later: journald::LineView,
    shown_window: u64,
    host: Seq<char>,
    a: sshauth::AuthView,
    b: sshauth::AuthView,
)
    requires
        l.ts_ms > v.cursor,
        later.ts_ms > l.ts_ms,
        sshauth::auth_of(l) == Some(a),
        sshauth::auth_of(later) == Some(b),
        !(a.kind is SshFailed),
        b.kind is SshLogin || b.kind is RootLogin,
        a.ip == b.ip,
    ensures
        ({
            let evs = line_step(line_step(v, l, shown_window, host).0, later, shown_window, host).1;
            evs[0].severity == (if b.kind is RootLogin {
                Severity::Warning
            } else {
                Severity::Info
            })
        }),
{
    law_new_addresses_raise_the_severity(v, l, shown_window, host, a);
    let w = line_step(v, l, shown_window, host).0;
    assert(w.seen.contains(a.ip) || a.ip.len() == 0);
    law_new_addresses_raise_the_severity(w, later, shown_window, host, b);
}

/// A failed login is a brute-force episode exactly when, with it, the failures
/// remembered of its user and address that lie within the window reach the
/// threshold. The episode is then forgotten; otherwise the failure is
/// remembered. Other users and addresses are not touched.
pub proof fn law_failures_become_episodes(
    v: AgentView,
    l: journald::LineView,
    shown_window: u64,
    host: Seq<char>,
    a: sshauth::AuthView,
    times: Seq<i64>,
)
    requires
        l.ts_ms > v.cursor,
        sshauth::auth_of(l) == Some(a),
        a.kind is SshFailed,
        table::lookup(v.failures, (a.user, a.ip)) == Some(times) || (table::lookup(
            v.failures,
            (a.user, a.ip),
        ) is None && times.len() == 0),
    ensures
        ({
            let (w, evs) = line_step(v, l, shown_window, host);
            let near = times.filter(|t: i64| l.ts_ms - t <= v.brute_window * 1000);
            let fires = near.len() + 1 >= v.brute_threshold;
            &&& evs.len() >= 1
            &&& evs[0].ts == l.ts_ms
            &&& evs[0].host_id == host
            &&& evs[0].severity is Warning
            &&& fires ==> evs[0].kind is SshBruteForce && evs[0].key == "ssh:brute:"@ + a.user
                + ":"@ + a.ip && table::lookup(w.failures, (a.user, a.ip)) is None
                && evs[0].summary == text::dec(near.len() + 1) + " failed SSH logins for "@ + a.user
                + " from "@ + a.ip + " in "@ + text::dec(shown_window as nat) + "s"@
            &&& !fires ==> evs[0].kind is SshFailed && evs[0].key == "ssh:failed:"@ + a.user
                + ":"@ + a.ip && table::lookup(w.failures, (a.user, a.ip)) == Some(
                near.push(l.ts_ms),
            )
            &&& forall|o: (Seq<char>, Seq<char>)|
                o != (a.user, a.ip) ==> #[trigger] table::lookup(w.failures, o) == table::lookup(
                    v.failures,
                    o,
                )
            &&& w.seen == v.seen
        }),
{
    let window = v.brute_window * 1000;
    let now = l.ts_ms as int;
    let p = |t: i64| t + window >= now;
    let f = |t: i64| l.ts_ms - t <= v.brute_window * 1000;
    let k = (a.user, a.ip);
    let list = sshauth::counted_failures(v.failures, a.user, a.ip, l.ts_ms, v.brute_window as int);
    seqs::lemma_kept_is_filter(times, p, f);
    assert(times =~= seq![] || table::lookup(v.failures, k) is Some);
    assert(times.push(l.ts_ms).drop_last() =~= times);
    assert(v.brute_window as int * 1000 == window);
    assert(list == seqs::recent(times.push(l.ts_ms), now, window));
    assert(list == times.filter(f).push(l.ts_ms));
    let w = line_step(v, l, shown_window, host).0;
    assert forall|o: (Seq<char>, Seq<char>)| o != k implies #[trigger] table::lookup(w.failures, o)
        == table::lookup(v.failures, o) by {
        table::law_put_then_lookup(v.failures, k, list, o);
        table::law_without_then_lookup(v.failures, k, o);
    }
    table::law_put_then_lookup(v.failures, k, list, k);
    table::law_without_then_lookup(v.failures, k, k);
}

/// The cursor never goes back.
pub proof fn law_cursor_never_goes_back(
    v: AgentView,
    ls: Seq<journald::LineView>,
    shown_window: u64,
    host: Seq<char>,
)
    ensures
        v.cursor <= journal_pass(v, ls, shown_window, host).0.cursor,
        forall|i: int|
            0 <= i < ls.len() ==> (#[trigger] ls[i]).ts_ms <= journal_pass(
                v,
                ls,
                shown_window,
                host,
            ).0.cursor,
    decreases ls.len(),
{
    if ls.len() > 0 {
        let init = ls.drop_last();
        law_cursor_never_goes_back(v, init, shown_window, host);
        assert forall|i: int| 0 <= i < ls.len() implies (#[trigger] ls[i]).ts_ms <= journal_pass(
            v,
            ls,
            shown_window,
            host,
        ).0.cursor by {
            if i < init.len() {
                assert(init[i] == ls[i]);
            }
        }
    }
}

/// No line is processed twice: reading the same lines again, or any lines that
/// are no newer, gives no events and changes nothing.
pub proof fn law_lines_are_processed_once(
    v: AgentView,
    ls: Seq<journald::LineView>,
    again: Seq<journald::LineView>,
    shown_window: u64,
    host: Seq<char>,
)
    requires
        forall|i: int|
            0 <= i < again.len() ==> exists|j: int|
                0 <= j < ls.len() && (#[trigger] again[i]).ts_ms <= (#[trigger] ls[j]).ts_ms,
    ensures
        journal_pass(journal_pass(v, ls, shown_window, host).0, again, shown_window, host).1.len()
            == 0,
        journal_pass(journal_pass(v, ls, shown_window, host).0, again, shown_window, host).0
            == journal_pass(v, ls, shown_window, host).0,
    decreases again.len(),
{
    law_cursor_never_goes_back(v, ls, shown_window, host);
    if again.len() > 0 {
        let init = again.drop_last();
        assert forall|i: int| 0 <= i < init.len() implies exists|j: int|
            0 <= j < ls.len() && (#[trigger] init[i]).ts_ms <= (#[trigger] ls[j]).ts_ms by {
            assert(init[i] == again[i]);
        }
        law_lines_are_processed_once(v, ls, init, shown_window, host);
        let last = again.len() - 1;
        let j = choose|j: int| 0 <= j < ls.len() && again[last].ts_ms <= (#[trigger] ls[j]).ts_ms;
        assert(ls[j].ts_ms <= journal_pass(v, ls, shown_window, host).0.cursor);
    }
}

impl AgentState {
    /// The invariant of the trackers.
    pub open spec fn wf(&self) -> bool {
        self.docker.wf()
    }

    /// The state before the first poll, with the certificate paths expanded.
    /// Patterns that do not compile are left out.
    pub fn new(cfg: &Config, cert_paths: Vec<String>) -> (r: Self)
        ensures
            r.wf(),
            r@ == (AgentView {
                cpu_total: 0,
                cpu_busy: 0,
                crash: systemd::CrashView { restarts: seq![], last_state: seq![] },
                crash_window: 120,
                seen: seq![],
                failures: seq![],
                brute_threshold: cfg.ssh_brute_threshold,
                brute_window: cfg.ssh_brute_window_secs,
                net: netflow::NetView {
                    listen: seq![],
                    udp: seq![],
                    remote: seq![],
                    pairs: seq![],
                    recent: seq![],
                    count: 0,
                    samples: seq![],
                },
                docker: docker::TrackerView { prev: seq![], restarting_count: seq![] },
                boot_epoch: None,
                boot_id: None,
                cursor: 0,
                patterns: compiling(text::views(cfg.error_patterns@)),
                counts: seq![],
                cert_paths: text::views(cert_paths@),
                last_cert_scan: 0,
                read_only: seq![],
            }),
    {
        let r = AgentState {
            cpu_total: 0,
            cpu_busy: 0,
            crash: CrashTracker::new(120),
            ssh_seen: SeenIps::default(),
            ssh_brute: BruteForceTracker::new(cfg.ssh_brute_threshold, cfg.ssh_brute_window_secs),
            net: NetState::default(),
            docker: ContainerTracker::default(),
            reboot: RebootDetector::default(),
            journal_since_ms: 0,
            error_patterns: keep_usable(
                &cfg.error_patterns,
                &find_outcomes(&cfg.error_patterns, ""),
            ),
            error_counts: Table::new(),
            cert_paths,
            last_cert_scan: 0,
            ro_baseline: Table::new(),
        };
        assert(r@.seen =~= seq![] && r@.failures =~= seq![] && r@.counts =~= seq![] && r@.read_only
            =~= seq![]);
        r
    }

    /// Sample the cpu counters; what was added since the last sample.
    pub fn sample_cpu(&mut self, p: &ProcFs) -> (r: CpuSample)
        ensures
            r == (match p.file("stat"@) {
                Ok(t) => match procfs::cpu_line(t) {
                    Ok(v) => resource::sample_of(
                        v.0 as u64,
                        v.1 as u64,
                        old(self).cpu_total,
                        old(self).cpu_busy,
                    ),
                    Err(_) => resource::sample_of(
                        old(self).cpu_total,
                        resource::minus(old(self).cpu_total, old(self).cpu_busy),
                        old(self).cpu_total,
                        old(self).cpu_busy,
                    ),
                },
                Err(_) => resource::sample_of(
                    old(self).cpu_total,
                    resource::minus(old(self).cpu_total, old(self).cpu_busy),
                    old(self).cpu_total,
                    old(self).cpu_busy,
                ),
            }),
            final(self)@ == (AgentView { cpu_total: r.total, cpu_busy: r.busy, ..old(self)@ }),
            final(self).wf() == old(self).wf(),
    {
        let r = resource::cpu_usage_now(p, self.cpu_total, self.cpu_busy);
        self.cpu_total = r.total;
        self.cpu_busy = r.busy;
        r
    }

    /// Process an authentication line.
    fn auth_stage(
        &mut self,
        a: &AuthEvent,
        shown_window: u64,
        ts: i64,
        host_id: &str,
        evs: &mut Vec<AgentEvent>,
    )
        ensures
            final(self).wf() == old(self).wf(),
            final(self)@ == auth_step(old(self)@, a@, shown_window, ts, host_id@).0,
            common::events(final(evs)@) == common::events(old(evs)@).push(
                auth_step(old(self)@, a@, shown_window, ts, host_id@).1,
            ),
    {
        broadcast use common::lemma_events_push;

        let user = a.user.as_str();
        let ip = a.ip.as_str();
        match a.kind {
            AuthKind::SshFailed => {
                let (episode, count) = self.ssh_brute.observe_failure(user, ip, ts);
                let ev = if episode {
                    common::make_event(
                        text::owned("brute-").concat(host_id).concat("-").concat(user).concat(
                            "-",
                        ).concat(ip).concat("-").concat(text::dec_i64(ts).as_str()),
                        ts,
                        host_id,
                        text::owned("ssh:brute:").concat(user).concat(":").concat(ip),
                        EventKind::SshBruteForce,
                        Severity::Warning,
                        text::dec_u64(count as u64).concat(" failed SSH logins for ").concat(
                            user,
                        ).concat(" from ").concat(ip).concat(" in ").concat(
                            text::dec_u64(shown_window).as_str(),
                        ).concat("s"),
                        "journald",
                        a.detail.clone(),
                    )
                } else {
                    common::make_event(
                        text::owned("sshf-").concat(text::dec_i64(ts).as_str()).concat("-").concat(
                            text::dec_u64(count as u64).as_str(),
                        ),
                        ts,
                        host_id,
                        text::owned("ssh:failed:").concat(user).concat(":").concat(ip),
                        EventKind::SshFailed,
                        Severity::Warning,
                        text::owned("failed SSH login for ").concat(user).concat(" from ").concat(
                            ip,
                        ),
                        "journald",
                        a.detail.clone(),
                    )
                };
                evs.push(ev);
            },
            _ => {
                let base = match a.kind {
                    AuthKind::RootLogin => Severity::Warning,
                    _ => Severity::Info,
                };
                let builder = sshauth::base_ssh_event(user, ip, base);
                let ip_is_new = !ip.is_empty() && self.ssh_seen.is_first(ip);
                let sev = builder.suggest_severity(ip_is_new);
                let (kind, key, summary) = match a.kind {
                    AuthKind::SudoUsed => (
                        EventKind::SudoUsed,
                        text::owned("sudo:").concat(user),
                        text::owned(user).concat(" ran sudo"),
                    ),
                    AuthKind::RootLogin => (
                        EventKind::RootLogin,
                        text::owned("ssh:login:").concat(user),
                        text::owned("root login from ").concat(ip),
                    ),
                    _ => (
                        EventKind::SshLogin,
                        text::owned("ssh:login:").concat(user),
                        text::owned("SSH login by ").concat(user).concat(" from ").concat(ip),
                    ),
                };
                let ev = common::make_event(
                    text::owned("ssh-").concat(text::dec_i64(ts).as_str()).concat("-").concat(
                        user,
                    ),
                    ts,
                    host_id,
                    key,
                    kind,
                    sev,
                    summary,
                    "journald",
                    a.detail.clone(),
                );
                evs.push(ev);
            },
        }
    }

    /// Count a line for the patterns that match it, given what each pattern
    /// finds in it.
    pub fn count_line(&mut self, line: &JournalLine, outcomes: &Vec<Option<bool>>)
        requires
            outcomes@.len() == old(self).error_patterns@.len(),
        ensures
            final(self).wf() == old(self).wf(),
            final(self)@ == (AgentView {
                counts: counted(
                    old(self)@.counts,
                    old(self)@.patterns,
                    outcomes@,
                    line.ident@,
                    line.ts_ms,
                ),
                ..old(self)@
            }),
    {
        let ghost v = self@;
        let mut i: usize = 0;
        assert(v.patterns.take(0) =~= seq![]);
        while i < self.error_patterns.len()
            invariant
                i <= self.error_patterns@.len(),
                outcomes@.len() == self.error_patterns@.len(),
                v.patterns == text::views(self.error_patterns@),
                self.wf() == old(self).wf(),
                self@ == (AgentView {
                    counts: counted(
                        v.counts,
                        v.patterns.take(i as int),
                        outcomes@.take(i as int),
                        line.ident@,
                        line.ts_ms,
                    ),
                    ..v
                }),
            decreases self.error_patterns@.len() - i,
        {
            proof {
                assert(v.patterns.take(i + 1).drop_last() =~= v.patterns.take(i as int));
                assert(outcomes@.take(i + 1).drop_last() =~= outcomes@.take(i as int));
            }
            let hit = match outcomes[i] {
                Some(b) => b,
                None => false,
            };
            if hit {
                let k = (line.ident.clone(), self.error_patterns[i].clone());
                let mut list: Vec<i64> = match self.error_counts.get(&k) {
                    Some(l) => seqs::copy_times(l),
                    None => Vec::new(),
                };
                list.push(line.ts_ms);
                self.error_counts.set(k, list);
            }
            i = i + 1;
        }
        assert(v.patterns.take(self.error_patterns@.len() as int) =~= v.patterns);
        assert(outcomes@.take(self.error_patterns@.len() as int) =~= outcomes@);
    }

    /// Count a line for the patterns that match it.
    fn count_stage(&mut self, line: &JournalLine)
        ensures
            final(self).wf() == old(self).wf(),
            final(self)@ == (AgentView {
                counts: counts_after(old(self)@.counts, old(self)@.patterns, line@),
                ..old(self)@
            }),
    {
        let outcomes = find_outcomes(&self.error_patterns, line.message.as_str());
        self.count_line(line, &outcomes);
    }

    /// Process one journal line.
    fn line_stage(
        &mut self,
        line: &JournalLine,
        shown_window: u64,
        host_id: &str,
        evs: &mut Vec<AgentEvent>,
    )
        ensures
            final(self).wf() == old(self).wf(),
            final(self)@ == line_step(old(self)@, line@, shown_window, host_id@).0,
            common::events(final(evs)@) == common::events(old(evs)@) + line_step(
                old(self)@,
                line@,
                shown_window,
                host_id@,
            ).1,
    {
        broadcast use common::lemma_events_push;

        let ghost e0 = common::events(evs@);
        if line.ts_ms <= self.journal_since_ms {
            assert(e0 + Seq::<EventView>::empty() =~= e0);
            return;
        }
        self.journal_since_ms = line.ts_ms;
        let auth = sshauth::classify(line);
        match &auth {
            Some(a) => {
                self.auth_stage(a, shown_window, line.ts_ms, host_id, evs);
            },
            None => {},
        }
        let unit = journald::service_start(line);
        match &unit {
            Some(u) => {
                let u = u.as_str();
                let ev = common::make_event(
                    text::owned("svcstart-").concat(text::dec_i64(line.ts_ms).as_str()).concat(
                        "-",
                    ).concat(u),
                    line.ts_ms,
                    host_id,
                    text::owned("svc:").concat(u),
                    EventKind::ServiceRestarted,
                    Severity::Info,
                    text::owned(u).concat(" restarted"),
                    "journald",
                    line.message.clone(),
                );
                evs.push(ev);
            },
            None => {},
        }
        self.count_stage(line);
        assert(common::events(evs@) =~= e0 + line_step(
            old(self)@,
            line@,
            shown_window,
            host_id@,
        ).1);
    }

    /// Process journal lines in order.
    pub fn journal_stage(
        &mut self,
        lines: &Vec<JournalLine>,
        shown_window: u64,
        host_id: &str,
        evs: &mut Vec<AgentEvent>,
    )
        ensures
            final(self).wf() == old(self).wf(),
            final(self)@ == journal_pass(
                old(self)@,
                journald::line_views(lines@),
                shown_window,
                host_id@,
            ).0,
            common::events(final(evs)@) == common::events(old(evs)@) + journal_pass(
                old(self)@,
                journald::line_views(lines@),
                shown_window,
                host_id@,
            ).1,
    {
        let ghost v = self@;
        let ghost e0 = common::events(evs@);
        let ghost all = journald::line_views(lines@);
        let mut i: usize = 0;
        assert(all.take(0) =~= seq![]);
        assert(e0 + Seq::<EventView>::empty() =~= e0);
        while i < lines.len()
            invariant
                i <= lines@.len(),
                all == journald::line_views(lines@),
                self.wf() == old(self).wf(),
                self@ == journal_pass(v, all.take(i as int), shown_window, host_id@).0,
                common::events(evs@) == e0 + journal_pass(
                    v,
                    all.take(i as int),
                    shown_window,
                    host_id@,
                ).1,
            decreases lines@.len() - i,
        {
            proof {
                seqs::lemma_take_step(all, i as int);
                assert(all[i as int] == lines@[i as int]@);
            }
            let ghost before = journal_pass(v, all.take(i as int), shown_window, host_id@);
            self.line_stage(&lines[i], shown_window, host_id, evs);
            proof {
                let more = line_step(before.0, all[i as int], shown_window, host_id@).1;
                assert(e0 + before.1 + more =~= e0 + (before.1 + more));
            }
            i = i + 1;
        }
        assert(all.take(lines@.len() as int) =~= all);
    }
}

// ---------------------------------------------------------------------------
// The other sensors
// ---------------------------------------------------------------------------

/// What the program reads for a poll where it takes fractions: gauges of
/// memory, swap, load and cpu, the uptime in milliseconds, and the mounts.
pub struct Readings {
    pub mem: Option<GaugeReading>,
    pub swap: Option<GaugeReading>,
    pub load: Option<LoadReading>,
    pub cpu: GaugeReading,
    pub uptime_ms: Option<i64>,
    pub mounts: Vec<MountStat>,
}

/// The events of a cpu reading: one when it is a spike.
pub open spec fn cpu_event(c: GaugeReading, host: Seq<char>, ts: i64) -> Seq<EventView> {
    if c.over {
        seq![
            common::event_of(
                host + "-cpu-"@ + text::dec_int(ts as int),
                ts,
                host,
                "cpu:usage"@,
                EventKind::CpuSpike,
                Severity::Warning,
                "CPU usage spiked to "@ + c.whole@ + "%"@,
                "engine"@,
                "CpuUsagePct="@ + c.tenth@,
            ),
        ]
    } else {
        seq![]
    }
}

/// A cpu reading that is a spike is a Warning. The poll `ts` is the single
/// time source for the batch: all events in a batch share it.
pub fn cpu_events(c: &GaugeReading, host: &str, ts: i64) -> (r: Vec<AgentEvent>)
    ensures
        common::events(r@) == cpu_event(*c, host@, ts),
{
    let mut r: Vec<AgentEvent> = Vec::new();
    if c.over {
        let ev = common::make_event(
            text::owned(host).concat("-cpu-").concat(text::dec_i64(ts).as_str()),
            ts,
            host,
            text::owned("cpu:usage"),
            EventKind::CpuSpike,
            Severity::Warning,
            text::owned("CPU usage spiked to ").concat(c.whole.as_str()).concat("%"),
            "engine",
            text::owned("CpuUsagePct=").concat(c.tenth.as_str()),
        );
        r.push(ev);
    }
    assert(common::events(r@) =~= cpu_event(*c, host@, ts));
    r
}

/// The events of the readings of /proc, in order: memory, swap, load,
/// interfaces, cpu.
pub open spec fn reading_events(p: ProcFs, r: Readings, host: Seq<char>, ts: i64) -> Seq<
    EventView,
> {
    let mem = match r.mem {
        Some(m) => resource::mem_event(m, host, ts),
        None => seq![],
    };
    let swap = match r.swap {
        Some(m) => resource::swap_event(m, host, ts),
        None => seq![],
    };
    let load = match r.load {
        Some(l) => resource::load_event(l, host, ts),
        None => seq![],
    };
    let netdev = match p.file("net/dev"@) {
        Ok(t) => resource::netdev_pass(
            procfs::netdev_table(procfs::lines_after(t, 2)),
            host,
            ts,
        ),
        Err(_) => seq![],
    };
    mem + swap + load + netdev + cpu_event(r.cpu, host, ts)
}

fn reading_stage(p: &ProcFs, r: &Readings, host_id: &str, ts: i64) -> (evs: Vec<AgentEvent>)
    ensures
        common::events(evs@) == reading_events(*p, *r, host_id@, ts),
{
    let mut evs: Vec<AgentEvent> = Vec::new();
    match &r.mem {
        Some(m) => {
            add_all(&mut evs, resource::mem_events(m, host_id, ts));
        },
        None => {},
    }
    match &r.swap {
        Some(m) => {
            add_all(&mut evs, resource::swap_events(m, host_id, ts));
        },
        None => {},
    }
    match &r.load {
        Some(l) => {
            add_all(&mut evs, resource::load_events(l, host_id, ts));
        },
        None => {},
    }
    match p.netdev_errors() {
        Ok(errs) => {
            add_all(&mut evs, resource::netdev_events(&errs, host_id, ts));
        },
        Err(_) => {},
    }
    add_all(&mut evs, cpu_events(&r.cpu, host_id, ts));
    assert(common::events(evs@) =~= reading_events(*p, *r, host_id@, ts));
    evs
}

/// The boot id that /proc shows.
pub open spec fn shown_boot_id(p: ProcFs) -> Option<Seq<char>> {
    match p.file("sys/kernel/random/boot_id"@) {
        Ok(t) => Some(text::trim(t)),
        Err(_) => None,
    }
}

/// The event of a reboot.
pub open spec fn reboot_event(boot: i64, ts: i64, host: Seq<char>) -> EventView {
    common::event_of(
        "reboot-"@ + text::dec_int(ts as int),
        ts,
        host,
        "system:reboot"@,
        EventKind::Reboot,
        Severity::Warning,
        "system rebooted (uptime and boot id reset)"@,
        "procfs"@,
        "BootEpoch="@ + text::dec_int(boot as int),
    )
}

/// What is remembered, and the events, of the uptime.
pub open spec fn reboot_step(
    v: AgentView,
    p: ProcFs,
    uptime_ms: Option<i64>,
    ts: i64,
    host: Seq<char>,
) -> (AgentView, Seq<EventView>) {
    match uptime_ms {
        Some(up) => if i64::MIN <= ts - up <= i64::MAX {
            let boot = (ts - up) as i64;
            let id = shown_boot_id(p);
            (
                AgentView {
                    boot_epoch: Some(boot),
                    boot_id: if id is Some {
                        id
                    } else {
                        v.boot_id
                    },
                    ..v
                },
                if epoch_jumped(v.boot_epoch, boot) && id_changed(v.boot_id, id) {
                    seq![reboot_event(boot, ts, host)]
                } else {
                    seq![]
                },
            )
        } else {
            (v, seq![])
        },
        None => (v, seq![]),
    }
}

/// What is remembered, and the events, of services in order.
pub open spec fn service_pass(
    v: AgentView,
    units: Seq<(Seq<char>, ServiceState)>,
    ts: i64,
    host: Seq<char>,
) -> (AgentView, Seq<EventView>)
    decreases units.len(),
{
    if units.len() == 0 {
        (v, seq![])
    } else {
        let (w, evs) = service_pass(v, units.drop_last(), ts, host);
        let (unit, state) = units.last();
        let secs = systemd::unsigned_secs(civil::quot(ts as int, 1000));
        (
            AgentView {
                crash: systemd::crash_after(w.crash, w.crash_window as int, unit, state, secs),
                ..w
            },
            evs + systemd::crash_events(
                w.crash,
                w.crash_window as int,
                unit,
                state,
                secs,
                host,
            ),
        )
    }
}

/// Whether the certificates are due for a scan.
pub open spec fn certs_due(v: AgentView, cfg: Config, ts: i64) -> bool {
    ts - v.last_cert_scan >= certs::larger(cfg.cert_scan_interval_secs as int, 60) * 1000
}

/// The times that count for an error rate: those within the window.
pub open spec fn windowed(counts: CountsView, ts: i64, window_secs: int) -> CountsView {
    counts.map_values(
        |e: ((Seq<char>, Seq<char>), Seq<i64>)|
            (e.0, seqs::recent(e.1, ts as int, certs::larger(window_secs, 1) * 1000)),
    )
}

/// The entries that reach the threshold.
pub open spec fn over_threshold(counts: CountsView, threshold: int) -> CountsView {
    seqs::kept(
        counts,
        |e: ((Seq<char>, Seq<char>), Seq<i64>)| e.1.len() >= threshold,
    )
}

/// The counts without those of some entries.
pub open spec fn without_all(counts: CountsView, fired: CountsView) -> CountsView
    decreases fired.len(),
{
    if fired.len() == 0 {
        counts
    } else {
        table::without(without_all(counts, fired.drop_last()), fired.last().0)
    }
}

/// The event of an error rate over its threshold.
pub open spec fn error_event(
    e: ((Seq<char>, Seq<char>), Seq<i64>),
    window_secs: int,
    ts: i64,
    host: Seq<char>,
) -> EventView {
    let ident = e.0.0;
    let pat = e.0.1;
    let count = text::dec(e.1.len());
    common::event_of(
        "err-"@ + text::dec_int(ts as int) + "-"@ + ident + "-"@ + pat,
        ts,
        host,
        "errrate:"@ + ident + ":"@ + pat,
        EventKind::ErrorRateSpike,
        Severity::Warning,
        ident + " error pattern \""@ + pat + "\" hit "@ + count + " times in "@ + text::dec_int(
            window_secs,
        ) + "s"@,
        "journald"@,
        "Ident="@ + ident + " Pattern="@ + pat + " Count="@ + count + " WindowSecs="@
            + text::dec_int(window_secs),
    )
}

/// What is remembered, and the events, of the error rates: old times are
/// dropped, and counting starts anew where the threshold is reached.
pub open spec fn error_step(v: AgentView, cfg: Config, ts: i64, host: Seq<char>) -> (
    AgentView,
    Seq<EventView>,
) {
    if v.patterns.len() == 0 {
        (v, seq![])
    } else {
        let counts = windowed(v.counts, ts, cfg.error_window_secs as int);
        let fired = over_threshold(counts, cfg.error_threshold as int);
        (
            AgentView { counts: without_all(counts, fired), ..v },
            fired.map_values(
                |e: ((Seq<char>, Seq<char>), Seq<i64>)|
                    error_event(e, cfg.error_window_secs as int, ts, host),
            ),
        )
    }
}

/// What each change of a list says.
pub open spec fn fim_views(v: Seq<FimEvent>) -> Seq<fim_types::FimView> {
    v.map_values(|e: FimEvent| e@)
}

/// The events of file changes.
pub open spec fn fim_events(changes: Seq<fim_types::FimView>, ts: i64, host: Seq<char>) -> Seq<
    EventView,
> {
    changes.map_values(|c: fim_types::FimView| fim_types::change_of(c.path, c.action, ts, host))
}

fn fim_stage(changes: &Vec<FimEvent>, ts: i64, host_id: &str) -> (evs: Vec<AgentEvent>)
    ensures
        common::events(evs@) == fim_events(fim_views(changes@), ts, host_id@),
{
    let mut evs: Vec<AgentEvent> = Vec::new();
    let mut i: usize = 0;
    while i < changes.len()
        invariant
            i <= changes@.len(),
            evs@.len() == i,
            forall|j: int|
                0 <= j < i ==> (#[trigger] evs@[j])@ == fim_types::change_of(
                    changes@[j]@.path,
                    changes@[j]@.action,
                    ts,
                    host_id@,
                ),
        decreases changes@.len() - i,
    {
        evs.push(
            fim_types::change_event(
                changes[i].path.as_str(),
                changes[i].action.as_str(),
                ts,
                host_id,
            ),
        );
        i = i + 1;
    }
    assert(common::events(evs@) =~= fim_events(fim_views(changes@), ts, host_id@));
    evs
}

impl AgentState {
    fn reboot_stage(
        &mut self,
        p: &ProcFs,
        uptime_ms: Option<i64>,
        ts: i64,
        host_id: &str,
        evs: &mut Vec<AgentEvent>,
    )
        ensures
            final(self).wf() == old(self).wf(),
            final(self)@ == reboot_step(old(self)@, *p, uptime_ms, ts, host_id@).0,
            common::events(final(evs)@) == common::events(old(evs)@) + reboot_step(
                old(self)@,
                *p,
                uptime_ms,
                ts,
                host_id@,
            ).1,
    {
        broadcast use common::lemma_events_push;

        let ghost e0 = common::events(evs@);
        assert(e0 + Seq::<EventView>::empty() =~= e0);
        let up: i64 = match uptime_ms {
            Some(u) => u,
            None => {
                return;
            },
        };
        let boot: i64 = match boot_epoch(ts, up) {
            Some(b) => b,
            None => {
                return;
            },
        };
        let id: Option<String> = match p.boot_id() {
            Ok(s) => Some(s),
            Err(_) => None,
        };
        assert(text::opt_view(id) == shown_boot_id(*p));
        let (fired, shown) = self.reboot.observe(boot, id, ts);
        if fired {
            let ev = common::make_event(
                text::owned("reboot-").concat(text::dec_i64(ts).as_str()),
                ts,
                host_id,
                text::owned("system:reboot"),
                EventKind::Reboot,
                Severity::Warning,
                text::owned("system rebooted (uptime and boot id reset)"),
                "procfs",
                text::owned("BootEpoch=").concat(text::dec_i64(shown).as_str()),
            );
            evs.push(ev);
            assert(e0.push(ev@) =~= e0 + seq![ev@]);
        }
    }

    fn service_stage(
        &mut self,
        units: &Table<String, ServiceState>,
        ts: i64,
        host_id: &str,
        evs: &mut Vec<AgentEvent>,
    )
        ensures
            final(self).wf() == old(self).wf(),
            final(self)@ == service_pass(old(self)@, units@, ts, host_id@).0,
            common::events(final(evs)@) == common::events(old(evs)@) + service_pass(
                old(self)@,
                units@,
                ts,
                host_id@,
            ).1,
    {
        let ghost v = self@;
        let ghost e0 = common::events(evs@);
        let ghost all = units@;
        let secs: u64 = systemd::to_unsigned(ts / 1000);
        let mut i: usize = 0;
        assert(all.take(0) =~= seq![]);
        assert(e0 + Seq::<EventView>::empty() =~= e0);
        while i < units.entries.len()
            invariant
                secs == systemd::unsigned_secs(civil::quot(ts as int, 1000)),
                i64::MIN <= systemd::signed_secs(secs) * 1000 <= i64::MAX,
                i <= units.entries@.len(),
                units@.len() == units.entries@.len(),
                all == units@,
                self.wf() == old(self).wf(),
                self@ == service_pass(v, all.take(i as int), ts, host_id@).0,
                common::events(evs@) == e0 + service_pass(
                    v,
                    all.take(i as int),
                    ts,
                    host_id@,
                ).1,
            decreases units.entries@.len() - i,
        {
            proof {
                seqs::lemma_take_step(all, i as int);
            }
            let ghost before = service_pass(v, all.take(i as int), ts, host_id@);
            let unit = units.entries[i].0.as_str();
            let state = units.entries[i].1;
            assert(all[i as int] == (unit@, state));
            self.crash.observe(unit, state, secs, host_id, evs);
            proof {
                let more = systemd::crash_events(
                    before.0.crash,
                    before.0.crash_window as int,
                    unit@,
                    state,
                    secs,
                    host_id@,
                );
                assert(e0 + before.1 + more =~= e0 + (before.1 + more));
            }
            i = i + 1;
        }
        assert(all.take(units.entries@.len() as int) =~= all);
    }

    /// Drop old times and find the entries that reach the threshold.
    fn error_stage(
        &mut self,
        cfg: &Config,
        ts: i64,
        host_id: &str,
        evs: &mut Vec<AgentEvent>,
    )
        ensures
            final(self).wf() == old(self).wf(),
            final(self)@ == error_step(old(self)@, *cfg, ts, host_id@).0,
            common::events(final(evs)@) == common::events(old(evs)@) + error_step(
                old(self)@,
                *cfg,
                ts,
                host_id@,
            ).1,
    {
        broadcast use common::lemma_events_push;

        let ghost v = self@;
        let ghost e0 = common::events(evs@);
        assert(e0 + Seq::<EventView>::empty() =~= e0);
        if self.error_patterns.len() == 0 {
            return;
        }
        let secs: i64 = if cfg.error_window_secs >= 1 {
            cfg.error_window_secs
        } else {
            1
        };
        let window_ms: i128 = (secs as i128) * 1000;
        let ghost counts = windowed(v.counts, ts, cfg.error_window_secs as int);
        let mut fresh: Table<(String, String), Vec<i64>> = Table::new();
        let mut i: usize = 0;
        assert(fresh@ =~= counts.take(0));
        while i < self.error_counts.entries.len()
            invariant
                i <= self.error_counts.entries@.len(),
                self@ == v,
                self.wf() == old(self).wf(),
                v.counts == self.error_counts@,
                v.counts.len() == self.error_counts.entries@.len(),
                window_ms == certs::larger(cfg.error_window_secs as int, 1) * 1000,
                1000 <= window_ms <= 0x1_0000_0000_0000_0000_0000,
                counts == windowed(v.counts, ts, cfg.error_window_secs as int),
                fresh@ == counts.take(i as int),
            decreases self.error_counts.entries@.len() - i,
        {
            let ghost before = fresh@;
            let e = &self.error_counts.entries[i];
            let list = seqs::keep_recent(&e.1, ts, window_ms);
            assert(v.counts[i as int] == ((e.0.0@, e.0.1@), e.1@));
            assert(counts[i as int] == ((e.0.0@, e.0.1@), list@));
            fresh.entries.push(((e.0.0.clone(), e.0.1.clone()), list));
            assert(fresh@ =~= before.push(counts[i as int]));
            assert(counts.take(i + 1) =~= counts.take(i as int).push(counts[i as int]));
            i = i + 1;
        }
        assert(counts.take(counts.len() as int) =~= counts);
        assert(fresh@ == counts);
        self.error_counts = fresh;
        let ghost f = |e: ((Seq<char>, Seq<char>), Seq<i64>)| e.1.len() >= cfg.error_threshold as int;
        let ghost fired = over_threshold(counts, cfg.error_threshold as int);
        let mut keys: Vec<(String, String, usize)> = Vec::new();
        let mut j: usize = 0;
        assert(fired_views(keys@) =~= fired_keys(seqs::kept(counts.take(0), f)));
        while j < self.error_counts.entries.len()
            invariant
                j <= self.error_counts.entries@.len(),
                self.error_counts@ == counts,
                counts.len() == self.error_counts.entries@.len(),
                f == (|e: ((Seq<char>, Seq<char>), Seq<i64>)|
                    e.1.len() >= cfg.error_threshold as int),
                fired_views(keys@) == fired_keys(seqs::kept(counts.take(j as int), f)),
            decreases self.error_counts.entries@.len() - j,
        {
            proof {
                seqs::lemma_take_step(counts, j as int);
            }
            let e = &self.error_counts.entries[j];
            assert(counts[j as int] == ((e.0.0@, e.0.1@), e.1@));
            if e.1.len() >= cfg.error_threshold as usize {
                let ghost before = keys@;
                let ghost done = seqs::kept(counts.take(j as int), f);
                let k = (e.0.0.clone(), e.0.1.clone(), e.1.len());
                keys.push(k);
                assert(fired_views(keys@) =~= fired_views(before).push(
                    (k.0@, k.1@, k.2 as nat),
                ));
                assert(fired_keys(done.push(counts[j as int])) =~= fired_keys(done).push(
                    (k.0@, k.1@, k.2 as nat),
                ));
            }
            j = j + 1;
        }
        assert(counts.take(counts.len() as int) =~= counts);
        assert(fired_views(keys@) == fired_keys(fired));
        let ghost all = error_step(v, *cfg, ts, host_id@).1;
        let mut k: usize = 0;
        assert(fired.take(0) =~= seq![]);
        assert(e0 + all.take(0) =~= e0);
        while k < keys.len()
            invariant
                k <= keys@.len(),
                fired_views(keys@) == fired_keys(fired),
                fired.len() == keys@.len(),
                all == fired.map_values(
                    |e: ((Seq<char>, Seq<char>), Seq<i64>)|
                        error_event(e, cfg.error_window_secs as int, ts, host_id@),
                ),
                self.wf() == old(self).wf(),
                self@ == (AgentView {
                    counts: without_all(counts, fired.take(k as int)),
                    ..v
                }),
                common::events(evs@) == e0 + all.take(k as int),
            decreases keys@.len() - k,
        {
            proof {
                seqs::lemma_take_step(fired, k as int);
                assert(fired_views(keys@)[k as int] == fired_keys(fired)[k as int]);
            }
            let ident = keys[k].0.as_str();
            let pat = keys[k].1.as_str();
            let count = text::dec_u64(keys[k].2 as u64);
            assert(fired[k as int].0 == (ident@, pat@));
            let key = (text::owned(ident), text::owned(pat));
            assert(key@ == fired[k as int].0);
            self.error_counts.remove(&key);
            let window = text::dec_i64(cfg.error_window_secs);
            let ev = common::make_event(
                text::owned("err-").concat(text::dec_i64(ts).as_str()).concat("-").concat(
                    ident,
                ).concat("-").concat(pat),
                ts,
                host_id,
                text::owned("errrate:").concat(ident).concat(":").concat(pat),
                EventKind::ErrorRateSpike,
                Severity::Warning,
                text::owned(ident).concat(" error pattern \"").concat(pat).concat("\" hit ").concat(
                    count.as_str(),
                ).concat(" times in ").concat(window.as_str()).concat("s"),
                "journald",
                text::owned("Ident=").concat(ident).concat(" Pattern=").concat(pat).concat(
                    " Count=",
                ).concat(count.as_str()).concat(" WindowSecs=").concat(window.as_str()),
            );
            assert(ev@ == all[k as int]);
            evs.push(ev);
            assert((e0 + all.take(k as int)).push(ev@) =~= e0 + all.take(k + 1));
            k = k + 1;
        }
        assert(fired.take(fired.len() as int) =~= fired);
        assert(all.take(all.len() as int) =~= all);
    }
}

/// The keys of entries and how many times each holds.
pub open spec fn fired_keys(s: CountsView) -> Seq<(Seq<char>, Seq<char>, nat)> {
    s.map_values(|e: ((Seq<char>, Seq<char>), Seq<i64>)| (e.0.0, e.0.1, e.1.len()))
}

/// The same of a list of machine values.
pub open spec fn fired_views(v: Seq<(String, String, usize)>) -> Seq<
    (Seq<char>, Seq<char>, nat),
> {
    v.map_values(|e: (String, String, usize)| (e.0@, e.1@, e.2 as nat))
}

// ---------------------------------------------------------------------------
// The detection pass
// ---------------------------------------------------------------------------

/// What the commands of a poll answered: docker only when it is watched,
/// openssl only when the certificates are due.
pub struct PollAnswers {
    pub sys: Result<String, String>,
    pub journal: Result<String, String>,
    pub docker: Option<Result<String, String>>,
    pub certs: Option<Vec<Result<String, String>>>,
}

/// The window for new remote endpoints, in milliseconds.
pub open spec fn scan_window_ms(cfg: Config) -> i64 {
    clamped(cfg.scan_window_secs * 1000) as i64
}

fn scan_window_of(cfg: &Config) -> (r: i64)
    ensures
        r == scan_window_ms(*cfg),
{
    let ms: i128 = (cfg.scan_window_secs as i128) * 1000;
    if ms > i64::MAX as i128 {
        i64::MAX
    } else if ms < i64::MIN as i128 {
        i64::MIN
    } else {
        ms as i64
    }
}

/// What is remembered, and the events, of docker's answer.
pub open spec fn docker_step(
    v: AgentView,
    cfg: Config,
    out: Option<Result<String, String>>,
    ts: i64,
    host: Seq<char>,
) -> (AgentView, Seq<EventView>) {
    match out {
        Some(Ok(t)) => if cfg.docker_enabled {
            let cs = docker::containers_of(t@);
            (
                AgentView { docker: docker::tracker_after(v.docker, cs, ts, host), ..v },
                docker::containers_pass(v.docker, cs, ts, host).1,
            )
        } else {
            (v, seq![])
        },
        _ => (v, seq![]),
    }
}

/// What is remembered, and the events, of openssl's answers.
pub open spec fn cert_step(
    v: AgentView,
    cfg: Config,
    outs: Option<Vec<Result<String, String>>>,
    ts: i64,
    host: Seq<char>,
) -> (AgentView, Seq<EventView>) {
    if certs_due(v, cfg, ts) {
        (
            AgentView { last_cert_scan: ts, ..v },
            match outs {
                Some(o) => if o@.len() == v.cert_paths.len() {
                    certs::cert_events(
                        v.cert_paths,
                        certs::answer_texts(o@),
                        cfg.cert_crit_days as int,
                        cfg.cert_warn_days as int,
                        civil::quot(ts as int, 1000),
                        ts,
                        host,
                    )
                } else {
                    seq![]
                },
                None => seq![],
            },
        )
    } else {
        (v, seq![])
    }
}

/// What is remembered, and the events, of one poll before deduplication: the
/// readings, the uptime, the services, the journal, the network, the disks,
/// the containers, the certificates, the error rates and the file changes, in
/// this order. A command that failed contributes nothing.
pub open spec fn detection(
    v: AgentView,
    cfg: Config,
    p: ProcFs,
    r: Readings,
    changes: Seq<fim_types::FimView>,
    a: PollAnswers,
    host: Seq<char>,
    ts: i64,
) -> (AgentView, Seq<EventView>) {
    let e1 = reading_events(p, r, host, ts);
    let (v2, e2) = reboot_step(v, p, r.uptime_ms, ts, host);
    let (v3, e3) = match a.sys {
        Ok(t) => service_pass(v2, systemd::units_of(text::lines(t@)), ts, host),
        Err(_) => (v2, seq![]),
    };
    let (v4, e4) = match a.journal {
        Ok(t) => journal_pass(v3, journald::journal_of(t@), cfg.ssh_brute_window_secs, host),
        Err(_) => (v3, seq![]),
    };
    let window = scan_window_ms(cfg) as int;
    let e5 = netflow::net_events(v4.net, p, ts, host, cfg.scan_threshold as int, window);
    let v5 = AgentView {
        net: netflow::net_after(v4.net, p, ts, cfg.scan_threshold as int, window),
        ..v4
    };
    let (ro, e6) = disk::disk_pass(disk::shown_mounts(p), r.mounts@, ts, host, v5.read_only);
    let v6 = AgentView { read_only: ro, ..v5 };
    let (v7, e7) = docker_step(v6, cfg, a.docker, ts, host);
    let (v8, e8) = cert_step(v7, cfg, a.certs, ts, host);
    let (v9, e9) = error_step(v8, cfg, ts, host);
    let e10 = fim_events(changes, ts, host);
    (v9, e1 + e2 + e3 + e4 + e5 + e6 + e7 + e8 + e9 + e10)
}

impl AgentState {
    fn docker_stage(
        &mut self,
        cfg: &Config,
        out: &Option<Result<String, String>>,
        ts: i64,
        host_id: &str,
        evs: &mut Vec<AgentEvent>,
    )
        requires
            old(self).wf(),
        ensures
            final(self).wf(),
            final(self)@ == docker_step(old(self)@, *cfg, *out, ts, host_id@).0,
            common::events(final(evs)@) == common::events(old(evs)@) + docker_step(
                old(self)@,
                *cfg,
                *out,
                ts,
                host_id@,
            ).1,
    {
        let ghost e0 = common::events(evs@);
        assert(e0 + Seq::<EventView>::empty() =~= e0);
        if !cfg.docker_enabled {
            return;
        }
        match out {
            Some(Ok(t)) => {
                match docker::parse_docker_ps(t.as_str()) {
                    Ok(cs) => {
                        self.docker.observe(&cs, ts, host_id, evs);
                    },
                    Err(_) => {},
                }
            },
            _ => {},
        }
    }

    fn due_for_certs(&self, cfg: &Config, ts: i64) -> (r: bool)
        ensures
            r == certs_due(self@, *cfg, ts),
    {
        let secs: i64 = if cfg.cert_scan_interval_secs >= 60 {
            cfg.cert_scan_interval_secs
        } else {
            60
        };
        ts as i128 - self.last_cert_scan as i128 >= (secs as i128) * 1000
    }

    fn cert_stage(
        &mut self,
        cfg: &Config,
        outs: &Option<Vec<Result<String, String>>>,
        ts: i64,
        host_id: &str,
        evs: &mut Vec<AgentEvent>,
    )
        ensures
            final(self).wf() == old(self).wf(),
            final(self)@ == cert_step(old(self)@, *cfg, *outs, ts, host_id@).0,
            common::events(final(evs)@) == common::events(old(evs)@) + cert_step(
                old(self)@,
                *cfg,
                *outs,
                ts,
                host_id@,
            ).1,
    {
        let ghost e0 = common::events(evs@);
        assert(e0 + Seq::<EventView>::empty() =~= e0);
        if !self.due_for_certs(cfg, ts) {
            return;
        }
        self.last_cert_scan = ts;
        match outs {
            Some(o) => {
                if o.len() == self.cert_paths.len() {
                    let more = certs::cert_pass(
                        &self.cert_paths,
                        o,
                        cfg,
                        ts / 1000,
                        ts,
                        host_id,
                    );
                    add_all(evs, more);
                }
            },
            None => {},
        }
    }

    /// One detection pass over what a poll brought, before deduplication.
    pub fn detect(
        &mut self,
        cfg: &Config,
        p: &ProcFs,
        readings: &Readings,
        changes: &Vec<FimEvent>,
        answers: &PollAnswers,
        host_id: &str,
        ts: i64,
    ) -> (evs: Vec<AgentEvent>)
        requires
            old(self).wf(),
        ensures
            final(self).wf(),
            final(self)@ == detection(
                old(self)@,
                *cfg,
                *p,
                *readings,
                fim_views(changes@),
                *answers,
                host_id@,
                ts,
            ).0,
            common::events(evs@) == detection(
                old(self)@,
                *cfg,
                *p,
                *readings,
                fim_views(changes@),
                *answers,
                host_id@,
                ts,
            ).1,
    {
        let mut evs = reading_stage(p, readings, host_id, ts);
        self.reboot_stage(p, readings.uptime_ms, ts, host_id, &mut evs);
        match &answers.sys {
            Ok(t) => {
                let units = systemd::parse_units(t.as_str());
                self.service_stage(&units, ts, host_id, &mut evs);
            },
            Err(_) => {
                assert(common::events(evs@) + Seq::<EventView>::empty() =~= common::events(evs@));
            },
        }
        match &answers.journal {
            Ok(t) => {
                match journald::parse_journal(t.as_str()) {
                    Ok(lines) => {
                        self.journal_stage(
                            &lines,
                            cfg.ssh_brute_window_secs,
                            host_id,
                            &mut evs,
                        );
                    },
                    Err(_) => {},
                }
            },
            Err(_) => {
                assert(common::events(evs@) + Seq::<EventView>::empty() =~= common::events(evs@));
            },
        }
        let window: i64 = scan_window_of(cfg);
        let net = self.net.observe(p, ts, host_id, cfg.scan_threshold, window);
        add_all(&mut evs, net);
        let disk = disk::disk_events(p, &readings.mounts, ts, host_id, &mut self.ro_baseline);
        add_all(&mut evs, disk);
        self.docker_stage(cfg, &answers.docker, ts, host_id, &mut evs);
        self.cert_stage(cfg, &answers.certs, ts, host_id, &mut evs);
        self.error_stage(cfg, ts, host_id, &mut evs);
        add_all(&mut evs, fim_stage(changes, ts, host_id));
        evs
    }
}

/// `a` holds answers that the runners can give in a poll at `ts`.
pub open spec fn answered<S: CommandRunner, J: CommandRunner, D: CommandRunner, O: CommandRunner>(
    a: PollAnswers,
    cfg: Config,
    runners: Runners<S, J, D, O>,
    v: AgentView,
    ts: i64,
) -> bool {
    &&& cmd::answers(runners.sys, systemd::list_args(), a.sys)
    &&& cmd::answers(
        runners.journal,
        journald::since_args(civil::quot(v.cursor as int, 1000), 0),
        a.journal,
    )
    &&& match a.docker {
        Some(o) => cfg.docker_enabled && cmd::answers(runners.docker, docker::ps_args(), o),
        None => !cfg.docker_enabled,
    }
    &&& match a.certs {
        Some(o) => certs_due(v, cfg, ts) && certs::cert_answers(
            runners.openssl,
            v.cert_paths,
            o@,
        ),
        None => !certs_due(v, cfg, ts),
    }
}

/// Run the commands of a poll.
pub fn gather<S: CommandRunner, J: CommandRunner, D: CommandRunner, O: CommandRunner>(
    cfg: &Config,
    runners: &Runners<S, J, D, O>,
    state: &AgentState,
    ts: i64,
) -> (a: PollAnswers)
    ensures
        answered(a, *cfg, *runners, state@, ts),
{
    let sys = systemd::ask_units(&runners.sys);
    let journal = journald::ask_since(&runners.journal, state.journal_since_ms / 1000, 0);
    let docker = if cfg.docker_enabled {
        Some(docker::ask_containers(&runners.docker))
    } else {
        None
    };
    let certs = if state.due_for_certs(cfg, ts) {
        Some(certs::ask_certs(&state.cert_paths, &runners.openssl))
    } else {
        None
    };
    PollAnswers { sys, journal, docker, certs }
}

/// One detection pass: run all sensors against current state, apply dedup,
/// return events to ship. Called every poll interval and by `check`. Whatever
/// the commands answer, the events are those of the answers.
pub fn run_once<S: CommandRunner, J: CommandRunner, D: CommandRunner, O: CommandRunner>(
    cfg: &Config,
    deduper: &mut Deduper,
    host_id: &str,
    ts: i64,
    p: &ProcFs,
    runners: &Runners<S, J, D, O>,
    readings: &Readings,
    changes: &Vec<FimEvent>,
    state: &mut AgentState,
) -> (evs: Vec<AgentEvent>)
    requires
        old(state).wf(),
    ensures
        final(state).wf(),
        final(deduper).window_secs == old(deduper).window_secs,
        exists|a: PollAnswers| #[trigger]
            answered(a, *cfg, *runners, old(state)@, ts) && ({
                let (v, found) = detection(
                    old(state)@,
                    *cfg,
                    *p,
                    *readings,
                    fim_views(changes@),
                    a,
                    host_id@,
                    ts,
                );
                let (m, out) = dedup_pass(
                    old(deduper).last_emitted@,
                    old(deduper).window_secs as int,
                    found,
                );
                final(state)@ == v && final(deduper).last_emitted@ == m && common::events(evs@)
                    == out
            }),
{
    let answers = gather(cfg, runners, state, ts);
    let found = state.detect(cfg, p, readings, changes, &answers, host_id, ts);
    dedup(deduper, found)
}

// ---------------------------------------------------------------------------
// What the steps of a poll report
// ---------------------------------------------------------------------------

/// A poll reports a reboot exactly when an earlier poll saw a boot more than a
/// minute away from this one's, and the boot ids of both, where both are
/// known, differ. The boot is remembered either way.
pub proof fn law_reboots_are_reported(
    v: AgentView,
    p: ProcFs,
    uptime_ms: i64,
    ts: i64,
    host: Seq<char>,
)
    requires
        i64::MIN <= ts - uptime_ms <= i64::MAX,
    ensures
        ({
            let (w, evs) = reboot_step(v, p, Some(uptime_ms), ts, host);
            let boot = ts - uptime_ms;
            let file = p.file("sys/kernel/random/boot_id"@);
            let same_id = v.boot_id is Some && file is Ok && v.boot_id->0 == text::trim(file->Ok_0);
            let moved = v.boot_epoch is Some && (boot > v.boot_epoch->0 + 60_000 || boot + 60_000
                < v.boot_epoch->0);
            &&& moved && !same_id ==> evs.len() == 1 && evs[0].kind is Reboot
                && evs[0].severity is Warning && evs[0].key == "system:reboot"@ && evs[0].ts == ts
                && evs[0].host_id == host
            &&& !moved || same_id ==> evs.len() == 0
            &&& w.boot_epoch == Some(boot as i64)
            &&& file is Ok ==> w.boot_id == Some(text::trim(file->Ok_0))
            &&& file is Err ==> w.boot_id == v.boot_id
            &&& reboot_step(v, p, None, ts, host) == (v, Seq::<EventView>::empty())
        }),
{
}

/// After a line, one more time stands under each pattern that matched it, for
/// the line's program; nothing else changes.
pub proof fn law_matching_lines_are_counted(
    counts: CountsView,
    patterns: Seq<Seq<char>>,
    outcomes: Seq<Option<bool>>,
    ident: Seq<char>,
    ts_ms: i64,
    k: (Seq<char>, Seq<char>),
)
    requires
        patterns.no_duplicates(),
        outcomes.len() == patterns.len(),
    ensures
        ({
            let after = counted(counts, patterns, outcomes, ident, ts_ms);
            let hit = exists|i: int|
                0 <= i < patterns.len() && #[trigger] patterns[i] == k.1 && outcomes[i] == Some(
                    true,
                );
            &&& k.0 == ident && hit ==> table::lookup(after, k) == Some(
                (match table::lookup(counts, k) {
                    Some(l) => l,
                    None => seq![],
                }).push(ts_ms),
            )
            &&& k.0 != ident || !hit ==> table::lookup(after, k) == table::lookup(counts, k)
        }),
    decreases patterns.len(),
{
    if patterns.len() > 0 {
        let (ps, os) = (patterns.drop_last(), outcomes.drop_last());
        let n = ps.len() as int;
        assert(ps.no_duplicates());
        law_matching_lines_are_counted(counts, ps, os, ident, ts_ms, k);
        let c = counted(counts, ps, os, ident, ts_ms);
        let own = (ident, patterns.last());
        let before = match table::lookup(c, own) {
            Some(list) => list,
            None => seq![],
        };
        table::law_put_then_lookup(c, own, before.push(ts_ms), k);
        assert forall|i: int| 0 <= i < n implies ps[i] == #[trigger] patterns[i] && os[i]
            == outcomes[i] by {}
        if exists|i: int|
            0 <= i < n && #[trigger] ps[i] == k.1 && os[i] == Some(true) {
            let i = choose|i: int| 0 <= i < n && #[trigger] ps[i] == k.1 && os[i] == Some(true);
            assert(patterns[i] == k.1 && outcomes[i] == Some(true));
            assert(patterns[n] != patterns[i]);
        }
        if exists|i: int|
            0 <= i < patterns.len() && #[trigger] patterns[i] == k.1 && outcomes[i] == Some(true) {
            let i = choose|i: int|
                0 <= i < patterns.len() && #[trigger] patterns[i] == k.1 && outcomes[i] == Some(
                    true,
                );
            if i < n {
                assert(ps[i] == k.1 && os[i] == Some(true));
            } else {
                assert(patterns[n] == k.1);
                if exists|j: int|
                    0 <= j < n && #[trigger] ps[j] == k.1 && os[j] == Some(true) {
                    let j = choose|j: int|
                        0 <= j < n && #[trigger] ps[j] == k.1 && os[j] == Some(true);
                    assert(patterns[j] == patterns[n]);
                }
            }
        }
        assert(patterns.last() == patterns[n] && outcomes.last() == outcomes[n]);
    }
}

/// A poll reports an error rate exactly for the program and pattern whose
/// matches within the window reach the threshold, and forgets them; of the
/// others the matches within the window are kept.
pub proof fn law_error_rates_are_reported(
    v: AgentView,
    cfg: Config,
    ts: i64,
    host: Seq<char>,
    k: (Seq<char>, Seq<char>),
    times: Seq<i64>,
)
    requires
        v.patterns.len() > 0,
        table::distinct(v.counts),
        table::lookup(v.counts, k) == Some(times),
    ensures
        ({
            let (w, evs) = error_step(v, cfg, ts, host);
            let secs = if cfg.error_window_secs >= 1 {
                cfg.error_window_secs as int
            } else {
                1
            };
            let near = times.filter(|t: i64| ts - t <= secs * 1000);
            &&& near.len() >= cfg.error_threshold ==> table::lookup(w.counts, k) is None && exists|
                i: int,
            |
                0 <= i < evs.len() && (#[trigger] evs[i]).key == "errrate:"@ + k.0 + ":"@ + k.1
                    && evs[i].summary == k.0 + " error pattern \""@ + k.1 + "\" hit "@ + text::dec(
                    near.len(),
                ) + " times in "@ + text::dec_int(cfg.error_window_secs as int) + "s"@
            &&& near.len() < cfg.error_threshold ==> table::lookup(w.counts, k) == Some(near)
        }),
        forall|e: EventView| #[trigger]
            error_step(v, cfg, ts, host).1.contains(e) ==> e.kind is ErrorRateSpike
                && e.severity is Warning && e.ts == ts && e.host_id == host && exists|i: int|
                0 <= i < v.counts.len() && e.key == "errrate:"@ + (#[trigger] v.counts[i]).0.0
                    + ":"@ + v.counts[i].0.1,
{
    let secs = if cfg.error_window_secs >= 1 {
        cfg.error_window_secs as int
    } else {
        1
    };
    let f = |t: i64| ts - t <= secs * 1000;
    let g = |t: i64| t + secs * 1000 >= ts as int;
    let near = times.filter(f);
    seqs::lemma_kept_is_filter(times, g, f);
    let larger = certs::larger(cfg.error_window_secs as int, 1) * 1000;
    assert(seqs::recent(times, ts as int, larger) == near);
    let counts = windowed(v.counts, ts, cfg.error_window_secs as int);
    let reaches = |e: ((Seq<char>, Seq<char>), Seq<i64>)| e.1.len() >= cfg.error_threshold as int;
    let fired = over_threshold(counts, cfg.error_threshold as int);
    seqs::lemma_kept(counts, reaches);
    let i = table::lemma_lookup_index(v.counts, k);
    assert(counts[i] == (k, near));
    assert forall|a: int, b: int| 0 <= a < b < counts.len() implies (#[trigger] counts[a]).0 != (
    #[trigger] counts[b]).0 by {
        assert(counts[a].0 == v.counts[a].0 && counts[b].0 == v.counts[b].0);
    }
    table::lemma_distinct_lookup(counts, i);
    lemma_without_all(counts, fired, k);
    let h = |e: ((Seq<char>, Seq<char>), Seq<i64>)|
        error_event(e, cfg.error_window_secs as int, ts, host);
    let evs = error_step(v, cfg, ts, host).1;
    assert(evs == fired.map_values(h));
    assert(counts.contains((k, near)));
    if near.len() >= cfg.error_threshold {
        assert(reaches((k, near)));
        assert(fired.contains((k, near)));
        let j = choose|j: int| 0 <= j < fired.len() && fired[j] == (k, near);
        assert(evs[j] == h((k, near)));
    } else {
        assert forall|j: int| 0 <= j < fired.len() implies (#[trigger] fired[j]).0 != k by {
            assert(fired.contains(fired[j]));
            assert(reaches(fired[j]) && counts.contains(fired[j]));
            let b = choose|b: int| 0 <= b < counts.len() && counts[b] == fired[j];
            if fired[j].0 == k {
                assert(counts[b].0 == counts[i].0);
                assert(b == i);
            }
        }
    }
    assert forall|e: EventView| #[trigger] evs.contains(e) implies e.kind is ErrorRateSpike
        && e.severity is Warning && e.ts == ts && e.host_id == host && exists|i: int|
        0 <= i < v.counts.len() && e.key == "errrate:"@ + (#[trigger] v.counts[i]).0.0 + ":"@
            + v.counts[i].0.1 by {
        let j = choose|j: int| 0 <= j < evs.len() && evs[j] == e;
        assert(e == h(fired[j]));
        assert(fired.contains(fired[j]));
        let b = choose|b: int| 0 <= b < counts.len() && counts[b] == fired[j];
        assert(v.counts[b].0 == fired[j].0);
    }
}

proof fn lemma_without_all(counts: CountsView, fired: CountsView, k: (Seq<char>, Seq<char>))
    ensures
        table::lookup(without_all(counts, fired), k) == (if exists|j: int|
            0 <= j < fired.len() && (#[trigger] fired[j]).0 == k {
            None
        } else {
            table::lookup(counts, k)
        }),
    decreases fired.len(),
{
    if fired.len() > 0 {
        let init = fired.drop_last();
        lemma_without_all(counts, init, k);
        let c = without_all(counts, init);
        table::law_without_then_lookup(c, fired.last().0, k);
        assert(fired.last() == fired[fired.len() - 1]);
        if exists|j: int| 0 <= j < init.len() && (#[trigger] init[j]).0 == k {
            let j = choose|j: int| 0 <= j < init.len() && (#[trigger] init[j]).0 == k;
            assert(fired[j].0 == k);
        }
        if exists|j: int| 0 <= j < fired.len() && (#[trigger] fired[j]).0 == k {
            let j = choose|j: int| 0 <= j < fired.len() && (#[trigger] fired[j]).0 == k;
            if j < init.len() {
                assert(init[j].0 == k);
            }
        }
    }
}

/// Certificates are looked at when as many seconds have passed since the last
/// look as the configuration asks for, a minute at least; a look is
/// remembered.
pub proof fn law_certificates_are_scanned_in_turn(
    v: AgentView,
    cfg: Config,
    outs: Option<Vec<Result<String, String>>>,
    ts: i64,
    host: Seq<char>,
)
    ensures
        ({
            let (w, evs) = cert_step(v, cfg, outs, ts, host);
            let due = ts - v.last_cert_scan >= 60_000 && ts - v.last_cert_scan
                >= cfg.cert_scan_interval_secs * 1000;
            &&& due ==> w.last_cert_scan == ts
            &&& !due ==> w == v && evs.len() == 0
        }),
{
}

/// The services do not depend on what else is remembered, nor change it.
proof fn lemma_services_apart(
    v: AgentView,
    w: AgentView,
    units: Seq<(Seq<char>, ServiceState)>,
    ts: i64,
    host: Seq<char>,
)
    requires
        v.crash == w.crash,
        v.crash_window == w.crash_window,
    ensures
        service_pass(v, units, ts, host).1 == service_pass(w, units, ts, host).1,
        service_pass(v, units, ts, host).0 == (AgentView {
            crash: service_pass(w, units, ts, host).0.crash,
            ..v
        }),
    decreases units.len(),
{
    if units.len() > 0 {
        lemma_services_apart(v, w, units.drop_last(), ts, host);
        lemma_services_apart(w, w, units.drop_last(), ts, host);
    }
}

/// The journal does not depend on what is remembered of other things, nor
/// changes it.
proof fn lemma_journal_apart(
    v: AgentView,
    w: AgentView,
    ls: Seq<journald::LineView>,
    shown_window: u64,
    host: Seq<char>,
)
    requires
        w == (AgentView {
            crash: w.crash,
            boot_epoch: w.boot_epoch,
            boot_id: w.boot_id,
            ..v
        }),
    ensures
        journal_pass(v, ls, shown_window, host).1 == journal_pass(w, ls, shown_window, host).1,
        journal_pass(w, ls, shown_window, host).0 == (AgentView {
            crash: w.crash,
            boot_epoch: w.boot_epoch,
            boot_id: w.boot_id,
            ..journal_pass(v, ls, shown_window, host).0
        }),
        ({
            let u = journal_pass(v, ls, shown_window, host).0;
            u == (AgentView {
                cursor: u.cursor,
                seen: u.seen,
                failures: u.failures,
                counts: u.counts,
                ..v
            })
        }),
    decreases ls.len(),
{
    if ls.len() > 0 {
        lemma_journal_apart(v, w, ls.drop_last(), shown_window, host);
    }
}

/// A poll reports what each source has to report by itself: no source hides
/// another's events, and what one remembers is not touched by another.
pub proof fn law_every_source_is_heard(
    v: AgentView,
    cfg: Config,
    p: ProcFs,
    r: Readings,
    changes: Seq<fim_types::FimView>,
    a: PollAnswers,
    host: Seq<char>,
    ts: i64,
    e: EventView,
)
    ensures
        ({
            let (w, out) = detection(v, cfg, p, r, changes, a, host, ts);
            let window = clamped(cfg.scan_window_secs * 1000);
            let threshold = cfg.scan_threshold as int;
            &&& reading_events(p, r, host, ts).contains(e) ==> out.contains(e)
            &&& reboot_step(v, p, r.uptime_ms, ts, host).1.contains(e) ==> out.contains(e)
            &&& a.sys matches Ok(t) ==> (service_pass(
                v,
                systemd::units_of(text::lines(t@)),
                ts,
                host,
            ).1.contains(e) ==> out.contains(e))
            &&& a.journal matches Ok(t) ==> (journal_pass(
                v,
                journald::journal_of(t@),
                cfg.ssh_brute_window_secs,
                host,
            ).1.contains(e) ==> out.contains(e))
            &&& netflow::net_events(v.net, p, ts, host, threshold, window).contains(e)
                ==> out.contains(e)
            &&& disk::disk_pass(
                disk::shown_mounts(p),
                r.mounts@,
                ts,
                host,
                v.read_only,
            ).1.contains(e) ==> out.contains(e)
            &&& docker_step(v, cfg, a.docker, ts, host).1.contains(e) ==> out.contains(e)
            &&& cert_step(v, cfg, a.certs, ts, host).1.contains(e) ==> out.contains(e)
            &&& fim_events(changes, ts, host).contains(e) ==> out.contains(e)
            &&& w.net == netflow::net_after(v.net, p, ts, threshold, window)
            &&& w.read_only == disk::disk_pass(
                disk::shown_mounts(p),
                r.mounts@,
                ts,
                host,
                v.read_only,
            ).0
            &&& w.docker == docker_step(v, cfg, a.docker, ts, host).0.docker
            &&& w.last_cert_scan == cert_step(v, cfg, a.certs, ts, host).0.last_cert_scan
            &&& w.boot_epoch == reboot_step(v, p, r.uptime_ms, ts, host).0.boot_epoch
            &&& w.boot_id == reboot_step(v, p, r.uptime_ms, ts, host).0.boot_id
            &&& a.sys matches Ok(t) ==> w.crash == service_pass(
                v,
                systemd::units_of(text::lines(t@)),
                ts,
                host,
            ).0.crash
            &&& a.journal matches Ok(t) ==> ({
                let j = journal_pass(
                    v,
                    journald::journal_of(t@),
                    cfg.ssh_brute_window_secs,
                    host,
                ).0;
                w.cursor == j.cursor && w.seen == j.seen && w.failures == j.failures
            })
            &&& a.journal is Err ==> w.cursor == v.cursor && w.seen == v.seen && w.failures
                == v.failures
            &&& a.sys is Err ==> w.crash == v.crash
        }),
{
    let e1 = reading_events(p, r, host, ts);
    let (v2, e2) = reboot_step(v, p, r.uptime_ms, ts, host);
    let (v3, e3) = match a.sys {
        Ok(t) => service_pass(v2, systemd::units_of(text::lines(t@)), ts, host),
        Err(_) => (v2, seq![]),
    };
    match a.sys {
        Ok(t) => {
            lemma_services_apart(v2, v, systemd::units_of(text::lines(t@)), ts, host);
        },
        Err(_) => {},
    }
    let (v4, e4) = match a.journal {
        Ok(t) => journal_pass(v3, journald::journal_of(t@), cfg.ssh_brute_window_secs, host),
        Err(_) => (v3, seq![]),
    };
    match a.journal {
        Ok(t) => {
            lemma_journal_apart(
                v,
                v3,
                journald::journal_of(t@),
                cfg.ssh_brute_window_secs,
                host,
            );
        },
        Err(_) => {},
    }
    let window = scan_window_ms(cfg) as int;
    let e5 = netflow::net_events(v4.net, p, ts, host, cfg.scan_threshold as int, window);
    let v5 = AgentView {
        net: netflow::net_after(v4.net, p, ts, cfg.scan_threshold as int, window),
        ..v4
    };
    let (ro, e6) = disk::disk_pass(disk::shown_mounts(p), r.mounts@, ts, host, v5.read_only);
    let v6 = AgentView { read_only: ro, ..v5 };
    let (v7, e7) = docker_step(v6, cfg, a.docker, ts, host);
    let (v8, e8) = cert_step(v7, cfg, a.certs, ts, host);
    let (v9, e9) = error_step(v8, cfg, ts, host);
    let e10 = fim_events(changes, ts, host);
    let out = detection(v, cfg, p, r, changes, a, host, ts).1;
    assert(out == e1 + e2 + e3 + e4 + e5 + e6 + e7 + e8 + e9 + e10);
    lemma_joined_contains(e1, e2, e);
    lemma_joined_contains(e1 + e2, e3, e);
    lemma_joined_contains(e1 + e2 + e3, e4, e);
    lemma_joined_contains(e1 + e2 + e3 + e4, e5, e);
    lemma_joined_contains(e1 + e2 + e3 + e4 + e5, e6, e);
    lemma_joined_contains(e1 + e2 + e3 + e4 + e5 + e6, e7, e);
    lemma_joined_contains(e1 + e2 + e3 + e4 + e5 + e6 + e7, e8, e);
    lemma_joined_contains(e1 + e2 + e3 + e4 + e5 + e6 + e7 + e8, e9, e);
    lemma_joined_contains(e1 + e2 + e3 + e4 + e5 + e6 + e7 + e8 + e9, e10, e);
}

proof fn lemma_joined_contains(a: Seq<EventView>, b: Seq<EventView>, e: EventView)
    ensures
        a.contains(e) || b.contains(e) <==> (a + b).contains(e),
{
    if a.contains(e) {
        let i = choose|i: int| 0 <= i < a.len() && a[i] == e;
        assert((a + b)[i] == e);
    }
    if b.contains(e) {
        let i = choose|i: int| 0 <= i < b.len() && b[i] == e;
        assert((a + b)[a.len() + i] == e);
    }
    if (a + b).contains(e) {
        let i = choose|i: int| 0 <= i < (a + b).len() && (a + b)[i] == e;
        if i < a.len() {
            assert(a[i] == e);
        } else {
            assert(b[i - a.len()] == e);
        }
    }
}

/// What a pass tells of a service does not depend on the others: with each
/// service in one row, the events of each are those of its own row.
pub proof fn law_each_service_is_followed(
    v: AgentView,
    units: Seq<(Seq<char>, ServiceState)>,
    ts: i64,
    host: Seq<char>,
    i: int,
    e: EventView,
)
    requires
        table::distinct(units),
        0 <= i < units.len(),
        ts >= 0,
    ensures
        ({
            let secs = (ts as int / 1000) as u64;
            let (w, evs) = service_pass(v, units, ts, host);
            let (unit, state) = units[i];
            &&& systemd::crash_events(
                v.crash,
                v.crash_window as int,
                unit,
                state,
                secs,
                host,
            ).contains(e) ==> evs.contains(e)
            &&& table::lookup(w.crash.last_state, unit) == Some(state)
        }),
    decreases units.len(),
{
    let init = units.drop_last();
    let (w, evs) = service_pass(v, init, ts, host);
    let (u, s) = units.last();
    let secs = systemd::unsigned_secs(civil::quot(ts as int, 1000));
    assert(secs == (ts as int / 1000) as u64);
    let window = w.crash_window as int;
    let more = systemd::crash_events(w.crash, window, u, s, secs, host);
    lemma_joined_contains(evs, more, e);
    lemma_services_apart(v, v, init, ts, host);
    assert forall|a: int, b: int| 0 <= a < b < init.len() implies (#[trigger] init[a]).0 != (
    #[trigger] init[b]).0 by {
        assert(init[a] == units[a] && init[b] == units[b]);
    }
    let unit = units[i].0;
    if i < init.len() {
        assert(init[i] == units[i]);
        law_each_service_is_followed(v, init, ts, host, i, e);
        assert(units[i].0 != units[units.len() - 1].0);
        systemd::law_units_are_independent(w.crash, window, u, s, secs, unit);
    } else {
        assert forall|j: int| 0 <= j < init.len() implies (#[trigger] init[j]).0 != u by {
            assert(init[j] == units[j]);
            assert(units[j].0 != units[units.len() - 1].0);
        }
        lemma_other_services(v, init, ts, host, u);
        table::law_put_then_lookup(w.crash.last_state, u, s, u);
    }
}

proof fn lemma_other_services(
    v: AgentView,
    units: Seq<(Seq<char>, ServiceState)>,
    ts: i64,
    host: Seq<char>,
    unit: Seq<char>,
)
    requires
        forall|j: int| 0 <= j < units.len() ==> (#[trigger] units[j]).0 != unit,
    ensures
        ({
            let w = service_pass(v, units, ts, host).0;
            &&& table::lookup(w.crash.last_state, unit) == table::lookup(v.crash.last_state, unit)
            &&& table::lookup(w.crash.restarts, unit) == table::lookup(v.crash.restarts, unit)
            &&& w.crash_window == v.crash_window
        }),
    decreases units.len(),
{
    if units.len() > 0 {
        let init = units.drop_last();
        assert forall|j: int| 0 <= j < init.len() implies (#[trigger] init[j]).0 != unit by {
            assert(init[j] == units[j]);
        }
        lemma_other_services(v, init, ts, host, unit);
        let w = service_pass(v, init, ts, host).0;
        assert(units.last() == units[units.len() - 1]);
        let (u, s) = units.last();
        let secs = systemd::unsigned_secs(civil::quot(ts as int, 1000));
        systemd::law_units_are_independent(w.crash, w.crash_window as int, u, s, secs, unit);
    }
}

/// A started service is told, whatever else its line tells.
pub proof fn law_started_services_are_told(
    v: AgentView,
    l: journald::LineView,
    shown_window: u64,
    host: Seq<char>,
    unit: Seq<char>,
)
    requires
        l.ts_ms > v.cursor,
        journald::started_unit(l) == Some(unit),
    ensures
        ({
            let evs = line_step(v, l, shown_window, host).1;
            &&& evs.len() > 0
            &&& evs.last().kind is ServiceRestarted
            &&& evs.last().severity is Info
            &&& evs.last().key == "svc:"@ + unit
            &&& evs.last().ts == l.ts_ms
            &&& evs.last().host_id == host
        }),
{
}

/// Lines that tell nothing bring no events, and lines at or before the cursor
/// change nothing.
pub proof fn law_other_lines_are_quiet(
    v: AgentView,
    l: journald::LineView,
    shown_window: u64,
    host: Seq<char>,
)
    ensures
        sshauth::auth_of(l) is None && journald::started_unit(l) is None ==> line_step(
            v,
            l,
            shown_window,
            host,
        ).1.len() == 0,
        l.ts_ms <= v.cursor ==> line_step(v, l, shown_window, host) == (
            v,
            Seq::<EventView>::empty(),
        ),
        l.ts_ms > v.cursor ==> line_step(v, l, shown_window, host).0.cursor == l.ts_ms,
{
}

/// Every login line of a journal whose times grow, from behind the cursor on, is
/// told, with its own time and message.
pub proof fn law_every_login_is_told(
    v: AgentView,
    ls: Seq<journald::LineView>,
    shown_window: u64,
    host: Seq<char>,
    i: int,
    a: sshauth::AuthView,
)
    requires
        0 <= i < ls.len(),
        forall|j: int, k: int|
            0 <= j < k < ls.len() ==> (#[trigger] ls[j]).ts_ms < (#[trigger] ls[k]).ts_ms,
        forall|j: int| 0 <= j < ls.len() ==> (#[trigger] ls[j]).ts_ms > v.cursor,
        sshauth::auth_of(ls[i]) == Some(a),
    ensures
        exists|k: int|
            0 <= k < journal_pass(v, ls, shown_window, host).1.len() && (
            #[trigger] journal_pass(v, ls, shown_window, host).1[k]).ts == ls[i].ts_ms
                && journal_pass(v, ls, shown_window, host).1[k].host_id == host && (match a.kind {
                AuthKind::SshLogin => journal_pass(v, ls, shown_window, host).1[k].kind is SshLogin,
                AuthKind::RootLogin => journal_pass(
                    v,
                    ls,
                    shown_window,
                    host,
                ).1[k].kind is RootLogin,
                AuthKind::SudoUsed => journal_pass(v, ls, shown_window, host).1[k].kind is SudoUsed,
                AuthKind::SshFailed => journal_pass(
                    v,
                    ls,
                    shown_window,
                    host,
                ).1[k].kind is SshFailed || journal_pass(
                    v,
                    ls,
                    shown_window,
                    host,
                ).1[k].kind is SshBruteForce,
            }),
    decreases ls.len(),
{
    let init = ls.drop_last();
    let (w, evs) = journal_pass(v, init, shown_window, host);
    let (x, more) = line_step(w, ls.last(), shown_window, host);
    let all = journal_pass(v, ls, shown_window, host).1;
    assert(all == evs + more);
    assert forall|j: int, k: int| 0 <= j < k < init.len() implies (#[trigger] init[j]).ts_ms < (
    #[trigger] init[k]).ts_ms by {
        assert(init[j] == ls[j] && init[k] == ls[k]);
    }
    assert forall|j: int| 0 <= j < init.len() implies (#[trigger] init[j]).ts_ms > v.cursor by {
        assert(init[j] == ls[j]);
    }
    if i < init.len() {
        assert(init[i] == ls[i]);
        law_every_login_is_told(v, init, shown_window, host, i, a);
        let k = choose|k: int|
            0 <= k < evs.len() && (#[trigger] evs[k]).ts == ls[i].ts_ms && evs[k].host_id == host
                && (match a.kind {
                AuthKind::SshLogin => evs[k].kind is SshLogin,
                AuthKind::RootLogin => evs[k].kind is RootLogin,
                AuthKind::SudoUsed => evs[k].kind is SudoUsed,
                AuthKind::SshFailed => evs[k].kind is SshFailed || evs[k].kind is SshBruteForce,
            });
        assert(all[k] == evs[k]);
    } else {
        lemma_cursor_is_of_a_line(v, init, shown_window, host);
        assert(ls.last() == ls[i]);
        assert(w.cursor < ls[i].ts_ms) by {
            if w.cursor != v.cursor {
                let j = choose|j: int| 0 <= j < init.len() && (#[trigger] init[j]).ts_ms == w.cursor;
                assert(ls[j] == init[j]);
                assert(ls[j].ts_ms < ls[i].ts_ms);
            }
        }
        assert(all[evs.len() as int] == more[0]);
    }
}

proof fn lemma_cursor_is_of_a_line(
    v: AgentView,
    ls: Seq<journald::LineView>,
    shown_window: u64,
    host: Seq<char>,
)
    ensures
        ({
            let w = journal_pass(v, ls, shown_window, host).0;
            w.cursor == v.cursor || exists|j: int|
                0 <= j < ls.len() && (#[trigger] ls[j]).ts_ms == w.cursor
        }),
    decreases ls.len(),
{
    if ls.len() > 0 {
        let init = ls.drop_last();
        lemma_cursor_is_of_a_line(v, init, shown_window, host);
        let w = journal_pass(v, init, shown_window, host).0;
        let x = journal_pass(v, ls, shown_window, host).0;
        assert(ls.last() == ls[ls.len() - 1]);
        if x.cursor == w.cursor && w.cursor != v.cursor {
            let j = choose|j: int| 0 <= j < init.len() && (#[trigger] init[j]).ts_ms == w.cursor;
            assert(ls[j].ts_ms == x.cursor);
        }
    }
}

/// A cpu reading over its threshold is one Warning.
pub proof fn law_cpu_spikes_are_told(c: GaugeReading, host: Seq<char>, ts: i64)
    ensures
        ({
            let evs = cpu_event(c, host, ts);
            &&& c.over ==> evs.len() == 1 && evs[0].kind is CpuSpike && evs[0].severity is Warning
                && evs[0].key == "cpu:usage"@ && evs[0].ts == ts && evs[0].host_id == host
            &&& !c.over ==> evs.len() == 0
        }),
{
}

/// Each reading is told by itself: memory, swap, load, every interface with
/// errors, and the cpu.
pub proof fn law_each_reading_is_told(
    p: ProcFs,
    r: Readings,
    host: Seq<char>,
    ts: i64,
    e: EventView,
)
    ensures
        ({
            let out = reading_events(p, r, host, ts);
            &&& r.mem matches Some(m) ==> (resource::mem_event(m, host, ts).contains(e)
                ==> out.contains(e))
            &&& r.swap matches Some(m) ==> (resource::swap_event(m, host, ts).contains(e)
                ==> out.contains(e))
            &&& r.load matches Some(l) ==> (resource::load_event(l, host, ts).contains(e)
                ==> out.contains(e))
            &&& p.file("net/dev"@) matches Ok(t) ==> (resource::netdev_pass(
                procfs::netdev_table(procfs::lines_after(t, 2)),
                host,
                ts,
            ).contains(e) ==> out.contains(e))
            &&& cpu_event(r.cpu, host, ts).contains(e) ==> out.contains(e)
        }),
{
    let mem = match r.mem {
        Some(m) => resource::mem_event(m, host, ts),
        None => seq![],
    };
    let swap = match r.swap {
        Some(m) => resource::swap_event(m, host, ts),
        None => seq![],
    };
    let load = match r.load {
        Some(l) => resource::load_event(l, host, ts),
        None => seq![],
    };
    let netdev = match p.file("net/dev"@) {
        Ok(t) => resource::netdev_pass(procfs::netdev_table(procfs::lines_after(t, 2)), host, ts),
        Err(_) => seq![],
    };
    let cpu = cpu_event(r.cpu, host, ts);
    lemma_joined_contains(mem, swap, e);
    lemma_joined_contains(mem + swap, load, e);
    lemma_joined_contains(mem + swap + load, netdev, e);
    lemma_joined_contains(mem + swap + load + netdev, cpu, e);
}

/// File changes are told one by one, in order.
pub proof fn law_each_change_is_told(
    changes: Seq<fim_types::FimView>,
    ts: i64,
    host: Seq<char>,
    i: int,
)
    requires
        0 <= i < changes.len(),
    ensures
        ({
            let evs = fim_events(changes, ts, host);
            &&& evs.len() == changes.len()
            &&& evs[i].kind is FileChanged
            &&& evs[i].severity is Warning
            &&& evs[i].key == "fim:"@ + changes[i].path
            &&& evs[i].ts == ts
            &&& evs[i].host_id == host
        }),
{
}

/// The patterns that are used are those that can be read as patterns, in order.
pub proof fn law_readable_patterns_are_used(ps: Seq<Seq<char>>, outcomes: Seq<Option<bool>>, t: Seq<char>)
    requires
        outcomes.len() == ps.len(),
    ensures
        usable(ps, outcomes).contains(t) <==> exists|i: int|
            0 <= i < ps.len() && #[trigger] ps[i] == t && outcomes[i] is Some,
    decreases ps.len(),
{
    if ps.len() > 0 {
        let (qs, os) = (ps.drop_last(), outcomes.drop_last());
        law_readable_patterns_are_used(qs, os, t);
        let u = usable(qs, os);
        let n = ps.len() - 1;
        assert(ps.last() == ps[n] && outcomes.last() == outcomes[n]);
        if exists|i: int| 0 <= i < qs.len() && #[trigger] qs[i] == t && os[i] is Some {
            let i = choose|i: int| 0 <= i < qs.len() && #[trigger] qs[i] == t && os[i] is Some;
            assert(ps[i] == t && outcomes[i] is Some);
            let k = choose|k: int| 0 <= k < u.len() && u[k] == t;
            assert(usable(ps, outcomes)[k] == t);
        }
        if exists|i: int| 0 <= i < ps.len() && #[trigger] ps[i] == t && outcomes[i] is Some {
            let i = choose|i: int| 0 <= i < ps.len() && #[trigger] ps[i] == t && outcomes[i] is Some;
            if i < n {
                assert(qs[i] == t && os[i] is Some);
            } else {
                assert(usable(ps, outcomes)[u.len() as int] == t);
            }
        }
        if usable(ps, outcomes).contains(t) {
            let k = choose|k: int| 0 <= k < usable(ps, outcomes).len() && usable(ps, outcomes)[k]
                == t;
            if k < u.len() {
                assert(u[k] == t);
            } else {
                assert(ps[n] == t);
            }
        }
    }
}

} // verus!
