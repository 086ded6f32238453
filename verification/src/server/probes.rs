//! External probes: when failures in a row make a host unreachable.

use vstd::prelude::*;

use crate::common;
use crate::common::{AgentEvent, EventKind, EventView, Severity};
use crate::ids;
use crate::table;
use crate::table::Table;
use crate::text;

verus! {

broadcast use common::lemma_events_push;

/// One external HTTP(S) endpoint to probe.
#[derive(Debug, Clone)]
pub struct ProbeConfig {
    pub url: String,
    pub interval_secs: u64,
    pub timeout_secs: u64,
    /// Consecutive failures that trigger one HostUnreachable event.
    pub fail_threshold: u32,
}

impl Default for ProbeConfig {
    fn default() -> (r: Self)
        ensures
            r.url@ == Seq::<char>::empty(),
            r.interval_secs == 30,
            r.timeout_secs == 10,
            r.fail_threshold == 3,
    {
        let url = String::new();
        assert(url@ =~= Seq::<char>::empty());
        ProbeConfig { url, interval_secs: 30, timeout_secs: 10, fail_threshold: 3 }
    }
}

/// Whether a probe that got a response with a status, or none in time, found
/// its endpoint well: only a 2xx response is.
pub fn probe_ok(status: Option<u16>) -> (r: bool)
    ensures
        r == (status matches Some(s) && 200 <= s < 300),
{
    match status {
        Some(s) => s >= 200 && s < 300,
        None => false,
    }
}

/// Consecutive-failure episode state per probe URL.
#[derive(Clone, Copy)]
pub struct EpisodeTracker {
    fails: u32,
}

impl View for EpisodeTracker {
    type V = int;

    closed spec fn view(&self) -> int {
        self.fails as int
    }
}

/// The failures in a row after one more result: none after a success, and
/// none again once they reach the threshold.
pub open spec fn fails_after(fails: int, ok: bool, threshold: int) -> int {
    if ok || fails + 1 >= threshold {
        0
    } else {
        fails + 1
    }
}

/// Whether a result completes an episode: it is a failure, and the failures in
/// a row reach the threshold.
pub open spec fn completes(fails: int, ok: bool, threshold: int) -> bool {
    !ok && fails + 1 >= threshold
}

/// The failures in a row after `n` failures from none.
pub open spec fn fails_in_a_row(n: nat, threshold: int) -> int
    decreases n,
{
    if n == 0 {
        0
    } else {
        fails_after(fails_in_a_row((n - 1) as nat, threshold), false, threshold)
    }
}

/// Of failures in a row, exactly every `threshold`-th completes an episode.
pub proof fn law_episodes_come_every_threshold(n: nat, threshold: int)
    requires
        threshold >= 1,
    ensures
        fails_in_a_row(n, threshold) == n as int % threshold,
        completes(fails_in_a_row(n, threshold), false, threshold) <==> (n as int + 1) % threshold == 0,
    decreases n,
{
    if n > 0 {
        law_episodes_come_every_threshold((n - 1) as nat, threshold);
        lemma_next_remainder(n - 1, threshold);
    } else {
        assert(0int % threshold == 0) by (nonlinear_arith)
            requires
                threshold >= 1,
        ;
    }
    lemma_next_remainder(n as int, threshold);
}

proof fn lemma_next_remainder(n: int, t: int)
    requires
        n >= 0,
        t >= 1,
    ensures
        0 <= n % t < t,
        (n + 1) % t == (if n % t + 1 >= t {
            0
        } else {
            n % t + 1
        }),
{
    vstd::arithmetic::div_mod::lemma_fundamental_div_mod(n, t);
    let q = n / t;
    let r = n % t;
    assert(0 <= r < t) by (nonlinear_arith)
        requires
            t >= 1,
            r == n % t,
    ;
    if r + 1 >= t {
        assert(n + 1 == (q + 1) * t + 0) by (nonlinear_arith)
            requires
                n == t * q + r,
                r + 1 == t,
        ;
        vstd::arithmetic::div_mod::lemma_fundamental_div_mod_converse(n + 1, t, q + 1, 0);
    } else {
        assert(n + 1 == q * t + (r + 1)) by (nonlinear_arith)
            requires
                n == t * q + r,
        ;
        vstd::arithmetic::div_mod::lemma_fundamental_div_mod_converse(n + 1, t, q, r + 1);
    }
}

impl EpisodeTracker {
    #[verifier::type_invariant]
    spec fn below_the_limit(self) -> bool {
        self.fails < u32::MAX
    }

    /// Observe one probe result. Returns true when this failure completes an
    /// episode (consecutive fails == threshold): the caller emits the event.
    /// A success resets the counter.
    pub fn observe(&mut self, ok: bool, threshold: u32) -> (r: bool)
        ensures
            r == completes(old(self)@, ok, threshold as int),
            final(self)@ == fails_after(old(self)@, ok, threshold as int),
    {
        proof {
            use_type_invariant(&*self);
        }
        if ok {
            self.fails = 0;
            return false;
        }
        let fails: u32 = self.fails + 1;
        if fails >= threshold {
            self.fails = 0;
            true
        } else {
            self.fails = fails;
            false
        }
    }

    /// The failures in a row.
    pub fn fails(&self) -> (r: u32)
        ensures
            r == self@,
    {
        self.fails
    }
}

impl Default for EpisodeTracker {
    fn default() -> (r: Self)
        ensures
            r@ == 0,
    {
        EpisodeTracker { fails: 0 }
    }
}

/// Checker state across probes: an episode tracker for each URL.
pub struct Checker {
    pub trackers: Table<String, EpisodeTracker>,
}

/// The failures in a row of a URL; none before its first probe.
pub open spec fn fails_of(trackers: Seq<(Seq<char>, int)>, url: Seq<char>) -> int {
    match table::lookup(trackers, url) {
        Some(n) => n,
        None => 0,
    }
}

/// The event of a completed episode, whatever its id.
pub open spec fn unreachable_event(url: Seq<char>, threshold: u32, now: i64) -> EventView {
    common::event_of(
        seq![],
        now,
        "uptime"@,
        "uptime:"@ + url,
        EventKind::HostUnreachable,
        Severity::Critical,
        url + " unreachable after "@ + text::dec(threshold as nat)
            + " consecutive probe failures"@,
        "uptime"@,
        "ProbeUrl="@ + url + " FailThreshold="@ + text::dec(threshold as nat),
    )
}

/// The event of a completed episode.
pub fn make_unreachable_event(id: String, probe: &ProbeConfig, now: i64) -> (e: AgentEvent)
    ensures
        e@ == (EventView { id: id@, ..unreachable_event(probe.url@, probe.fail_threshold, now) }),
{
    let n = text::dec_u64(probe.fail_threshold as u64);
    common::make_event(
        id,
        now,
        "uptime",
        text::owned("uptime:").concat(probe.url.as_str()),
        EventKind::HostUnreachable,
        Severity::Critical,
        text::owned(probe.url.as_str()).concat(" unreachable after ").concat(n.as_str()).concat(
            " consecutive probe failures",
        ),
        "uptime",
        text::owned("ProbeUrl=").concat(probe.url.as_str()).concat(" FailThreshold=").concat(
            n.as_str(),
        ),
    )
}

/// The trackers after a result for a URL.
pub open spec fn trackers_after(
    trackers: Seq<(Seq<char>, int)>,
    url: Seq<char>,
    threshold: u32,
    ok: bool,
) -> Seq<(Seq<char>, int)> {
    table::put(trackers, url, fails_after(fails_of(trackers, url), ok, threshold as int))
}

/// The event that a result for a URL brings, whatever its id.
pub open spec fn tick_event(
    trackers: Seq<(Seq<char>, int)>,
    url: Seq<char>,
    threshold: u32,
    ok: bool,
    now: i64,
) -> Option<EventView> {
    if completes(fails_of(trackers, url), ok, threshold as int) {
        Some(unreachable_event(url, threshold, now))
    } else {
        None
    }
}

/// One probe and what came of it.
pub struct ProbeResult {
    pub probe: ProbeConfig,
    pub ok: bool,
}

/// What the results of several probes bring, in turn; a probe without a URL
/// is passed over.
#[verifier::ext_equal]
pub struct TickView {
    pub trackers: Seq<(Seq<char>, int)>,
    pub events: Seq<EventView>,
}

/// What a list of results brings.
pub open spec fn ticks(
    trackers: Seq<(Seq<char>, int)>,
    results: Seq<ProbeResult>,
    now: i64,
) -> TickView
    decreases results.len(),
{
    if results.len() == 0 {
        TickView { trackers, events: seq![] }
    } else {
        let before = ticks(trackers, results.drop_last(), now);
        let p = results.last().probe;
        let ok = results.last().ok;
        if p.url@.len() == 0 {
            before
        } else {
            TickView {
                trackers: trackers_after(before.trackers, p.url@, p.fail_threshold, ok),
                events: match tick_event(before.trackers, p.url@, p.fail_threshold, ok, now) {
                    Some(e) => before.events.push(e),
                    None => before.events,
                },
            }
        }
    }
}

impl Checker {
    /// A checker that has probed nothing yet.
    pub fn new() -> (r: Self)
        ensures
            r.trackers@ == Seq::<(Seq<char>, int)>::empty(),
    {
        Checker { trackers: Table::new() }
    }

    /// One probe tick: given what the probe found, update the episode state
    /// and emit HostUnreachable when an episode completes.
    pub fn tick(&mut self, probe: &ProbeConfig, ok: bool, now: i64) -> (r: Option<AgentEvent>)
        ensures
            final(self).trackers@ == trackers_after(
                old(self).trackers@,
                probe.url@,
                probe.fail_threshold,
                ok,
            ),
            match r {
                Some(e) => tick_event(
                    old(self).trackers@,
                    probe.url@,
                    probe.fail_threshold,
                    ok,
                    now,
                ) == Some(common::without_id(e@)) && ids::is_random_id(e.id@),
                None => tick_event(
                    old(self).trackers@,
                    probe.url@,
                    probe.fail_threshold,
                    ok,
                    now,
                ) is None,
            },
    {
        let mut ep = match self.trackers.get(&probe.url) {
            Some(t) => *t,
            None => EpisodeTracker::default(),
        };
        let done = ep.observe(ok, probe.fail_threshold);
        self.trackers.set(probe.url.clone(), ep);
        if done {
            let e = make_unreachable_event(ids::fresh_id(), probe, now);
            assert(common::without_id(e@) =~= unreachable_event(
                probe.url@,
                probe.fail_threshold,
                now,
            ));
            Some(e)
        } else {
            None
        }
    }

    /// Run one tick for every configured probe with a URL.
    pub fn tick_all(&mut self, results: &Vec<ProbeResult>, now: i64) -> (r: Vec<AgentEvent>)
        ensures
            final(self).trackers@ == ticks(old(self).trackers@, results@, now).trackers,
            common::without_ids(common::events(r@)) == ticks(
                old(self).trackers@,
                results@,
                now,
            ).events,
            forall|i: int| 0 <= i < r@.len() ==> ids::is_random_id((#[trigger] r@[i]).id@),
    {
        let ghost start = self.trackers@;
        let mut out: Vec<AgentEvent> = Vec::new();
        let mut i: usize = 0;
        assert(common::without_ids(common::events(out@)) =~= seq![]);
        assert(results@.take(0) =~= seq![]);
        while i < results.len()
            invariant
                i <= results@.len(),
                self.trackers@ == ticks(start, results@.take(i as int), now).trackers,
                common::without_ids(common::events(out@)) == ticks(
                    start,
                    results@.take(i as int),
                    now,
                ).events,
                forall|k: int| 0 <= k < out@.len() ==> ids::is_random_id((#[trigger] out@[k]).id@),
            decreases results@.len() - i,
        {
            proof {
                assert(results@.take(i + 1).drop_last() =~= results@.take(i as int));
                assert(results@.take(i + 1).last() == results@[i as int]);
                reveal_strlit("");
            }
            let p = &results[i].probe;
            if !text::same(p.url.as_str(), "") {
                assert(p.url@.len() == 0 ==> p.url@ =~= ""@);
                match self.tick(p, results[i].ok, now) {
                    Some(e) => {
                        let ghost before = out@;
                        let ghost ev = e@;
                        out.push(e);
                        assert(common::without_ids(common::events(out@)) =~= common::without_ids(
                            common::events(before),
                        ).push(common::without_id(ev)));
                    },
                    None => {},
                }
            }
            i = i + 1;
        }
        assert(results@.take(results@.len() as int) =~= results@);
        out
    }
}

/// A probe that answers starts the counting anew and tells nothing. One that
/// fails is told as a critical loss of the host when its failures in a row
/// reach the threshold, and the counting then starts anew.
pub proof fn law_a_probe_result(
    trackers: Seq<(Seq<char>, int)>,
    url: Seq<char>,
    threshold: u32,
    now: i64,
    fails: int,
)
    requires
        table::lookup(trackers, url) == Some(fails) || (table::lookup(trackers, url) is None
            && fails == 0),
    ensures
        tick_event(trackers, url, threshold, true, now) is None,
        table::lookup(trackers_after(trackers, url, threshold, true), url) == Some(0int),
        fails + 1 < threshold ==> tick_event(trackers, url, threshold, false, now) is None
            && table::lookup(trackers_after(trackers, url, threshold, false), url) == Some(
            fails + 1,
        ),
        fails + 1 >= threshold ==> table::lookup(
            trackers_after(trackers, url, threshold, false),
            url,
        ) == Some(0int) && (tick_event(trackers, url, threshold, false, now) matches Some(e)
            && e.kind is HostUnreachable && e.severity is Critical && e.key == "uptime:"@ + url
            && e.ts == now && e.host_id == "uptime"@),
        forall|ok: bool, other: Seq<char>|
            other != url ==> #[trigger] table::lookup(
                trackers_after(trackers, url, threshold, ok),
                other,
            ) == table::lookup(trackers, other),
{
    table::law_put_then_lookup(trackers, url, 0, url);
    table::law_put_then_lookup(trackers, url, fails + 1, url);
    assert forall|ok: bool, other: Seq<char>| other != url implies #[trigger] table::lookup(
        trackers_after(trackers, url, threshold, ok),
        other,
    ) == table::lookup(trackers, other) by {
        table::law_put_then_lookup(
            trackers,
            url,
            fails_after(fails_of(trackers, url), ok, threshold as int),
            other,
        );
    }
}

/// Probes do not disturb each other: with each URL probed once, what a round
/// tells and remembers of a URL is what its own result brings.
pub proof fn law_probes_are_independent(
    trackers: Seq<(Seq<char>, int)>,
    results: Seq<ProbeResult>,
    now: i64,
    i: int,
)
    requires
        0 <= i < results.len(),
        results[i].probe.url@.len() > 0,
        forall|a: int, b: int|
            0 <= a < b < results.len() ==> (#[trigger] results[a]).probe.url@ != (
            #[trigger] results[b]).probe.url@,
    ensures
        ({
            let r = results[i];
            let w = ticks(trackers, results, now);
            &&& tick_event(trackers, r.probe.url@, r.probe.fail_threshold, r.ok, now) matches Some(e)
                ==> w.events.contains(e)
            &&& table::lookup(w.trackers, r.probe.url@) == table::lookup(
                trackers_after(trackers, r.probe.url@, r.probe.fail_threshold, r.ok),
                r.probe.url@,
            )
        }),
    decreases results.len(),
{
    let init = results.drop_last();
    let before = ticks(trackers, init, now);
    let l = results.last();
    let r = results[i];
    let url = r.probe.url@;
    let w = ticks(trackers, results, now);
    assert(l == results[results.len() - 1]);
    assert forall|a: int, b: int| 0 <= a < b < init.len() implies (#[trigger] init[a]).probe.url@
        != (#[trigger] init[b]).probe.url@ by {
        assert(init[a] == results[a] && init[b] == results[b]);
    }
    if i < init.len() {
        assert(init[i] == results[i]);
        law_probes_are_independent(trackers, init, now, i);
        assert(results[i].probe.url@ != results[results.len() - 1].probe.url@);
        let n = fails_after(
            fails_of(before.trackers, l.probe.url@),
            l.ok,
            l.probe.fail_threshold as int,
        );
        table::law_put_then_lookup(before.trackers, l.probe.url@, n, url);
        if let Some(e) = tick_event(trackers, url, r.probe.fail_threshold, r.ok, now) {
            let k = choose|k: int| 0 <= k < before.events.len() && before.events[k] == e;
            assert(w.events[k] == e);
        }
    } else {
        assert forall|a: int| 0 <= a < init.len() implies (#[trigger] init[a]).probe.url@ != url by {
            assert(init[a] == results[a]);
            assert(results[a].probe.url@ != results[results.len() - 1].probe.url@);
        }
        lemma_other_probes(trackers, init, now, url);
        let n = fails_after(fails_of(trackers, url), r.ok, r.probe.fail_threshold as int);
        table::law_put_then_lookup(before.trackers, url, n, url);
        table::law_put_then_lookup(trackers, url, n, url);
        if let Some(e) = tick_event(trackers, url, r.probe.fail_threshold, r.ok, now) {
            assert(w.events == before.events.push(e));
            assert(w.events[before.events.len() as int] == e);
        }
    }
}

proof fn lemma_other_probes(
    trackers: Seq<(Seq<char>, int)>,
    results: Seq<ProbeResult>,
    now: i64,
    url: Seq<char>,
)
    requires
        forall|a: int| 0 <= a < results.len() ==> (#[trigger] results[a]).probe.url@ != url,
    ensures
        table::lookup(ticks(trackers, results, now).trackers, url) == table::lookup(trackers, url),
    decreases results.len(),
{
    if results.len() > 0 {
        let init = results.drop_last();
        assert forall|a: int| 0 <= a < init.len() implies (#[trigger] init[a]).probe.url@ != url by {
            assert(init[a] == results[a]);
        }
        lemma_other_probes(trackers, init, now, url);
        let before = ticks(trackers, init, now);
        let l = results.last();
        assert(l == results[results.len() - 1]);
        let n = fails_after(
            fails_of(before.trackers, l.probe.url@),
            l.ok,
            l.probe.fail_threshold as int,
        );
        table::law_put_then_lookup(before.trackers, l.probe.url@, n, url);
    }
}

} // verus!
