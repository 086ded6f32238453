//! Service states, and services that fail again and again.

use vstd::prelude::*;

use crate::agent::cmd;
use crate::agent::cmd::CommandRunner;
use crate::common;
use crate::common::{AgentEvent, EventKind, EventView, Severity};
use crate::seqs;
use crate::table;
use crate::table::Table;
use crate::text;

verus! {

/// The state of a service, as far as the tracker tells them apart.
#[derive(Debug, Clone, Copy, PartialEq, Eq, Structural)]
pub enum ServiceState {
    Active,
    Failed,
    Other,
}

impl View for ServiceState {
    type V = ServiceState;

    open spec fn view(&self) -> ServiceState {
        *self
    }
}

/// The state that a word of the ACTIVE column means.
pub open spec fn state_of(active: Seq<char>) -> ServiceState {
    if active == "active"@ {
        ServiceState::Active
    } else if active == "failed"@ {
        ServiceState::Failed
    } else {
        ServiceState::Other
    }
}

/// Unit and state of a line of the unit list; none for other units than
/// services. The state is the third word.
pub open spec fn unit_row(line: Seq<char>) -> Option<(Seq<char>, ServiceState)> {
    let w = text::words(line);
    if w.len() > 0 && text::ends(w[0], ".service"@) {
        Some(
            (
                w[0],
                if w.len() > 2 {
                    state_of(w[2])
                } else {
                    ServiceState::Other
                },
            ),
        )
    } else {
        None
    }
}

/// The services of the lines of a unit list. A later line of a unit replaces
/// an earlier one.
pub open spec fn units_of(ls: Seq<Seq<char>>) -> Seq<(Seq<char>, ServiceState)>
    decreases ls.len(),
{
    if ls.len() == 0 {
        seq![]
    } else {
        match unit_row(ls.last()) {
            Some((unit, state)) => table::put(units_of(ls.drop_last()), unit, state),
            None => units_of(ls.drop_last()),
        }
    }
}

/// The arguments that list the services.
pub open spec fn list_args() -> Seq<Seq<char>> {
    seq!["list-units"@, "--type=service"@, "--all"@, "--no-legend"@, "--plain"@]
}

/// Parse a unit list into unit and state. Non-.service lines are ignored.
pub fn parse_units(out: &str) -> (r: Table<String, ServiceState>)
    ensures
        r@ == units_of(text::lines(out@)),
{
    let ls = text::split_lines(out);
    let ghost all = text::lines(out@);
    let mut map: Table<String, ServiceState> = Table::new();
    let mut i: usize = 0;
    assert(map@ == units_of(all.take(0)));
    while i < ls.len()
        invariant
            i <= ls@.len(),
            text::views(ls@) == all,
            map@ == units_of(all.take(i as int)),
        decreases ls@.len() - i,
    {
        proof {
            seqs::lemma_take_step(all, i as int);
            assert(all[i as int] == ls@[i as int]@);
        }
        let ws = text::split_words(ls[i].as_str());
        let ghost w = text::words(all[i as int]);
        assert(text::views(ws@) == w);
        if ws.len() > 0 {
            assert(w[0] == ws@[0]@);
            if text::ends_with(ws[0].as_str(), ".service") {
                let state = if ws.len() > 2 {
                    assert(w[2] == ws@[2]@);
                    if text::same(ws[2].as_str(), "active") {
                        ServiceState::Active
                    } else if text::same(ws[2].as_str(), "failed") {
                        ServiceState::Failed
                    } else {
                        ServiceState::Other
                    }
                } else {
                    ServiceState::Other
                };
                map.set(ws[0].clone(), state);
            }
        }
        i = i + 1;
    }
    assert(all.take(ls@.len() as int) == all);
    map
}

/// Ask the service manager's command for the services.
pub fn ask_units<R: CommandRunner>(runner: &R) -> (out: Result<String, String>)
    ensures
        cmd::answers(*runner, list_args(), out),
{
    let mut args: Vec<&str> = Vec::new();
    args.push("list-units");
    args.push("--type=service");
    args.push("--all");
    args.push("--no-legend");
    args.push("--plain");
    assert(cmd::arg_views(args@) == list_args());
    cmd::run_args(runner, &args)
}

/// List the services and their states. Whatever the runner answers to these
/// arguments, its units are the result, or its error is.
pub fn systemctl_list_units<R: CommandRunner>(runner: &R) -> (r: Result<
    Table<String, ServiceState>,
    String,
>)
    ensures
        exists|out: Result<String, String>|
            {
                &&& #[trigger] cmd::answers(*runner, list_args(), out)
                &&& match out {
                    Ok(t) => r is Ok && r->Ok_0@ == units_of(text::lines(t@)),
                    Err(e) => r is Err && r->Err_0@ == e@,
                }
            },
{
    match ask_units(runner) {
        Ok(t) => Ok(parse_units(t.as_str())),
        Err(e) => Err(e),
    }
}

/// What the tracker remembers: the restart times by unit, in seconds, and the
/// state last seen by unit.
#[verifier::ext_equal]
pub struct CrashView {
    pub restarts: Seq<(Seq<char>, Seq<u64>)>,
    pub last_state: Seq<(Seq<char>, ServiceState)>,
}

/// Whether a unit has just failed: it is failed now, and was not when it was
/// last seen.
pub open spec fn fails_now(v: CrashView, unit: Seq<char>, state: ServiceState) -> bool {
    state is Failed && table::lookup(v.last_state, unit) != Some(ServiceState::Failed)
}

/// The restarts of a unit within the window before `ts`, when it has just
/// failed: a failure counts as a restart unless the unit is seen for the
/// first time.
pub open spec fn restarts_at(v: CrashView, window_secs: int, unit: Seq<char>, ts: u64) -> Seq<u64> {
    let before = match table::lookup(v.restarts, unit) {
        Some(l) => l,
        None => seq![],
    };
    let counted = if table::lookup(v.last_state, unit) is None {
        before
    } else {
        before.push(ts)
    };
    recent_secs(counted, ts, window_secs)
}

/// The times of `s` that lie within `window_secs` before `ts`, or after it.
pub open spec fn recent_secs(s: Seq<u64>, ts: u64, window_secs: int) -> Seq<u64> {
    seqs::kept(s, |t: u64| t + window_secs >= ts)
}

/// Whether a failure completes a crash loop: the third restart within the
/// window.
pub open spec fn is_loop(v: CrashView, window_secs: int, unit: Seq<char>, ts: u64) -> bool {
    table::lookup(v.last_state, unit) is Some && restarts_at(v, window_secs, unit, ts).len() >= 3
}

/// A number of seconds before or after 1970, of one whose bits are read as
/// unsigned.
pub open spec fn signed_secs(secs: u64) -> int {
    if secs <= i64::MAX {
        secs as int
    } else {
        secs - 0x1_0000_0000_0000_0000
    }
}

/// The bits of a number of seconds before or after 1970, read as unsigned.
pub open spec fn unsigned_secs(secs: int) -> u64 {
    if secs >= 0 {
        secs as u64
    } else {
        (secs + 0x1_0000_0000_0000_0000) as u64
    }
}

fn to_signed(secs: u64) -> (r: i64)
    ensures
        r == signed_secs(secs),
{
    if secs <= i64::MAX as u64 {
        secs as i64
    } else {
        -((u64::MAX - secs) as i64) - 1
    }
}

/// The seconds before or after 1970 as `CrashTracker` takes them.
pub fn to_unsigned(secs: i64) -> (r: u64)
    ensures
        r == unsigned_secs(secs as int),
        signed_secs(r) == secs,
{
    if secs >= 0 {
        secs as u64
    } else {
        u64::MAX - (-(secs + 1)) as u64
    }
}

/// The event of a unit that fails, as a crash loop or not, with its restarts
/// within the window.
pub open spec fn failure_event(
    looping: bool,
    count: nat,
    window_secs: int,
    unit: Seq<char>,
    ts: u64,
    host: Seq<char>,
) -> EventView {
    common::event_of(
        unit + "-"@ + host + "-"@ + text::dec(ts as nat),
        (signed_secs(ts) * 1000) as i64,
        host,
        "svc:"@ + unit,
        if looping {
            EventKind::ServiceCrashLoop
        } else {
            EventKind::ServiceFailed
        },
        if looping {
            Severity::Critical
        } else {
            Severity::Warning
        },
        unit + " "@ + (if looping {
            "crash-looping"@
        } else {
            "entered failed state"@
        }) + " ("@ + text::dec(count) + " restarts in "@ + text::dec(window_secs as nat) + "s)"@,
        "systemd"@,
        "ActiveState=failed at t="@ + text::dec(ts as nat),
    )
}

/// The event of a unit that has just failed.
pub open spec fn crash_event(
    v: CrashView,
    window_secs: int,
    unit: Seq<char>,
    ts: u64,
    host: Seq<char>,
) -> EventView {
    failure_event(
        is_loop(v, window_secs, unit, ts),
        restarts_at(v, window_secs, unit, ts).len(),
        window_secs,
        unit,
        ts,
        host,
    )
}

/// What the tracker remembers after seeing a unit.
pub open spec fn crash_after(
    v: CrashView,
    window_secs: int,
    unit: Seq<char>,
    state: ServiceState,
    ts: u64,
) -> CrashView {
    CrashView {
        restarts: if fails_now(v, unit, state) {
            table::put(v.restarts, unit, restarts_at(v, window_secs, unit, ts))
        } else {
            v.restarts
        },
        last_state: table::put(v.last_state, unit, state),
    }
}

/// The events of seeing a unit: one when it has just failed, otherwise none.
pub open spec fn crash_events(
    v: CrashView,
    window_secs: int,
    unit: Seq<char>,
    state: ServiceState,
    ts: u64,
    host: Seq<char>,
) -> Seq<EventView> {
    if fails_now(v, unit, state) {
        seq![crash_event(v, window_secs, unit, ts, host)]
    } else {
        seq![]
    }
}

fn keep_recent_secs(v: &Vec<u64>, ts: u64, window_secs: u64) -> (r: Vec<u64>)
    ensures
        r@ == recent_secs(v@, ts, window_secs as int),
{
    let ghost w = window_secs as int;
    let ghost p = |t: u64| t + w >= ts;
    let mut r: Vec<u64> = Vec::new();
    let mut i: usize = 0;
    assert(r@ == seqs::kept(v@.take(0), p));
    while i < v.len()
        invariant
            i <= v@.len(),
            w == window_secs,
            p == (|t: u64| t + w >= ts),
            r@ == seqs::kept(v@.take(i as int), p),
        decreases v@.len() - i,
    {
        proof {
            seqs::lemma_take_step(v@, i as int);
        }
        if (v[i] as u128) + (window_secs as u128) >= ts as u128 {
            r.push(v[i]);
        }
        i = i + 1;
    }
    assert(v@.take(v@.len() as int) == v@);
    r
}

fn copy_secs(v: &Vec<u64>) -> (r: Vec<u64>)
    ensures
        r@ == v@,
{
    let mut r: Vec<u64> = Vec::new();
    let mut i: usize = 0;
    while i < v.len()
        invariant
            i <= v@.len(),
            r@ == v@.take(i as int),
        decreases v@.len() - i,
    {
        r.push(v[i]);
        assert(r@ == v@.take(i + 1));
        i = i + 1;
    }
    assert(v@.take(v@.len() as int) == v@);
    r
}

/// Tracks service transitions to emit ServiceFailed and ServiceCrashLoop
/// events. Restart counting is transition-aware: only a change INTO the failed
/// state from a non-failed state counts as a restart, so a unit that merely
/// stays failed cannot accumulate fake restarts.
pub struct CrashTracker {
    pub window_secs: u64,
    pub restarts: Table<String, Vec<u64>>,
    pub last_state: Table<String, ServiceState>,
}

impl View for CrashTracker {
    type V = CrashView;

    open spec fn view(&self) -> CrashView {
        CrashView { restarts: self.restarts@, last_state: self.last_state@ }
    }
}

impl CrashTracker {
    /// A tracker that has seen nothing.
    pub fn new(window_secs: u64) -> (r: Self)
        ensures
            r.window_secs == window_secs,
            r@ == (CrashView { restarts: seq![], last_state: seq![] }),
    {
        let r = CrashTracker { window_secs, restarts: Table::new(), last_state: Table::new() };
        assert(r@.restarts =~= seq![] && r@.last_state =~= seq![]);
        r
    }

    /// Observe one unit state at `ts` (unix seconds). Emits:
    /// - ServiceFailed (Warning) on a transition into Failed, or on the first
    ///   ever observation being Failed (no restart counted for the first sighting)
    /// - ServiceCrashLoop (Critical) when >=3 restart transitions happen
    ///   within the window
    pub fn observe(
        &mut self,
        unit: &str,
        state: ServiceState,
        ts: u64,
        host: &str,
        evs: &mut Vec<AgentEvent>,
    )
        requires
            i64::MIN <= signed_secs(ts) * 1000 <= i64::MAX,
        ensures
            final(self)@ == crash_after(
                old(self)@,
                old(self).window_secs as int,
                unit@,
                state,
                ts,
            ),
            final(self).window_secs == old(self).window_secs,
            common::events(final(evs)@) == common::events(old(evs)@) + crash_events(
                old(self)@,
                old(self).window_secs as int,
                unit@,
                state,
                ts,
                host@,
            ),
    {
        let ghost v = self@;
        let ghost w = self.window_secs as int;
        let prev: Option<ServiceState> = match self.last_state.get(&text::owned(unit)) {
            Some(s) => Some(*s),
            None => None,
        };
        assert(prev == table::lookup(v.last_state, unit@));
        self.last_state.set(text::owned(unit), state);
        let first_sighting = prev.is_none();
        let was_failed = match prev {
            Some(ServiceState::Failed) => true,
            _ => false,
        };
        if state == ServiceState::Failed && !was_failed {
            let mut list: Vec<u64> = match self.restarts.get(&text::owned(unit)) {
                Some(l) => copy_secs(l),
                None => Vec::new(),
            };
            if !first_sighting {
                list.push(ts);
            }
            let kept = keep_recent_secs(&list, ts, self.window_secs);
            assert(kept@ == restarts_at(v, w, unit@, ts));
            let count: usize = kept.len();
            let looping = !first_sighting && count >= 3;
            self.restarts.set(text::owned(unit), kept);
            let ev = common::make_event(
                text::owned(unit).concat("-").concat(host).concat("-").concat(
                    text::dec_u64(ts).as_str(),
                ),
                to_signed(ts) * 1000,
                host,
                text::owned("svc:").concat(unit),
                if looping {
                    EventKind::ServiceCrashLoop
                } else {
                    EventKind::ServiceFailed
                },
                if looping {
                    Severity::Critical
                } else {
                    Severity::Warning
                },
                text::owned(unit).concat(" ").concat(
                    if looping {
                        "crash-looping"
                    } else {
                        "entered failed state"
                    },
                ).concat(" (").concat(text::dec_u64(count as u64).as_str()).concat(
                    " restarts in ",
                ).concat(text::dec_u64(self.window_secs).as_str()).concat("s)"),
                "systemd",
                text::owned("ActiveState=failed at t=").concat(text::dec_u64(ts).as_str()),
            );
            assert(ev@ == crash_event(v, w, unit@, ts, host@));
            let ghost before = evs@;
            evs.push(ev);
            proof {
                common::lemma_events_push(before, ev);
                assert(common::events(evs@) == common::events(before) + seq![ev@]);
            }
        } else {
            assert(common::events(evs@) == common::events(old(evs)@) + Seq::<EventView>::empty());
        }
    }
}

/// A unit that stays failed gives no event and counts no restart.
pub proof fn law_staying_failed_is_quiet(
    v: CrashView,
    window_secs: int,
    unit: Seq<char>,
    ts: u64,
    host: Seq<char>,
)
    requires
        table::lookup(v.last_state, unit) == Some(ServiceState::Failed),
    ensures
        crash_events(v, window_secs, unit, ServiceState::Failed, ts, host).len() == 0,
        crash_after(v, window_secs, unit, ServiceState::Failed, ts).restarts == v.restarts,
        table::lookup(
            crash_after(v, window_secs, unit, ServiceState::Failed, ts).last_state,
            unit,
        ) == Some(ServiceState::Failed),
{
    table::law_put_then_lookup(v.last_state, unit, ServiceState::Failed, unit);
}

/// A crash loop is reported only when three restarts lie within the window,
/// this failure among them; seeing a unit for the first time never is one.
pub proof fn law_crash_loop_needs_three_restarts(
    v: CrashView,
    window_secs: int,
    unit: Seq<char>,
    ts: u64,
    host: Seq<char>,
)
    requires
        window_secs >= 0,
    ensures
        crash_event(v, window_secs, unit, ts, host).kind == EventKind::ServiceCrashLoop ==> {
            let list = restarts_at(v, window_secs, unit, ts);
            &&& table::lookup(v.last_state, unit) is Some
            &&& list.len() >= 3
            &&& forall|t: u64| list.contains(t) ==> t + window_secs >= ts
            &&& list.contains(ts)
        },
{
    let before = match table::lookup(v.restarts, unit) {
        Some(l) => l,
        None => seq![],
    };
    let pushed = before.push(ts);
    assert(pushed[before.len() as int] == ts);
    assert(pushed.contains(ts));
    seqs::lemma_kept(pushed, |t: u64| t + window_secs >= ts);
}

/// What is seen of one unit leaves what is remembered of others unchanged.
pub proof fn law_units_are_independent(
    v: CrashView,
    window_secs: int,
    unit: Seq<char>,
    state: ServiceState,
    ts: u64,
    other: Seq<char>,
)
    requires
        other != unit,
    ensures
        table::lookup(crash_after(v, window_secs, unit, state, ts).restarts, other)
            == table::lookup(v.restarts, other),
        table::lookup(crash_after(v, window_secs, unit, state, ts).last_state, other)
            == table::lookup(v.last_state, other),
{
    table::law_put_then_lookup(v.last_state, unit, state, other);
    table::law_put_then_lookup(
        v.restarts,
        unit,
        restarts_at(v, window_secs, unit, ts),
        other,
    );
}

/// A state in which a unit was seen, and when.
#[verifier::ext_equal]
pub struct Sight {
    pub unit: Seq<char>,
    pub state: ServiceState,
    pub ts: u64,
}

/// What the tracker remembers after sights in order, having seen nothing
/// before.
pub open spec fn followed(sights: Seq<Sight>, window_secs: int) -> CrashView
    decreases sights.len(),
{
    if sights.len() == 0 {
        CrashView { restarts: seq![], last_state: seq![] }
    } else {
        let l = sights.last();
        crash_after(followed(sights.drop_last(), window_secs), window_secs, l.unit, l.state, l.ts)
    }
}

/// The state in which a unit was seen last.
pub open spec fn last_state_in(sights: Seq<Sight>, unit: Seq<char>) -> Option<ServiceState>
    decreases sights.len(),
{
    if sights.len() == 0 {
        None
    } else if sights.last().unit == unit {
        Some(sights.last().state)
    } else {
        last_state_in(sights.drop_last(), unit)
    }
}

/// Whether the last sight is one of a unit that went into the failed state
/// from another that it was seen in.
pub open spec fn restarts_last(sights: Seq<Sight>, unit: Seq<char>) -> bool {
    &&& sights.last().unit == unit
    &&& sights.last().state is Failed
    &&& last_state_in(sights.drop_last(), unit) is Some
    &&& last_state_in(sights.drop_last(), unit) != Some(ServiceState::Failed)
}

/// When a unit went into the failed state from another, no longer than the
/// window before `ts`.
pub open spec fn restart_times(
    sights: Seq<Sight>,
    unit: Seq<char>,
    window_secs: int,
    ts: u64,
) -> Seq<u64>
    decreases sights.len(),
{
    if sights.len() == 0 {
        seq![]
    } else {
        let before = restart_times(sights.drop_last(), unit, window_secs, ts);
        if restarts_last(sights, unit) && sights.last().ts + window_secs >= ts {
            before.push(sights.last().ts)
        } else {
            before
        }
    }
}

/// The restarts that are remembered of a unit.
spec fn remembered(v: CrashView, unit: Seq<char>) -> Seq<u64> {
    match table::lookup(v.restarts, unit) {
        Some(l) => l,
        None => seq![],
    }
}

/// Leaving out what an earlier time leaves out changes nothing at a later one.
proof fn lemma_recent_twice(s: Seq<u64>, a: u64, b: u64, window_secs: int)
    requires
        a <= b,
    ensures
        recent_secs(recent_secs(s, a, window_secs), b, window_secs) == recent_secs(
            s,
            b,
            window_secs,
        ),
    decreases s.len(),
{
    if s.len() > 0 {
        lemma_recent_twice(s.drop_last(), a, b, window_secs);
        let init = recent_secs(s.drop_last(), a, window_secs);
        assert(init.push(s.last()).drop_last() =~= init);
    }
}

/// What is remembered of a unit is what its sights show.
proof fn lemma_followed(sights: Seq<Sight>, window_secs: int, unit: Seq<char>, ts: u64)
    requires
        forall|i: int, j: int|
            0 <= i <= j < sights.len() ==> (#[trigger] sights[i]).ts <= (#[trigger] sights[j]).ts,
        sights.len() > 0 ==> sights.last().ts <= ts,
    ensures
        table::lookup(followed(sights, window_secs).last_state, unit) == last_state_in(
            sights,
            unit,
        ),
        recent_secs(remembered(followed(sights, window_secs), unit), ts, window_secs)
            == restart_times(sights, unit, window_secs, ts),
    decreases sights.len(),
{
    if sights.len() > 0 {
        let init = sights.drop_last();
        let l = sights.last();
        assert forall|i: int, j: int| 0 <= i <= j < init.len() implies (#[trigger] init[i]).ts <= (
        #[trigger] init[j]).ts by {
            assert(init[i] == sights[i] && init[j] == sights[j]);
        }
        if init.len() > 0 {
            assert(sights[init.len() - 1].ts <= sights[init.len() as int].ts);
        }
        lemma_followed(init, window_secs, unit, ts);
        let v = followed(init, window_secs);
        table::law_put_then_lookup(v.last_state, l.unit, l.state, unit);
        table::law_put_then_lookup(
            v.restarts,
            l.unit,
            restarts_at(v, window_secs, l.unit, l.ts),
            unit,
        );
        if l.unit == unit && fails_now(v, unit, l.state) {
            let old_list = remembered(v, unit);
            let counted = if table::lookup(v.last_state, unit) is None {
                old_list
            } else {
                old_list.push(l.ts)
            };
            lemma_recent_twice(counted, l.ts, ts, window_secs);
            assert(old_list.push(l.ts).drop_last() =~= old_list);
        }
    }
}

/// Over sights in order of time, a unit that is seen failed, and was not when
/// last seen, gives one event, and any other sight none. It is a crash loop
/// exactly when the unit was seen before and went into the failed state from
/// another three times or more within the window, this time among them. Only
/// sights of the unit itself count.
pub proof fn law_failures_over_a_history(
    sights: Seq<Sight>,
    now: Sight,
    window_secs: int,
    host: Seq<char>,
)
    requires
        forall|i: int, j: int|
            0 <= i <= j < sights.len() ==> (#[trigger] sights[i]).ts <= (#[trigger] sights[j]).ts,
        sights.len() > 0 ==> sights.last().ts <= now.ts,
    ensures
        ({
            let prev = last_state_in(sights, now.unit);
            let n = restart_times(sights.push(now), now.unit, window_secs, now.ts).len();
            crash_events(
                followed(sights, window_secs),
                window_secs,
                now.unit,
                now.state,
                now.ts,
                host,
            ) == (if now.state is Failed && prev != Some(ServiceState::Failed) {
                seq![
                    failure_event(
                        prev is Some && n >= 3,
                        n,
                        window_secs,
                        now.unit,
                        now.ts,
                        host,
                    ),
                ]
            } else {
                seq![]
            })
        }),
{
    let v = followed(sights, window_secs);
    lemma_followed(sights, window_secs, now.unit, now.ts);
    assert(sights.push(now).drop_last() =~= sights);
    let old_list = remembered(v, now.unit);
    assert(old_list.push(now.ts).drop_last() =~= old_list);
}

/// The sights of one unit.
pub open spec fn of_unit(sights: Seq<Sight>, unit: Seq<char>) -> Seq<Sight> {
    seqs::kept(sights, |s: Sight| s.unit == unit)
}

/// What is counted of a unit is what its own sights show: those of other units
/// do not matter.
pub proof fn law_only_own_sights_count(
    sights: Seq<Sight>,
    unit: Seq<char>,
    window_secs: int,
    ts: u64,
)
    ensures
        last_state_in(of_unit(sights, unit), unit) == last_state_in(sights, unit),
        restart_times(of_unit(sights, unit), unit, window_secs, ts) == restart_times(
            sights,
            unit,
            window_secs,
            ts,
        ),
    decreases sights.len(),
{
    if sights.len() > 0 {
        law_only_own_sights_count(sights.drop_last(), unit, window_secs, ts);
        let init = of_unit(sights.drop_last(), unit);
        assert(init.push(sights.last()).drop_last() =~= init);
    }
}

/// What one sight of a service tells: nothing unless it is failed and was not
/// when last seen; then a Warning, or a critical crash loop where it was seen
/// before and this is at least the third restart within the window.
pub proof fn law_a_sight_of_a_service(
    v: CrashView,
    window_secs: int,
    unit: Seq<char>,
    state: ServiceState,
    ts: u64,
    host: Seq<char>,
    times: Seq<u64>,
)
    requires
        table::lookup(v.restarts, unit) == Some(times) || (table::lookup(v.restarts, unit) is None
            && times.len() == 0),
    ensures
        ({
            let evs = crash_events(v, window_secs, unit, state, ts, host);
            let w = crash_after(v, window_secs, unit, state, ts);
            let prev = table::lookup(v.last_state, unit);
            let all = if prev is Some {
                times.push(ts)
            } else {
                times
            };
            let near = all.filter(|t: u64| ts - t <= window_secs);
            let fails = state is Failed && (prev is None || !(prev->0 is Failed));
            &&& !fails ==> evs.len() == 0 && w.restarts == v.restarts
            &&& fails ==> evs.len() == 1 && evs[0].key == "svc:"@ + unit && evs[0].host_id == host
                && table::lookup(w.restarts, unit) == Some(near)
            &&& fails && prev is Some && near.len() >= 3 ==> evs[0].kind is ServiceCrashLoop
                && evs[0].severity is Critical
            &&& fails && (prev is None || near.len() < 3) ==> evs[0].kind is ServiceFailed
                && evs[0].severity is Warning
            &&& fails && ts <= 9_000_000_000_000_000 ==> evs[0].ts == ts * 1000
            &&& table::lookup(w.last_state, unit) == Some(state)
        }),
{
    let prev = table::lookup(v.last_state, unit);
    let all = if prev is Some {
        times.push(ts)
    } else {
        times
    };
    assert(times =~= seq![] || table::lookup(v.restarts, unit) is Some);
    let f = |t: u64| ts - t <= window_secs;
    let g = |t: u64| t + window_secs >= ts;
    seqs::lemma_kept_is_filter(all, g, f);
    assert(restarts_at(v, window_secs, unit, ts) == all.filter(f));
    table::law_put_then_lookup(v.last_state, unit, state, unit);
    table::law_put_then_lookup(v.restarts, unit, all.filter(f), unit);
}

/// A row of the list names a service in its first word and tells its state in
/// the third: active, failed, or something else. Other rows name none.
pub proof fn law_rows_are_read(line: Seq<char>)
    ensures
        ({
            let w = text::words(line);
            let r = unit_row(line);
            &&& r is Some <==> w.len() > 0 && text::ends(w[0], ".service"@)
            &&& r matches Some(u) ==> {
                &&& u.0 == w[0]
                &&& u.1 is Active <==> w.len() > 2 && w[2] == "active"@
                &&& u.1 is Failed <==> w.len() > 2 && w[2] == "failed"@
            }
        }),
{
    reveal_strlit("active");
    reveal_strlit("failed");
    assert("active"@[0] == 'a' && "failed"@[0] == 'f');
}

/// The last row that names a service tells its state.
pub proof fn law_last_row_counts(ls: Seq<Seq<char>>, unit: Seq<char>, i: int)
    requires
        -1 <= i < ls.len(),
        i >= 0 ==> (unit_row(ls[i]) matches Some(u) && u.0 == unit),
        forall|j: int|
            i < j < ls.len() ==> !(unit_row(#[trigger] ls[j]) matches Some(u) && u.0 == unit),
    ensures
        table::lookup(units_of(ls), unit) == (if i >= 0 {
            Some((unit_row(ls[i])->0).1)
        } else {
            None
        }),
        table::distinct(units_of(ls)),
    decreases ls.len(),
{
    if ls.len() > 0 {
        let init = ls.drop_last();
        assert(ls.last() == ls[ls.len() - 1]);
        if i < init.len() {
            assert forall|j: int| i < j < init.len() implies !(unit_row(#[trigger] init[j]) matches Some(u)
                && u.0 == unit) by {
                assert(init[j] == ls[j]);
            }
            law_last_row_counts(init, unit, i);
        } else {
            lemma_units_distinct(init);
        }
        match unit_row(ls.last()) {
            Some((u, s)) => {
                table::law_put_then_lookup(units_of(init), u, s, unit);
                table::law_put_keeps_distinct(units_of(init), u, s);
            },
            None => {},
        }
    }
}

proof fn lemma_units_distinct(ls: Seq<Seq<char>>)
    ensures
        table::distinct(units_of(ls)),
    decreases ls.len(),
{
    if ls.len() > 0 {
        lemma_units_distinct(ls.drop_last());
        match unit_row(ls.last()) {
            Some((u, s)) => {
                table::law_put_keeps_distinct(units_of(ls.drop_last()), u, s);
            },
            None => {},
        }
    }
}

/// A failure is told with the restarts within the window.
pub proof fn law_failures_are_told_in_words(
    looping: bool,
    count: nat,
    window_secs: nat,
    unit: Seq<char>,
    ts: u64,
    host: Seq<char>,
)
    ensures
        failure_event(looping, count, window_secs as int, unit, ts, host).summary == unit + " "@
            + (if looping {
            "crash-looping"@
        } else {
            "entered failed state"@
        }) + " ("@ + text::dec(count) + " restarts in "@ + text::dec(window_secs) + "s)"@,
{
}

} // verus!
