//! Memory, load, cpu and interface readings.

use vstd::prelude::*;

use crate::agent::procfs;
use crate::agent::procfs::{NetDevErrors, ProcFs};
use crate::common;
use crate::common::{AgentEvent, EventKind, EventView, Severity};
use crate::seqs;
use crate::table::Table;
use crate::text;

verus! {

/// A percentage as the program that reads it judges and writes it: whether it
/// is over its threshold, and the number without and with one decimal place.
pub struct GaugeReading {
    pub over: bool,
    pub whole: String,
    pub tenth: String,
}

/// The load average as the program that reads it judges and writes it:
/// severity (Info for none), the load, its ratio to the cores with one decimal
/// place, the number of cores, and load and cores as the evidence shows them.
pub struct LoadReading {
    pub severity: Severity,
    pub load: String,
    pub ratio: String,
    pub cores: String,
    pub load_detail: String,
    pub cores_detail: String,
}

/// An event of a reading of /proc.
pub open spec fn reading_event(
    ts: i64,
    host: Seq<char>,
    key: Seq<char>,
    kind: EventKind,
    sev: Severity,
    summary: Seq<char>,
    detail: Seq<char>,
) -> EventView {
    common::event_of(
        host + "-"@ + text::dec_int(ts as int) + "-"@ + key,
        ts,
        host,
        key,
        kind,
        sev,
        summary,
        "procfs"@,
        detail,
    )
}

fn event(
    ts: i64,
    host: &str,
    key: String,
    kind: EventKind,
    sev: Severity,
    summary: String,
    detail: String,
) -> (e: AgentEvent)
    ensures
        e@ == reading_event(ts, host@, key@, kind, sev, summary@, detail@),
{
    common::make_event(
        text::owned(host).concat("-").concat(text::dec_i64(ts).as_str()).concat("-").concat(
            key.as_str(),
        ),
        ts,
        host,
        key,
        kind,
        sev,
        summary,
        "procfs",
        detail,
    )
}

/// The events of a memory reading.
pub open spec fn mem_event(m: GaugeReading, host: Seq<char>, ts: i64) -> Seq<EventView> {
    if m.over {
        seq![
            reading_event(
                ts,
                host,
                "mem:used"@,
                EventKind::MemHigh,
                Severity::Warning,
                "Memory usage at "@ + m.whole@ + "%"@,
                "MemUsedPct="@ + m.tenth@,
            ),
        ]
    } else {
        seq![]
    }
}

/// The events of a swap reading.
pub open spec fn swap_event(m: GaugeReading, host: Seq<char>, ts: i64) -> Seq<EventView> {
    if m.over {
        seq![
            reading_event(
                ts,
                host,
                "mem:swap"@,
                EventKind::SwapHigh,
                Severity::Warning,
                "Swap usage at "@ + m.whole@ + "%"@,
                "SwapUsedPct="@ + m.tenth@,
            ),
        ]
    } else {
        seq![]
    }
}

/// The events of a load reading.
pub open spec fn load_event(l: LoadReading, host: Seq<char>, ts: i64) -> Seq<EventView> {
    if l.severity is Info {
        seq![]
    } else {
        seq![
            reading_event(
                ts,
                host,
                "load:1m"@,
                EventKind::LoadHigh,
                l.severity,
                "Load "@ + l.load@ + " is "@ + l.ratio@ + "x the "@ + l.cores@ + " cores"@,
                "LoadOneMin="@ + l.load_detail@ + " Ncpu="@ + l.cores_detail@,
            ),
        ]
    }
}

/// One event, as a list.
fn single(e: AgentEvent) -> (r: Vec<AgentEvent>)
    ensures
        common::events(r@) == seq![e@],
{
    let mut r: Vec<AgentEvent> = Vec::new();
    r.push(e);
    assert(common::events(r@) =~= seq![e@]);
    r
}

/// No events.
fn no_events() -> (r: Vec<AgentEvent>)
    ensures
        common::events(r@) == Seq::<EventView>::empty(),
{
    let r: Vec<AgentEvent> = Vec::new();
    assert(common::events(r@) =~= Seq::<EventView>::empty());
    r
}

/// Memory over its threshold is a Warning.
pub fn mem_events(m: &GaugeReading, host: &str, ts: i64) -> (r: Vec<AgentEvent>)
    ensures
        common::events(r@) == mem_event(*m, host@, ts),
{
    if m.over {
        single(
            event(
                ts,
                host,
                text::owned("mem:used"),
                EventKind::MemHigh,
                Severity::Warning,
                text::owned("Memory usage at ").concat(m.whole.as_str()).concat("%"),
                text::owned("MemUsedPct=").concat(m.tenth.as_str()),
            ),
        )
    } else {
        no_events()
    }
}

/// Swap over its threshold is a Warning.
pub fn swap_events(m: &GaugeReading, host: &str, ts: i64) -> (r: Vec<AgentEvent>)
    ensures
        common::events(r@) == swap_event(*m, host@, ts),
{
    if m.over {
        single(
            event(
                ts,
                host,
                text::owned("mem:swap"),
                EventKind::SwapHigh,
                Severity::Warning,
                text::owned("Swap usage at ").concat(m.whole.as_str()).concat("%"),
                text::owned("SwapUsedPct=").concat(m.tenth.as_str()),
            ),
        )
    } else {
        no_events()
    }
}

/// Load over a threshold is an event of that threshold's severity.
pub fn load_events(l: &LoadReading, host: &str, ts: i64) -> (r: Vec<AgentEvent>)
    ensures
        common::events(r@) == load_event(*l, host@, ts),
{
    if l.severity == Severity::Info {
        no_events()
    } else {
        single(
            event(
                ts,
                host,
                text::owned("load:1m"),
                EventKind::LoadHigh,
                l.severity,
                text::owned("Load ").concat(l.load.as_str()).concat(" is ").concat(
                    l.ratio.as_str(),
                ).concat("x the ").concat(l.cores.as_str()).concat(" cores"),
                text::owned("LoadOneMin=").concat(l.load_detail.as_str()).concat(" Ncpu=").concat(
                    l.cores_detail.as_str(),
                ),
            ),
        )
    }
}

/// The event of an interface that counts errors; none without errors.
pub open spec fn netdev_event(e: (Seq<char>, NetDevErrors), host: Seq<char>, ts: i64) -> Option<
    EventView,
> {
    if e.1.rx > 0 || e.1.tx > 0 {
        Some(
            reading_event(
                ts,
                host,
                "netdev:"@ + e.0,
                EventKind::NetDevErrors,
                Severity::Warning,
                e.0 + " reports interface errors (rx "@ + text::dec(e.1.rx as nat) + ", tx "@
                    + text::dec(e.1.tx as nat) + ")"@,
                "RxErrors="@ + text::dec(e.1.rx as nat) + " TxErrors="@ + text::dec(
                    e.1.tx as nat,
                ),
            ),
        )
    } else {
        None
    }
}

/// The events of the interfaces that count errors.
pub open spec fn netdev_pass(
    errs: Seq<(Seq<char>, NetDevErrors)>,
    host: Seq<char>,
    ts: i64,
) -> Seq<EventView> {
    seqs::picked(errs, |e: (Seq<char>, NetDevErrors)| netdev_event(e, host, ts))
}

/// Interfaces with errors are Warnings, in the order of the table.
pub fn netdev_events(errs: &Table<String, NetDevErrors>, host: &str, ts: i64) -> (out: Vec<
    AgentEvent,
>)
    ensures
        common::events(out@) == netdev_pass(errs@, host@, ts),
{
    broadcast use common::lemma_events_push;

    let ghost h = host@;
    let ghost f = |e: (Seq<char>, NetDevErrors)| netdev_event(e, h, ts);
    let mut out: Vec<AgentEvent> = no_events();
    let mut i: usize = 0;
    while i < errs.entries.len()
        invariant
            i <= errs.entries@.len(),
            errs@.len() == errs.entries@.len(),
            h == host@,
            f == (|e: (Seq<char>, NetDevErrors)| netdev_event(e, h, ts)),
            common::events(out@) == seqs::picked(errs@.take(i as int), f),
        decreases errs.entries@.len() - i,
    {
        proof {
            seqs::lemma_take_step(errs@, i as int);
        }
        let iface = errs.entries[i].0.as_str();
        let rx: u64 = errs.entries[i].1.rx;
        let tx: u64 = errs.entries[i].1.tx;
        assert(errs@[i as int] == (iface@, errs.entries@[i as int].1));
        if rx > 0 || tx > 0 {
            let ev = event(
                ts,
                host,
                text::owned("netdev:").concat(iface),
                EventKind::NetDevErrors,
                Severity::Warning,
                text::owned(iface).concat(" reports interface errors (rx ").concat(
                    text::dec_u64(rx).as_str(),
                ).concat(", tx ").concat(text::dec_u64(tx).as_str()).concat(")"),
                text::owned("RxErrors=").concat(text::dec_u64(rx).as_str()).concat(
                    " TxErrors=",
                ).concat(text::dec_u64(tx).as_str()),
            );
            out.push(ev);
        }
        i = i + 1;
    }
    assert(errs@.take(errs@.len() as int) == errs@);
    out
}

/// A sample of the cpu counters: totals, and what was added since the last
/// sample.
#[derive(Debug, Clone, Copy, PartialEq, Eq, Structural)]
pub struct CpuSample {
    pub total: u64,
    pub busy: u64,
    pub total_delta: u64,
    pub busy_delta: u64,
}

/// The difference of two numbers, 0 when the second is larger.
pub open spec fn minus(a: u64, b: u64) -> u64 {
    if a >= b {
        (a - b) as u64
    } else {
        0
    }
}

/// The sample that follows a previous one, given total and idle counters. The
/// first sample counts nothing as added.
pub open spec fn sample_of(total: u64, idle: u64, prev_total: u64, prev_busy: u64) -> CpuSample {
    let busy = minus(total, idle);
    CpuSample {
        total,
        busy,
        total_delta: if prev_total == 0 {
            0
        } else {
            minus(total, prev_total)
        },
        busy_delta: if prev_total == 0 {
            0
        } else {
            minus(busy, prev_busy)
        },
    }
}

/// Sample cpu ticks and what was added since the previous sample. Counters
/// that cannot be read are taken as unchanged.
pub fn cpu_usage_now(p: &ProcFs, prev_total: u64, prev_busy: u64) -> (r: CpuSample)
    ensures
        r == (match p.file("stat"@) {
            Ok(t) => match procfs::cpu_line(t) {
                Ok(v) => sample_of(v.0 as u64, v.1 as u64, prev_total, prev_busy),
                Err(_) => sample_of(
                    prev_total,
                    minus(prev_total, prev_busy),
                    prev_total,
                    prev_busy,
                ),
            },
            Err(_) => sample_of(
                prev_total,
                minus(prev_total, prev_busy),
                prev_total,
                prev_busy,
            ),
        }),
{
    let (total, idle): (u64, u64) = match p.cpu_ticks() {
        Ok(v) => v,
        Err(_) => (prev_total, prev_total.saturating_sub(prev_busy)),
    };
    let busy: u64 = total.saturating_sub(idle);
    if prev_total == 0 {
        return CpuSample { total, busy, total_delta: 0, busy_delta: 0 };
    }
    CpuSample {
        total,
        busy,
        total_delta: total.saturating_sub(prev_total),
        busy_delta: busy.saturating_sub(prev_busy),
    }
}

/// Memory and swap over their thresholds are one Warning each, of their own
/// kind and key, and the load is one event of its severity; within the
/// thresholds nothing is reported.
pub proof fn law_readings_over_the_threshold_are_reported(
    m: GaugeReading,
    l: LoadReading,
    host: Seq<char>,
    ts: i64,
)
    ensures
        ({
            let evs = mem_event(m, host, ts);
            &&& m.over ==> evs.len() == 1 && evs[0].kind is MemHigh && evs[0].severity is Warning
                && evs[0].key == "mem:used"@ && evs[0].ts == ts && evs[0].host_id == host
            &&& !m.over ==> evs.len() == 0
        }),
        ({
            let evs = swap_event(m, host, ts);
            &&& m.over ==> evs.len() == 1 && evs[0].kind is SwapHigh && evs[0].severity is Warning
                && evs[0].key == "mem:swap"@ && evs[0].ts == ts && evs[0].host_id == host
            &&& !m.over ==> evs.len() == 0
        }),
        ({
            let evs = load_event(l, host, ts);
            &&& !(l.severity is Info) ==> evs.len() == 1 && evs[0].kind is LoadHigh
                && evs[0].severity == l.severity && evs[0].key == "load:1m"@ && evs[0].ts == ts
                && evs[0].host_id == host
            &&& l.severity is Info ==> evs.len() == 0
        }),
{
}

/// Each interface that counts an error of either direction is one Warning, in
/// the order of the table, and an interface that counts none is not reported.
pub proof fn law_interfaces_with_errors_are_reported(
    errs: Seq<(Seq<char>, NetDevErrors)>,
    host: Seq<char>,
    ts: i64,
)
    ensures
        ({
            let evs = netdev_pass(errs, host, ts);
            let bad = errs.filter(|e: (Seq<char>, NetDevErrors)| e.1.rx + e.1.tx > 0);
            &&& evs.len() == bad.len()
            &&& forall|i: int|
                0 <= i < evs.len() ==> (#[trigger] evs[i]).kind is NetDevErrors
                    && evs[i].severity is Warning && evs[i].key == "netdev:"@ + bad[i].0
                    && evs[i].ts == ts && evs[i].host_id == host
        }),
    decreases errs.len(),
{
    reveal(Seq::filter);
    if errs.len() > 0 {
        law_interfaces_with_errors_are_reported(errs.drop_last(), host, ts);
    }
}

/// What a sample adds to the one before it: with counters that do not go back,
/// the ticks since, and of them those that were not idle. A first sample, and
/// counters that cannot be read, add nothing.
pub proof fn law_samples_add_up(total: u64, idle: u64, prev_total: u64, prev_idle: u64)
    requires
        idle <= total,
        prev_idle <= prev_total,
    ensures
        ({
            let prev_busy = (prev_total - prev_idle) as u64;
            let r = sample_of(total, idle, prev_total, prev_busy);
            &&& r.total == total
            &&& r.busy + idle == total
            &&& prev_total > 0 && prev_total <= total && prev_busy <= r.busy ==> r.total_delta
                == total - prev_total && r.busy_delta == (total - prev_total) - (idle - prev_idle)
            &&& prev_total > 0 && total < prev_total ==> r.total_delta == 0
            &&& prev_total > 0 && r.busy < prev_busy ==> r.busy_delta == 0
            &&& prev_total == 0 ==> r.total_delta == 0 && r.busy_delta == 0
        }),
{
}

} // verus!
