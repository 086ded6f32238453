//! Disk and inode usage, and filesystems that went read-only.

use vstd::prelude::*;

use crate::agent::procfs;
use crate::agent::procfs::{Mount, ProcFs};
use crate::common;
use crate::common::{AgentEvent, EventKind, EventView, Severity};
use crate::seqs;
use crate::table;
use crate::table::Table;
use crate::text;

verus! {

/// What the file system says of a mount. The fractions are judged and written
/// out by the program that reads them: severity, percentage without and with
/// one decimal place.
pub struct MountStat {
    pub mount_point: String,
    pub disk_severity: Severity,
    pub disk_whole: String,
    pub disk_tenth: String,
    pub total_bytes: u64,
    pub inode_severity: Severity,
    pub inode_whole: String,
    pub inode_tenth: String,
    pub read_only: bool,
}

/// Whether a mount went read-only: it is now, and was not when last seen.
pub open spec fn went_read_only(
    baseline: Seq<(Seq<char>, bool)>,
    mount: Seq<char>,
    read_only: bool,
) -> bool {
    read_only && table::lookup(baseline, mount) == Some(false)
}

/// Update the read-only baseline for `mount` and report whether a FsReadOnly
/// event should fire. First sight seeds the baseline (no event: a boot-time
/// ro mount like a systemd bind-mount is normal); a rw to ro flip fires;
/// ro to ro is quiet. The baseline always reflects the last seen flag, so a
/// ro, rw, ro sequence re-fires.
pub fn ro_transition(baseline: &mut Table<String, bool>, mount: &str, read_only: bool) -> (r: bool)
    ensures
        r == went_read_only(old(baseline)@, mount@, read_only),
        final(baseline)@ == table::put(old(baseline)@, mount@, read_only),
{
    let was_writable = match baseline.get(&text::owned(mount)) {
        Some(b) => !*b,
        None => false,
    };
    baseline.set(text::owned(mount), read_only);
    read_only && was_writable
}

/// A mount fires exactly when it is seen writable and then read-only: never
/// at first sight, not again while it stays read-only, and again after it was
/// writable in between.
pub proof fn law_read_only_fires_on_the_flip(
    baseline: Seq<(Seq<char>, bool)>,
    mount: Seq<char>,
    first: bool,
    second: bool,
)
    ensures
        table::lookup(baseline, mount) is None ==> !went_read_only(baseline, mount, first),
        went_read_only(table::put(baseline, mount, first), mount, second) <==> !first && second,
{
    table::law_put_then_lookup(baseline, mount, first, mount);
}

/// The first of the readings for a mount point.
pub open spec fn stat_for(stats: Seq<MountStat>, mount: Seq<char>) -> Option<MountStat>
    decreases stats.len(),
{
    if stats.len() == 0 {
        None
    } else if stats[0].mount_point@ == mount {
        Some(stats[0])
    } else {
        stat_for(stats.skip(1), mount)
    }
}

fn find_stat<'a>(stats: &'a Vec<MountStat>, mount: &str) -> (r: Option<&'a MountStat>)
    ensures
        match r {
            Some(s) => stat_for(stats@, mount@) == Some(*s),
            None => stat_for(stats@, mount@) is None,
        },
{
    let mut i: usize = 0;
    assert(stats@.skip(0) == stats@);
    while i < stats.len()
        invariant
            i <= stats@.len(),
            stat_for(stats@.skip(i as int), mount@) == stat_for(stats@, mount@),
        decreases stats@.len() - i,
    {
        assert(stats@.skip(i as int)[0] == stats@[i as int]);
        if text::same(stats[i].mount_point.as_str(), mount) {
            return Some(&stats[i]);
        }
        assert(stats@.skip(i as int).skip(1) == stats@.skip(i + 1));
        i = i + 1;
    }
    None
}

/// The event of a disk that is full or nearly so.
pub open spec fn disk_event(m: Seq<char>, s: MountStat, ts: i64, host: Seq<char>) -> EventView {
    common::event_of(
        "disk-"@ + m + "-"@ + text::dec_int(ts as int),
        ts,
        host,
        "disk:"@ + m,
        EventKind::DiskHigh,
        s.disk_severity,
        "disk usage at "@ + s.disk_whole@ + "% on "@ + m,
        "disk"@,
        "Mount="@ + m + " UsedPct="@ + s.disk_tenth@ + " TotalBytes="@ + text::dec(
            s.total_bytes as nat,
        ),
    )
}

/// The event of a filesystem that runs out of inodes.
pub open spec fn inode_event(m: Seq<char>, s: MountStat, ts: i64, host: Seq<char>) -> EventView {
    common::event_of(
        "inode-"@ + m + "-"@ + text::dec_int(ts as int),
        ts,
        host,
        "inode:"@ + m,
        EventKind::InodeHigh,
        Severity::Critical,
        "inode usage at "@ + s.inode_whole@ + "% on "@ + m,
        "disk"@,
        "Mount="@ + m + " InodePct="@ + s.inode_tenth@,
    )
}

/// The event of a filesystem that went read-only.
pub open spec fn read_only_event(m: Seq<char>, ts: i64, host: Seq<char>) -> EventView {
    common::event_of(
        "fsro-"@ + m + "-"@ + text::dec_int(ts as int),
        ts,
        host,
        "fsro:"@ + m,
        EventKind::FsReadOnly,
        Severity::Critical,
        "filesystem "@ + m + " went read-only"@,
        "disk"@,
        "Mount="@ + m,
    )
}

/// The events, and the read-only baseline, after looking at mounts in order.
/// A mount without readings is skipped.
pub open spec fn disk_pass(
    mounts: Seq<procfs::MountView>,
    stats: Seq<MountStat>,
    ts: i64,
    host: Seq<char>,
    baseline: Seq<(Seq<char>, bool)>,
) -> (Seq<(Seq<char>, bool)>, Seq<EventView>)
    decreases mounts.len(),
{
    if mounts.len() == 0 {
        (baseline, seq![])
    } else {
        let (b, evs) = disk_pass(mounts.drop_last(), stats, ts, host, baseline);
        let m = mounts.last().mount_point;
        match stat_for(stats, m) {
            Some(s) => {
                let e1 = if s.disk_severity is Info {
                    evs
                } else {
                    evs.push(disk_event(m, s, ts, host))
                };
                let e2 = if s.inode_severity is Critical {
                    e1.push(inode_event(m, s, ts, host))
                } else {
                    e1
                };
                let e3 = if went_read_only(b, m, s.read_only) {
                    e2.push(read_only_event(m, ts, host))
                } else {
                    e2
                };
                (table::put(b, m, s.read_only), e3)
            },
            None => (b, evs),
        }
    }
}

fn push_mount_events(
    m: &str,
    s: &MountStat,
    ts: i64,
    host_id: &str,
    baseline: &mut Table<String, bool>,
    evs: &mut Vec<AgentEvent>,
)
    ensures
        final(baseline)@ == table::put(old(baseline)@, m@, s.read_only),
        common::events(final(evs)@) == ({
            let e0 = common::events(old(evs)@);
            let e1 = if s.disk_severity is Info {
                e0
            } else {
                e0.push(disk_event(m@, *s, ts, host_id@))
            };
            let e2 = if s.inode_severity is Critical {
                e1.push(inode_event(m@, *s, ts, host_id@))
            } else {
                e1
            };
            if went_read_only(old(baseline)@, m@, s.read_only) {
                e2.push(read_only_event(m@, ts, host_id@))
            } else {
                e2
            }
        }),
{
    broadcast use common::lemma_events_push;

    if s.disk_severity != Severity::Info {
        let ev = common::make_event(
            text::owned("disk-").concat(m).concat("-").concat(text::dec_i64(ts).as_str()),
            ts,
            host_id,
            text::owned("disk:").concat(m),
            EventKind::DiskHigh,
            s.disk_severity,
            text::owned("disk usage at ").concat(s.disk_whole.as_str()).concat("% on ").concat(m),
            "disk",
            text::owned("Mount=").concat(m).concat(" UsedPct=").concat(
                s.disk_tenth.as_str(),
            ).concat(" TotalBytes=").concat(text::dec_u64(s.total_bytes).as_str()),
        );
        evs.push(ev);
    }
    if s.inode_severity == Severity::Critical {
        let ev = common::make_event(
            text::owned("inode-").concat(m).concat("-").concat(text::dec_i64(ts).as_str()),
            ts,
            host_id,
            text::owned("inode:").concat(m),
            EventKind::InodeHigh,
            Severity::Critical,
            text::owned("inode usage at ").concat(s.inode_whole.as_str()).concat("% on ").concat(
                m,
            ),
            "disk",
            text::owned("Mount=").concat(m).concat(" InodePct=").concat(s.inode_tenth.as_str()),
        );
        evs.push(ev);
    }
    if ro_transition(baseline, m, s.read_only) {
        let ev = common::make_event(
            text::owned("fsro-").concat(m).concat("-").concat(text::dec_i64(ts).as_str()),
            ts,
            host_id,
            text::owned("fsro:").concat(m),
            EventKind::FsReadOnly,
            Severity::Critical,
            text::owned("filesystem ").concat(m).concat(" went read-only"),
            "disk",
            text::owned("Mount=").concat(m),
        );
        evs.push(ev);
    }
}

/// The mounts that /proc shows; none when it cannot be read.
pub open spec fn shown_mounts(p: ProcFs) -> Seq<procfs::MountView> {
    match p.file("mounts"@) {
        Ok(t) => procfs::mounts_of(t),
        Err(_) => seq![],
    }
}

/// Emit disk/inode events for all mounts at `ts`. Fail-open: mounts without
/// readings or a missing /proc are skipped.
pub fn disk_events(
    p: &ProcFs,
    stats: &Vec<MountStat>,
    ts: i64,
    host_id: &str,
    ro_baseline: &mut Table<String, bool>,
) -> (evs: Vec<AgentEvent>)
    ensures
        common::events(evs@) == disk_pass(
            shown_mounts(*p),
            stats@,
            ts,
            host_id@,
            old(ro_baseline)@,
        ).1,
        final(ro_baseline)@ == disk_pass(
            shown_mounts(*p),
            stats@,
            ts,
            host_id@,
            old(ro_baseline)@,
        ).0,
{
    let mut evs: Vec<AgentEvent> = Vec::new();
    let ghost b0 = ro_baseline@;
    assert(common::events(evs@) =~= seq![]);
    let mounts: Vec<Mount> = match p.mounts() {
        Ok(m) => m,
        Err(_) => {
            return evs;
        },
    };
    let ghost all = shown_mounts(*p);
    assert(procfs::mount_views(mounts@) == all);
    let mut i: usize = 0;
    while i < mounts.len()
        invariant
            i <= mounts@.len(),
            procfs::mount_views(mounts@) == all,
            common::events(evs@) == disk_pass(
                all.take(i as int),
                stats@,
                ts,
                host_id@,
                b0,
            ).1,
            ro_baseline@ == disk_pass(all.take(i as int), stats@, ts, host_id@, b0).0,
        decreases mounts@.len() - i,
    {
        proof {
            seqs::lemma_take_step(all, i as int);
            assert(all[i as int] == mounts@[i as int]@);
        }
        let m = mounts[i].mount_point.as_str();
        match find_stat(stats, m) {
            Some(s) => {
                push_mount_events(m, s, ts, host_id, ro_baseline, &mut evs);
            },
            None => {},
        }
        i = i + 1;
    }
    assert(all.take(mounts@.len() as int) == all);
    evs
}

/// Some event of a list has a key, a kind and a severity.
pub open spec fn tells(
    evs: Seq<EventView>,
    key: Seq<char>,
    kind: EventKind,
    severity: Severity,
) -> bool {
    exists|k: int|
        0 <= k < evs.len() && (#[trigger] evs[k]).key == key && evs[k].kind == kind
            && evs[k].severity == severity
}

proof fn lemma_tells_more(
    evs: Seq<EventView>,
    e: EventView,
    key: Seq<char>,
    kind: EventKind,
    severity: Severity,
)
    ensures
        tells(evs.push(e), key, kind, severity) <==> tells(evs, key, kind, severity) || (e.key
            == key && e.kind == kind && e.severity == severity),
{
    let more = evs.push(e);
    if tells(evs, key, kind, severity) {
        let k = choose|k: int|
            0 <= k < evs.len() && (#[trigger] evs[k]).key == key && evs[k].kind == kind
                && evs[k].severity == severity;
        assert(more[k] == evs[k]);
    }
    assert(more[evs.len() as int] == e);
    if tells(more, key, kind, severity) {
        let k = choose|k: int|
            0 <= k < more.len() && (#[trigger] more[k]).key == key && more[k].kind == kind
                && more[k].severity == severity;
        if k < evs.len() {
            assert(evs[k] == more[k]);
        }
    }
}

/// The reading for a mount point is the first that names it.
proof fn lemma_stat_for(stats: Seq<MountStat>, mount: Seq<char>, j: int)
    requires
        0 <= j < stats.len(),
        stats[j].mount_point@ == mount,
        forall|i: int| 0 <= i < j ==> (#[trigger] stats[i]).mount_point@ != mount,
    ensures
        stat_for(stats, mount) == Some(stats[j]),
    decreases j,
{
    if j > 0 {
        assert(stats[0].mount_point@ != mount);
        let t = stats.skip(1);
        assert forall|i: int| 0 <= i < j - 1 implies (#[trigger] t[i]).mount_point@ != mount by {
            assert(t[i] == stats[i + 1]);
        }
        lemma_stat_for(t, mount, j - 1);
    }
}

proof fn lemma_other_mounts(
    mounts: Seq<procfs::MountView>,
    stats: Seq<MountStat>,
    ts: i64,
    host: Seq<char>,
    baseline: Seq<(Seq<char>, bool)>,
    m: Seq<char>,
)
    requires
        forall|i: int| 0 <= i < mounts.len() ==> (#[trigger] mounts[i]).mount_point != m,
    ensures
        table::lookup(disk_pass(mounts, stats, ts, host, baseline).0, m) == table::lookup(
            baseline,
            m,
        ),
        !tells(
            disk_pass(mounts, stats, ts, host, baseline).1,
            "disk:"@ + m,
            EventKind::DiskHigh,
            Severity::Warning,
        ),
        !tells(
            disk_pass(mounts, stats, ts, host, baseline).1,
            "disk:"@ + m,
            EventKind::DiskHigh,
            Severity::Critical,
        ),
        !tells(
            disk_pass(mounts, stats, ts, host, baseline).1,
            "inode:"@ + m,
            EventKind::InodeHigh,
            Severity::Critical,
        ),
        !tells(
            disk_pass(mounts, stats, ts, host, baseline).1,
            "fsro:"@ + m,
            EventKind::FsReadOnly,
            Severity::Critical,
        ),
    decreases mounts.len(),
{
    if mounts.len() > 0 {
        let init = mounts.drop_last();
        let last = mounts.last().mount_point;
        assert(mounts[mounts.len() - 1].mount_point == last);
        assert forall|i: int| 0 <= i < init.len() implies (#[trigger] init[i]).mount_point != m by {
            assert(init[i] == mounts[i]);
        }
        lemma_other_mounts(init, stats, ts, host, baseline, m);
        assert(init.push(mounts.last()) =~= mounts);
        lemma_mount_step(init, stats, ts, host, baseline, mounts.last(), m);
    }
}

/// What one more mount adds of a mount point.
proof fn lemma_mount_step(
    init: Seq<procfs::MountView>,
    stats: Seq<MountStat>,
    ts: i64,
    host: Seq<char>,
    baseline: Seq<(Seq<char>, bool)>,
    l: procfs::MountView,
    m: Seq<char>,
)
    ensures
        ({
            let (b, evs) = disk_pass(init, stats, ts, host, baseline);
            let (c, more) = disk_pass(init.push(l), stats, ts, host, baseline);
            let s = stat_for(stats, l.mount_point);
            let own = l.mount_point == m && s is Some;
            let warn = Severity::Warning;
            let crit = Severity::Critical;
            &&& table::lookup(c, m) == (if own {
                Some(s->0.read_only)
            } else {
                table::lookup(b, m)
            })
            &&& tells(more, "disk:"@ + m, EventKind::DiskHigh, warn) <==> tells(
                evs,
                "disk:"@ + m,
                EventKind::DiskHigh,
                warn,
            ) || (own && s->0.disk_severity is Warning)
            &&& tells(more, "disk:"@ + m, EventKind::DiskHigh, crit) <==> tells(
                evs,
                "disk:"@ + m,
                EventKind::DiskHigh,
                crit,
            ) || (own && s->0.disk_severity is Critical)
            &&& tells(more, "inode:"@ + m, EventKind::InodeHigh, crit) <==> tells(
                evs,
                "inode:"@ + m,
                EventKind::InodeHigh,
                crit,
            ) || (own && s->0.inode_severity is Critical)
            &&& tells(more, "fsro:"@ + m, EventKind::FsReadOnly, crit) <==> tells(
                evs,
                "fsro:"@ + m,
                EventKind::FsReadOnly,
                crit,
            ) || (own && s->0.read_only && table::lookup(b, m) == Some(false))
        }),
{
    let (b, evs) = disk_pass(init, stats, ts, host, baseline);
    assert(init.push(l).drop_last() =~= init);
    let n = l.mount_point;
    lemma_prefixed_differs("disk:"@, n, m);
    lemma_prefixed_differs("inode:"@, n, m);
    lemma_prefixed_differs("fsro:"@, n, m);
    match stat_for(stats, n) {
        Some(s) => {
            let e1 = if s.disk_severity is Info {
                evs
            } else {
                evs.push(disk_event(n, s, ts, host))
            };
            let e2 = if s.inode_severity is Critical {
                e1.push(inode_event(n, s, ts, host))
            } else {
                e1
            };
            table::law_put_then_lookup(b, n, s.read_only, m);
            lemma_all_tells(evs, disk_event(n, s, ts, host), m);
            lemma_all_tells(e1, inode_event(n, s, ts, host), m);
            lemma_all_tells(e2, read_only_event(n, ts, host), m);
        },
        None => {},
    }
}

proof fn lemma_prefixed_differs(pre: Seq<char>, a: Seq<char>, b: Seq<char>)
    ensures
        pre + a == pre + b <==> a == b,
{
    if pre + a == pre + b {
        assert(a =~= (pre + a).skip(pre.len() as int));
        assert(b =~= (pre + b).skip(pre.len() as int));
    }
}

proof fn lemma_all_tells(evs: Seq<EventView>, e: EventView, m: Seq<char>)
    ensures
        tells(evs.push(e), "disk:"@ + m, EventKind::DiskHigh, Severity::Warning) <==> tells(
            evs,
            "disk:"@ + m,
            EventKind::DiskHigh,
            Severity::Warning,
        ) || (e.key == "disk:"@ + m && e.kind is DiskHigh && e.severity is Warning),
        tells(evs.push(e), "disk:"@ + m, EventKind::DiskHigh, Severity::Critical) <==> tells(
            evs,
            "disk:"@ + m,
            EventKind::DiskHigh,
            Severity::Critical,
        ) || (e.key == "disk:"@ + m && e.kind is DiskHigh && e.severity is Critical),
        tells(evs.push(e), "inode:"@ + m, EventKind::InodeHigh, Severity::Critical) <==> tells(
            evs,
            "inode:"@ + m,
            EventKind::InodeHigh,
            Severity::Critical,
        ) || (e.key == "inode:"@ + m && e.kind is InodeHigh && e.severity is Critical),
        tells(evs.push(e), "fsro:"@ + m, EventKind::FsReadOnly, Severity::Critical) <==> tells(
            evs,
            "fsro:"@ + m,
            EventKind::FsReadOnly,
            Severity::Critical,
        ) || (e.key == "fsro:"@ + m && e.kind is FsReadOnly && e.severity is Critical),
{
    lemma_tells_more(evs, e, "disk:"@ + m, EventKind::DiskHigh, Severity::Warning);
    lemma_tells_more(evs, e, "disk:"@ + m, EventKind::DiskHigh, Severity::Critical);
    lemma_tells_more(evs, e, "inode:"@ + m, EventKind::InodeHigh, Severity::Critical);
    lemma_tells_more(evs, e, "fsro:"@ + m, EventKind::FsReadOnly, Severity::Critical);
}

/// Each mount that has a reading is reported for itself, whatever the others
/// show: its usage with the severity it was judged to have, unless that is
/// Info; its inodes where they are critical; and that it went read-only where
/// it was last seen writable. What was seen of it is remembered.
pub proof fn law_each_mount_is_reported(
    mounts: Seq<procfs::MountView>,
    stats: Seq<MountStat>,
    ts: i64,
    host: Seq<char>,
    baseline: Seq<(Seq<char>, bool)>,
    i: int,
    j: int,
)
    requires
        0 <= i < mounts.len(),
        forall|k: int|
            0 <= k < mounts.len() && k != i ==> (#[trigger] mounts[k]).mount_point
                != mounts[i].mount_point,
        0 <= j < stats.len(),
        stats[j].mount_point@ == mounts[i].mount_point,
        forall|k: int|
            0 <= k < j ==> (#[trigger] stats[k]).mount_point@ != mounts[i].mount_point,
    ensures
        ({
            let m = mounts[i].mount_point;
            let s = stats[j];
            let (b, evs) = disk_pass(mounts, stats, ts, host, baseline);
            &&& s.disk_severity is Warning <==> tells(
                evs,
                "disk:"@ + m,
                EventKind::DiskHigh,
                Severity::Warning,
            )
            &&& s.disk_severity is Critical <==> tells(
                evs,
                "disk:"@ + m,
                EventKind::DiskHigh,
                Severity::Critical,
            )
            &&& s.inode_severity is Critical <==> tells(
                evs,
                "inode:"@ + m,
                EventKind::InodeHigh,
                Severity::Critical,
            )
            &&& s.read_only && table::lookup(baseline, m) == Some(false) <==> tells(
                evs,
                "fsro:"@ + m,
                EventKind::FsReadOnly,
                Severity::Critical,
            )
            &&& table::lookup(b, m) == Some(s.read_only)
        }),
    decreases mounts.len(),
{
    let m = mounts[i].mount_point;
    let init = mounts.drop_last();
    lemma_stat_for(stats, m, j);
    assert(init.push(mounts.last()) =~= mounts);
    lemma_mount_step(init, stats, ts, host, baseline, mounts.last(), m);
    if i < init.len() {
        assert(init[i] == mounts[i]);
        assert forall|k: int| 0 <= k < init.len() && k != i implies (#[trigger] init[k]).mount_point
            != init[i].mount_point by {
            assert(init[k] == mounts[k]);
        }
        law_each_mount_is_reported(init, stats, ts, host, baseline, i, j);
        assert(mounts.last() == mounts[mounts.len() - 1]);
    } else {
        assert forall|k: int| 0 <= k < init.len() implies (#[trigger] init[k]).mount_point != m by {
            assert(init[k] == mounts[k]);
        }
        lemma_other_mounts(init, stats, ts, host, baseline, m);
    }
}

/// A poll reports of disks only what it found: every event is of a mount that
/// is shown, at the poll's time and of its host.
pub proof fn law_disk_events_name_a_mount(
    mounts: Seq<procfs::MountView>,
    stats: Seq<MountStat>,
    ts: i64,
    host: Seq<char>,
    baseline: Seq<(Seq<char>, bool)>,
    k: int,
)
    requires
        0 <= k < disk_pass(mounts, stats, ts, host, baseline).1.len(),
    ensures
        ({
            let e = disk_pass(mounts, stats, ts, host, baseline).1[k];
            &&& e.ts == ts
            &&& e.host_id == host
            &&& !(e.severity is Info)
            &&& exists|i: int|
                0 <= i < mounts.len() && ((e.kind is DiskHigh && e.key == "disk:"@ + (
                #[trigger] mounts[i]).mount_point) || (e.kind is InodeHigh && e.severity is Critical
                    && e.key == "inode:"@ + mounts[i].mount_point) || (e.kind is FsReadOnly
                    && e.severity is Critical && e.key == "fsro:"@ + mounts[i].mount_point))
        }),
    decreases mounts.len(),
{
    if mounts.len() > 0 {
        let init = mounts.drop_last();
        let evs = disk_pass(init, stats, ts, host, baseline).1;
        assert(mounts.last() == mounts[mounts.len() - 1]);
        if k < evs.len() {
            law_disk_events_name_a_mount(init, stats, ts, host, baseline, k);
            let e = evs[k];
            let i = choose|i: int|
                0 <= i < init.len() && ((e.kind is DiskHigh && e.key == "disk:"@ + (
                #[trigger] init[i]).mount_point) || (e.kind is InodeHigh && e.severity is Critical
                    && e.key == "inode:"@ + init[i].mount_point) || (e.kind is FsReadOnly
                    && e.severity is Critical && e.key == "fsro:"@ + init[i].mount_point));
            assert(mounts[i] == init[i]);
        }
    }
}

} // verus!
