//! Listening ports, outbound connections, and their rates.

use std::collections::VecDeque;

use vstd::prelude::*;

use crate::agent::procfs;
use crate::agent::procfs::{ProcFs, TcpEntry};
use crate::common;
use crate::common::{AgentEvent, EventKind, EventView, Severity};
use crate::seqs;
use crate::table;
use crate::table::TextSet;
use crate::text;

verus! {

// ---------------------------------------------------------------------------
// Lists of texts
// ---------------------------------------------------------------------------

/// The different texts of a list, in the order of their first coming, added to
/// those of `start`.
pub open spec fn set_from(start: Seq<Seq<char>>, s: Seq<Seq<char>>) -> Seq<Seq<char>>
    decreases s.len(),
{
    if s.len() == 0 {
        start
    } else {
        table::with_item(set_from(start, s.drop_last()), s.last())
    }
}

/// The texts of a list that are not in `known` when they come first.
pub open spec fn news(known: Seq<Seq<char>>, s: Seq<Seq<char>>) -> Seq<Seq<char>>
    decreases s.len(),
{
    if s.len() == 0 {
        seq![]
    } else if set_from(known, s.drop_last()).contains(s.last()) {
        news(known, s.drop_last())
    } else {
        news(known, s.drop_last()).push(s.last())
    }
}

/// The texts of `s` that are not in `known`.
pub open spec fn missing_from(known: Seq<Seq<char>>, s: Seq<Seq<char>>) -> Seq<Seq<char>> {
    seqs::kept(s, |t: Seq<char>| !known.contains(t))
}

/// A set made from a list holds what it started from and what is in the list.
pub proof fn law_set_from(start: Seq<Seq<char>>, s: Seq<Seq<char>>, t: Seq<char>)
    ensures
        set_from(start, s).contains(t) <==> (start.contains(t) || s.contains(t)),
        start.no_duplicates() ==> set_from(start, s).no_duplicates(),
    decreases s.len(),
{
    if s.len() > 0 {
        let init = s.drop_last();
        law_set_from(start, init, t);
        table::law_with_item(set_from(start, init), s.last());
        assert(init.push(s.last()) == s);
        if s.contains(t) && t != s.last() {
            let i = choose|i: int| 0 <= i < s.len() && s[i] == t;
            assert(init[i] == t);
        }
        if init.contains(t) {
            let i = choose|i: int| 0 <= i < init.len() && init[i] == t;
            assert(s[i] == t);
        }
        assert(s[s.len() - 1] == s.last());
    }
}

/// A list that is wholly known brings no news, and leaves the set as it is.
proof fn lemma_known_brings_no_news(known: Seq<Seq<char>>, s: Seq<Seq<char>>)
    requires
        forall|t: Seq<char>| #[trigger] s.contains(t) ==> known.contains(t),
    ensures
        news(known, s).len() == 0,
        set_from(known, s) == known,
    decreases s.len(),
{
    if s.len() > 0 {
        let init = s.drop_last();
        assert forall|t: Seq<char>| #[trigger] init.contains(t) implies known.contains(t) by {
            let i = choose|i: int| 0 <= i < init.len() && init[i] == t;
            assert(s[i] == t);
            assert(s.contains(t));
        }
        lemma_known_brings_no_news(known, init);
        assert(s[s.len() - 1] == s.last());
        assert(s.contains(s.last()));
    }
}

// ---------------------------------------------------------------------------
// The rate of connections
// ---------------------------------------------------------------------------

/// How many samples the baseline of the connection count spans.
pub const RATE_WINDOW: usize = 20;

/// An ordered list with one more number in its place.
pub open spec fn insert_in(s: Seq<u64>, x: u64) -> Seq<u64>
    decreases s.len(),
{
    if s.len() > 0 && x < s.last() {
        insert_in(s.drop_last(), x).push(s.last())
    } else {
        s.push(x)
    }
}

/// The numbers of a list in ascending order.
pub open spec fn ascending(s: Seq<u64>) -> Seq<u64>
    decreases s.len(),
{
    if s.len() == 0 {
        seq![]
    } else {
        insert_in(ascending(s.drop_last()), s.last())
    }
}

/// Twice the median of a list: the middle number doubled, or the sum of the
/// two in the middle.
pub open spec fn median_twice(s: Seq<u64>) -> int {
    let v = ascending(s);
    let n = v.len() as int;
    if n == 0 {
        0
    } else if n % 2 == 1 {
        2 * v[n / 2]
    } else {
        v[n / 2 - 1] + v[n / 2]
    }
}

/// The last samples, after one more.
pub open spec fn with_sample(s: Seq<u64>, x: u64) -> Seq<u64> {
    if s.len() >= RATE_WINDOW {
        s.skip(1).push(x)
    } else {
        s.push(x)
    }
}

/// Whether `x` is at least two and a half times the median of at least two
/// samples.
pub open spec fn is_spike(s: Seq<u64>, x: u64) -> bool {
    s.len() >= 2 && median_twice(s) > 0 && 4 * x >= 5 * median_twice(s)
}

/// Ordering a list keeps its numbers, each as often, and puts none before a
/// smaller one.
pub proof fn law_ascending(s: Seq<u64>)
    ensures
        ascending(s).len() == s.len(),
        ascending(s).to_multiset() == s.to_multiset(),
        forall|i: int, j: int|
            0 <= i <= j < s.len() ==> #[trigger] ascending(s)[i] <= #[trigger] ascending(s)[j],
    decreases s.len(),
{
    broadcast use vstd::seq_lib::group_to_multiset_ensures;

    if s.len() > 0 {
        let init = s.drop_last();
        law_ascending(init);
        lemma_insert_in(ascending(init), s.last());
        assert(init.push(s.last()) == s);
        vstd::seq_lib::to_multiset_build(init, s.last());
    }
}

proof fn lemma_insert_in(s: Seq<u64>, x: u64)
    requires
        forall|i: int, j: int| 0 <= i <= j < s.len() ==> #[trigger] s[i] <= #[trigger] s[j],
    ensures
        insert_in(s, x).len() == s.len() + 1,
        insert_in(s, x).to_multiset() == s.to_multiset().insert(x),
        forall|i: int, j: int|
            0 <= i <= j < s.len() + 1 ==> #[trigger] insert_in(s, x)[i] <= #[trigger] insert_in(
                s,
                x,
            )[j],
        forall|i: int|
            0 <= i < s.len() + 1 ==> #[trigger] insert_in(s, x)[i] == x || (s.len() > 0
                && insert_in(s, x)[i] <= s.last()),
    decreases s.len(),
{
    broadcast use vstd::seq_lib::group_to_multiset_ensures;

    if s.len() > 0 && x < s.last() {
        let init = s.drop_last();
        lemma_insert_in(init, x);
        assert(init.push(s.last()) == s);
        vstd::seq_lib::to_multiset_build(init, s.last());
        vstd::seq_lib::to_multiset_build(insert_in(init, x), s.last());
        assert(s.to_multiset().insert(x) =~= init.to_multiset().insert(x).insert(s.last()));
        let r = insert_in(s, x);
        assert forall|i: int, j: int| 0 <= i <= j < s.len() + 1 implies #[trigger] r[i]
            <= #[trigger] r[j] by {
            if j < s.len() {
                assert(r[i] == insert_in(init, x)[i] && r[j] == insert_in(init, x)[j]);
            } else if i < s.len() {
                assert(r[i] == insert_in(init, x)[i]);
                if init.len() > 0 {
                    assert(init.last() == s[s.len() - 2]);
                    assert(s[s.len() - 2] <= s[s.len() - 1]);
                }
            }
        }
        assert forall|i: int| 0 <= i < s.len() + 1 implies #[trigger] r[i] == x || (s.len() > 0
            && r[i] <= s.last()) by {
            assert(r[i] <= r[s.len() as int]);
        }
    } else {
        vstd::seq_lib::to_multiset_build(s, x);
        let r = s.push(x);
        assert forall|i: int, j: int| 0 <= i <= j < s.len() + 1 implies #[trigger] r[i]
            <= #[trigger] r[j] by {
            if j == s.len() && i < s.len() {
                assert(s[i] <= s[s.len() - 1]);
            }
        }
        assert forall|i: int| 0 <= i < s.len() + 1 implies #[trigger] r[i] == x || (s.len() > 0
            && r[i] <= s.last()) by {
            if i < s.len() {
                assert(s[i] <= s[s.len() - 1]);
            }
        }
    }
}

proof fn lemma_insert_in_counts(s: Seq<u64>, x: u64, p: spec_fn(u64) -> bool)
    ensures
        seqs::kept(insert_in(s, x), p).len() == seqs::kept(s, p).len() + (if p(x) {
            1int
        } else {
            0
        }),
    decreases s.len(),
{
    if s.len() > 0 && x < s.last() {
        lemma_insert_in_counts(s.drop_last(), x, p);
        let r = insert_in(s.drop_last(), x);
        assert(r.push(s.last()).drop_last() =~= r);
    } else {
        assert(s.push(x).drop_last() =~= s);
    }
}

proof fn lemma_ascending_counts(s: Seq<u64>, p: spec_fn(u64) -> bool)
    ensures
        seqs::kept(ascending(s), p).len() == seqs::kept(s, p).len(),
    decreases s.len(),
{
    if s.len() > 0 {
        lemma_ascending_counts(s.drop_last(), p);
        lemma_insert_in_counts(ascending(s.drop_last()), s.last(), p);
    }
}

proof fn lemma_stretch_counts(v: Seq<u64>, p: spec_fn(u64) -> bool, from: int, to: int)
    requires
        0 <= from <= to <= v.len(),
        forall|i: int| from <= i < to ==> p(#[trigger] v[i]),
    ensures
        seqs::kept(v, p).len() >= to - from,
    decreases v.len(),
{
    if v.len() > 0 {
        let init = v.drop_last();
        if to == v.len() && from < to {
            assert(p(v[to - 1]));
            lemma_stretch_counts(init, p, from, to - 1);
        } else if to < v.len() {
            lemma_stretch_counts(init, p, from, to);
        }
    }
}

/// The baseline is a median: at least half of the numbers of a list are no
/// greater than it, and at least half are no smaller. It is the middle one, or
/// lies halfway between the two in the middle, of the list in ascending order.
pub proof fn law_baseline_is_a_median(s: Seq<u64>)
    requires
        s.len() > 0,
    ensures
        ({
            let m = median_twice(s);
            let low = Set::new(|i: int| 0 <= i < s.len() && 2 * s[i] <= m);
            let high = Set::new(|i: int| 0 <= i < s.len() && 2 * s[i] >= m);
            &&& low.finite() && 2 * low.len() >= s.len()
            &&& high.finite() && 2 * high.len() >= s.len()
        }),
        forall|v: Seq<u64>| #[trigger]
            v.to_multiset() == s.to_multiset() && (forall|i: int, j: int|
                0 <= i <= j < v.len() ==> #[trigger] v[i] <= #[trigger] v[j]) ==> v.len()
                == s.len() && median_twice(s) == v[(v.len() - 1) / 2] + v[v.len() as int / 2],
{
    law_ascending(s);
    let n = s.len() as int;
    let m = median_twice(s);
    let v = ascending(s);
    let p = |x: u64| 2 * x <= m;
    let q = |x: u64| 2 * x >= m;
    let (a, b) = ((n - 1) / 2, n / 2);
    assert(v[a] <= v[b]);
    assert(m == v[a] + v[b]);
    assert forall|i: int| 0 <= i < a + 1 implies p(#[trigger] v[i]) by {
        assert(v[i] <= v[a]);
    }
    assert forall|i: int| b <= i < n implies q(#[trigger] v[i]) by {
        assert(v[b] <= v[i]);
    }
    lemma_stretch_counts(v, p, 0, a + 1);
    lemma_stretch_counts(v, q, b, n);
    lemma_ascending_counts(s, p);
    lemma_ascending_counts(s, q);
    seqs::lemma_kept_counts(s, p);
    seqs::lemma_kept_counts(s, q);
    let low = Set::new(|i: int| 0 <= i < s.len() && 2 * s[i] <= m);
    let high = Set::new(|i: int| 0 <= i < s.len() && 2 * s[i] >= m);
    assert(low =~= Set::new(|i: int| 0 <= i < s.len() && p(s[i])));
    assert(high =~= Set::new(|i: int| 0 <= i < s.len() && q(s[i])));
    assert forall|w: Seq<u64>| #[trigger] w.to_multiset() == s.to_multiset() && (forall|
        i: int,
        j: int,
    |
        0 <= i <= j < w.len() ==> #[trigger] w[i] <= #[trigger] w[j]) implies w.len() == s.len()
        && median_twice(s) == w[(w.len() - 1) / 2] + w[w.len() as int / 2] by {
        lemma_one_order(v, w);
    }
}

/// A list has one ascending order.
proof fn lemma_one_order(v: Seq<u64>, w: Seq<u64>)
    requires
        v.to_multiset() == w.to_multiset(),
        forall|i: int, j: int| 0 <= i <= j < v.len() ==> #[trigger] v[i] <= #[trigger] v[j],
        forall|i: int, j: int| 0 <= i <= j < w.len() ==> #[trigger] w[i] <= #[trigger] w[j],
    ensures
        v == w,
{
    let leq = |x: u64, y: u64| x <= y;
    assert(vstd::relations::sorted_by(v, leq));
    assert(vstd::relations::sorted_by(w, leq));
    assert(vstd::relations::total_ordering(leq));
    vstd::seq_lib::lemma_sorted_unique(v, w, leq);
}

/// A count of connections is a spike exactly when it is at least two and a
/// half times the median of at least two samples, and that is not zero. The
/// samples are given in ascending order.
pub proof fn law_spikes_exceed_the_median(s: Seq<u64>, x: u64, v: Seq<u64>)
    requires
        v.to_multiset() == s.to_multiset(),
        forall|i: int, j: int| 0 <= i <= j < v.len() ==> #[trigger] v[i] <= #[trigger] v[j],
    ensures
        s.len() < 2 ==> !is_spike(s, x),
        s.len() >= 2 ==> ({
            let twice = v[(v.len() - 1) / 2] + v[v.len() as int / 2];
            is_spike(s, x) <==> twice > 0 && 4 * x >= 5 * twice
        }),
{
    if s.len() >= 2 {
        law_baseline_is_a_median(s);
        assert(v.to_multiset() == s.to_multiset());
    }
}

fn insert_number(v: &mut Vec<u64>, x: u64)
    ensures
        final(v)@ == insert_in(old(v)@, x),
{
    let ghost s = v@;
    let mut i: usize = v.len();
    assert(s.take(s.len() as int) =~= s);
    assert(insert_in(s.take(i as int), x) + s.skip(i as int) =~= insert_in(s, x));
    while i > 0 && x < v[i - 1]
        invariant
            v@ == s,
            i <= s.len(),
            insert_in(s.take(i as int), x) + s.skip(i as int) == insert_in(s, x),
        decreases i,
    {
        proof {
            let t = s.take(i as int);
            assert(t.last() == s[i - 1]);
            assert(t.drop_last() =~= s.take(i - 1));
            assert(insert_in(t.drop_last(), x).push(s[i - 1]) + s.skip(i as int) =~= insert_in(
                t.drop_last(),
                x,
            ) + s.skip(i - 1));
        }
        i = i - 1;
    }
    proof {
        let t = s.take(i as int);
        if i > 0 {
            assert(t.last() == s[i - 1]);
        }
        assert(s.insert(i as int, x) =~= t.push(x) + s.skip(i as int));
    }
    v.insert(i, x);
}

fn spike_of(samples: &Vec<u64>, x: u64) -> (r: bool)
    ensures
        r == is_spike(samples@, x),
{
    let mut v: Vec<u64> = Vec::new();
    let mut i: usize = 0;
    assert(v@ =~= ascending(samples@.take(0)));
    while i < samples.len()
        invariant
            i <= samples@.len(),
            v@ == ascending(samples@.take(i as int)),
            v@.len() == i,
        decreases samples@.len() - i,
    {
        proof {
            seqs::lemma_take_step(samples@, i as int);
            law_ascending(samples@.take(i + 1));
        }
        insert_number(&mut v, samples[i]);
        i = i + 1;
    }
    assert(samples@.take(samples@.len() as int) =~= samples@);
    let n: usize = v.len();
    if n < 2 {
        return false;
    }
    let twice: u128 = if n % 2 == 1 {
        2 * (v[n / 2] as u128)
    } else {
        v[n / 2 - 1] as u128 + v[n / 2] as u128
    };
    assert(twice == median_twice(samples@));
    twice > 0 && 4 * (x as u128) >= 5 * twice
}

fn push_sample(samples: &mut Vec<u64>, x: u64)
    ensures
        final(samples)@ == with_sample(old(samples)@, x),
{
    if samples.len() >= RATE_WINDOW {
        let ghost s = samples@;
        let oldest = samples.remove(0);
        assert(samples@ =~= s.skip(1));
    }
    samples.push(x);
}

// ---------------------------------------------------------------------------
// Port scans
// ---------------------------------------------------------------------------

/// The new endpoints with their times, as characters.
pub open spec fn connect_views(v: Seq<(i64, String)>) -> Seq<(i64, Seq<char>)> {
    v.map_values(|e: (i64, String)| (e.0, e.1@))
}

/// The endpoints that came within `window_ms` before `now`, or after it.
pub open spec fn in_window(s: Seq<(i64, Seq<char>)>, now: int, window_ms: int) -> Seq<
    (i64, Seq<char>),
> {
    seqs::kept(s, |e: (i64, Seq<char>)| e.0 + window_ms >= now)
}

/// The endpoints of a list.
pub open spec fn endpoints(s: Seq<(i64, Seq<char>)>) -> Seq<Seq<char>> {
    s.map_values(|e: (i64, Seq<char>)| e.1)
}

/// Whether at least `threshold` different endpoints came within the window.
pub open spec fn is_scan(
    s: Seq<(i64, Seq<char>)>,
    now: int,
    window_ms: int,
    threshold: int,
) -> bool {
    set_from(seq![], endpoints(in_window(s, now, window_ms))).len() >= threshold
}

/// Does the recent-connect list contain >= `threshold` distinct (ip:port)
/// pairs within `window_ms` of `now`? The caller clears the list when this
/// fires.
pub fn scan_fires(
    recent: &VecDeque<(i64, String)>,
    now: i64,
    window_ms: i64,
    threshold: u32,
) -> (r: bool)
    ensures
        r == is_scan(
            connect_views(recent@),
            now as int,
            window_ms as int,
            threshold as int,
        ),
{
    let ghost all = connect_views(recent@);
    let ghost w = window_ms as int;
    let ghost nw = now as int;
    let ghost p = |e: (i64, Seq<char>)| e.0 + w >= nw;
    let mut distinct = TextSet::new();
    let mut i: usize = 0;
    assert(all.take(0) =~= seq![]);
    assert(endpoints(seqs::kept(all.take(0), p)) =~= seq![]);
    while i < recent.len()
        invariant
            i <= recent@.len(),
            all == connect_views(recent@),
            w == window_ms,
            nw == now,
            p == (|e: (i64, Seq<char>)| e.0 + w >= nw),
            distinct@ == set_from(seq![], endpoints(seqs::kept(all.take(i as int), p))),
        decreases recent@.len() - i,
    {
        proof {
            seqs::lemma_take_step(all, i as int);
        }
        let e = &recent[i];
        assert(all[i as int] == (e.0, e.1@));
        if e.0 as i128 + window_ms as i128 >= now as i128 {
            let ghost before = seqs::kept(all.take(i as int), p);
            let fresh = distinct.insert(e.1.as_str());
            proof {
                let after = endpoints(before.push(all[i as int]));
                assert(after.drop_last() =~= endpoints(before));
                assert(after.last() == e.1@);
            }
        }
        i = i + 1;
    }
    assert(all.take(recent@.len() as int) =~= all);
    assert(distinct@.len() == distinct.items@.len());
    distinct.items.len() >= threshold as usize
}

// ---------------------------------------------------------------------------
// What /proc shows
// ---------------------------------------------------------------------------

/// The tracked TCP sockets of both tables; a table that cannot be read shows
/// none.
pub open spec fn tcp_shown(p: ProcFs) -> Seq<procfs::TcpView> {
    let v4 = match p.file("net/tcp"@) {
        Ok(t) => procfs::tcp_table(t, false),
        Err(_) => seq![],
    };
    let v6 = match p.file("net/tcp6"@) {
        Ok(t) => procfs::tcp_table(t, true),
        Err(_) => seq![],
    };
    v4 + v6
}

/// The UDP sockets of both tables; a table that cannot be read shows none.
pub open spec fn udp_shown(p: ProcFs) -> Seq<(Seq<char>, u16)> {
    let v4 = match p.file("net/udp"@) {
        Ok(t) => procfs::udp_table(t, false),
        Err(_) => seq![],
    };
    let v6 = match p.file("net/udp6"@) {
        Ok(t) => procfs::udp_table(t, true),
        Err(_) => seq![],
    };
    v4 + v6
}

/// The TCP sockets in a state.
pub open spec fn sockets(p: ProcFs, state: Seq<char>) -> Seq<procfs::TcpView> {
    seqs::kept(tcp_shown(p), |e: procfs::TcpView| e.state == state)
}

/// The name of a listening TCP socket.
pub open spec fn tcp_name(e: procfs::TcpView) -> Seq<char> {
    "tcp:"@ + e.local_ip + ":"@ + text::dec(e.local_port as nat)
}

/// The name of a UDP socket.
pub open spec fn udp_name(e: (Seq<char>, u16)) -> Seq<char> {
    "udp:"@ + e.0 + ":"@ + text::dec(e.1 as nat)
}

/// Whether a remote address names a host.
pub open spec fn is_remote(ip: Seq<char>) -> bool {
    ip != "0.0.0.0"@ && ip != "::"@
}

/// The names of the listening TCP sockets.
pub open spec fn listen_names(p: ProcFs) -> Seq<Seq<char>> {
    sockets(p, "LISTEN"@).map_values(|e: procfs::TcpView| tcp_name(e))
}

/// The names of the UDP sockets.
pub open spec fn udp_names(p: ProcFs) -> Seq<Seq<char>> {
    udp_shown(p).map_values(|e: (Seq<char>, u16)| udp_name(e))
}

/// The remote addresses of the established connections.
pub open spec fn remote_ips(p: ProcFs) -> Seq<Seq<char>> {
    seqs::picked(
        sockets(p, "ESTABLISHED"@),
        |e: procfs::TcpView|
            if is_remote(e.remote_ip) {
                Some(e.remote_ip)
            } else {
                None
            },
    )
}

/// The remote endpoints of the established connections.
pub open spec fn remote_pairs(p: ProcFs) -> Seq<Seq<char>> {
    seqs::picked(
        sockets(p, "ESTABLISHED"@),
        |e: procfs::TcpView|
            if is_remote(e.remote_ip) {
                Some(e.remote_ip + ":"@ + text::dec(e.remote_port as nat))
            } else {
                None
            },
    )
}

fn tcp_rows(p: &ProcFs, state: &str) -> (out: Vec<TcpEntry>)
    ensures
        procfs::tcp_views(out@) == sockets(*p, state@),
{
    let v4: Vec<TcpEntry> = match p.tcp_entries() {
        Ok(v) => v,
        Err(_) => Vec::new(),
    };
    let v6: Vec<TcpEntry> = match p.tcp6_entries() {
        Ok(v) => v,
        Err(_) => Vec::new(),
    };
    let ghost st = state@;
    let ghost f = |e: procfs::TcpView| e.state == st;
    let ghost all = procfs::tcp_views(v4@) + procfs::tcp_views(v6@);
    assert(all =~= tcp_shown(*p));
    let mut out: Vec<TcpEntry> = Vec::new();
    let mut i: usize = 0;
    assert(procfs::tcp_views(out@) =~= seqs::kept(all.take(0), f));
    while i < v4.len()
        invariant
            i <= v4@.len(),
            all == procfs::tcp_views(v4@) + procfs::tcp_views(v6@),
            st == state@,
            f == (|e: procfs::TcpView| e.state == st),
            procfs::tcp_views(out@) == seqs::kept(all.take(i as int), f),
        decreases v4@.len() - i,
    {
        proof {
            seqs::lemma_take_step(all, i as int);
            assert(all[i as int] == v4@[i as int]@);
        }
        if text::same(v4[i].state.as_str(), state) {
            push_row(&mut out, &v4[i]);
        }
        i = i + 1;
    }
    let mut j: usize = 0;
    while j < v6.len()
        invariant
            j <= v6@.len(),
            all == procfs::tcp_views(v4@) + procfs::tcp_views(v6@),
            st == state@,
            f == (|e: procfs::TcpView| e.state == st),
            procfs::tcp_views(out@) == seqs::kept(all.take(v4@.len() + j), f),
        decreases v6@.len() - j,
    {
        proof {
            seqs::lemma_take_step(all, v4@.len() + j);
            assert(all[v4@.len() + j] == v6@[j as int]@);
        }
        if text::same(v6[j].state.as_str(), state) {
            push_row(&mut out, &v6[j]);
        }
        j = j + 1;
    }
    assert(all.take(all.len() as int) =~= all);
    out
}

fn push_row(out: &mut Vec<TcpEntry>, e: &TcpEntry)
    ensures
        procfs::tcp_views(final(out)@) == procfs::tcp_views(old(out)@).push(e@),
{
    let ghost before = out@;
    out.push(
        TcpEntry {
            local_ip: e.local_ip.clone(),
            local_port: e.local_port,
            remote_ip: e.remote_ip.clone(),
            remote_port: e.remote_port,
            state: e.state.clone(),
        },
    );
    assert(procfs::tcp_views(out@) =~= procfs::tcp_views(before).push(e@));
}

fn listen_list(p: &ProcFs) -> (r: Vec<String>)
    ensures
        text::views(r@) == listen_names(*p),
{
    let rows = tcp_rows(p, "LISTEN");
    let ghost all = sockets(*p, "LISTEN"@);
    let mut r: Vec<String> = Vec::new();
    let mut i: usize = 0;
    while i < rows.len()
        invariant
            i <= rows@.len(),
            procfs::tcp_views(rows@) == all,
            r@.len() == i,
            forall|j: int| 0 <= j < i ==> (#[trigger] r@[j])@ == tcp_name(all[j]),
        decreases rows@.len() - i,
    {
        assert(all[i as int] == rows@[i as int]@);
        let e = &rows[i];
        r.push(
            text::owned("tcp:").concat(e.local_ip.as_str()).concat(":").concat(
                text::dec_u64(e.local_port as u64).as_str(),
            ),
        );
        i = i + 1;
    }
    assert(text::views(r@) =~= listen_names(*p));
    r
}

fn udp_list(p: &ProcFs) -> (r: Vec<String>)
    ensures
        text::views(r@) == udp_names(*p),
{
    let v4: Vec<(String, u16)> = match p.udp_entries() {
        Ok(v) => v,
        Err(_) => Vec::new(),
    };
    let v6: Vec<(String, u16)> = match p.udp6_entries() {
        Ok(v) => v,
        Err(_) => Vec::new(),
    };
    let ghost all = procfs::udp_views(v4@) + procfs::udp_views(v6@);
    assert(all =~= udp_shown(*p));
    let mut r: Vec<String> = Vec::new();
    let mut i: usize = 0;
    while i < v4.len()
        invariant
            i <= v4@.len(),
            all == procfs::udp_views(v4@) + procfs::udp_views(v6@),
            r@.len() == i,
            forall|j: int| 0 <= j < i ==> (#[trigger] r@[j])@ == udp_name(all[j]),
        decreases v4@.len() - i,
    {
        assert(all[i as int] == (v4@[i as int].0@, v4@[i as int].1));
        r.push(
            text::owned("udp:").concat(v4[i].0.as_str()).concat(":").concat(
                text::dec_u64(v4[i].1 as u64).as_str(),
            ),
        );
        i = i + 1;
    }
    let mut k: usize = 0;
    while k < v6.len()
        invariant
            k <= v6@.len(),
            all == procfs::udp_views(v4@) + procfs::udp_views(v6@),
            r@.len() == v4@.len() + k,
            forall|j: int| 0 <= j < v4@.len() + k ==> (#[trigger] r@[j])@ == udp_name(all[j]),
        decreases v6@.len() - k,
    {
        assert(all[v4@.len() + k] == (v6@[k as int].0@, v6@[k as int].1));
        r.push(
            text::owned("udp:").concat(v6[k].0.as_str()).concat(":").concat(
                text::dec_u64(v6[k].1 as u64).as_str(),
            ),
        );
        k = k + 1;
    }
    assert(text::views(r@) =~= udp_names(*p));
    r
}

/// The number, the addresses and the endpoints of the established connections.
fn established_lists(p: &ProcFs) -> (r: (usize, Vec<String>, Vec<String>))
    ensures
        r.0 == sockets(*p, "ESTABLISHED"@).len(),
        text::views(r.1@) == remote_ips(*p),
        text::views(r.2@) == remote_pairs(*p),
{
    let rows = tcp_rows(p, "ESTABLISHED");
    let ghost all = sockets(*p, "ESTABLISHED"@);
    let ghost f = |e: procfs::TcpView|
        if is_remote(e.remote_ip) {
            Some(e.remote_ip)
        } else {
            None
        };
    let ghost g = |e: procfs::TcpView|
        if is_remote(e.remote_ip) {
            Some(e.remote_ip + ":"@ + text::dec(e.remote_port as nat))
        } else {
            None
        };
    let mut ips: Vec<String> = Vec::new();
    let mut pairs: Vec<String> = Vec::new();
    let mut i: usize = 0;
    assert(text::views(ips@) =~= seqs::picked(all.take(0), f));
    assert(text::views(pairs@) =~= seqs::picked(all.take(0), g));
    while i < rows.len()
        invariant
            i <= rows@.len(),
            procfs::tcp_views(rows@) == all,
            f == (|e: procfs::TcpView|
                if is_remote(e.remote_ip) {
                    Some(e.remote_ip)
                } else {
                    None
                }),
            g == (|e: procfs::TcpView|
                if is_remote(e.remote_ip) {
                    Some(e.remote_ip + ":"@ + text::dec(e.remote_port as nat))
                } else {
                    None
                }),
            text::views(ips@) == seqs::picked(all.take(i as int), f),
            text::views(pairs@) == seqs::picked(all.take(i as int), g),
        decreases rows@.len() - i,
    {
        proof {
            seqs::lemma_take_step(all, i as int);
            assert(all[i as int] == rows@[i as int]@);
        }
        let e = &rows[i];
        if !text::same(e.remote_ip.as_str(), "0.0.0.0") && !text::same(
            e.remote_ip.as_str(),
            "::",
        ) {
            let ghost ips0 = ips@;
            let ghost pairs0 = pairs@;
            let pair = text::owned(e.remote_ip.as_str()).concat(":").concat(
                text::dec_u64(e.remote_port as u64).as_str(),
            );
            ips.push(e.remote_ip.clone());
            pairs.push(pair);
            assert(text::views(ips@) =~= text::views(ips0).push(e.remote_ip@));
            assert(text::views(pairs@) =~= text::views(pairs0).push(pair@));
        }
        i = i + 1;
    }
    assert(all.take(rows@.len() as int) =~= all);
    (rows.len(), ips, pairs)
}

// ---------------------------------------------------------------------------
// Walking lists of texts
// ---------------------------------------------------------------------------

/// Add a list to a set; the texts that were new.
fn news_of(known: &mut TextSet, s: &Vec<String>) -> (r: Vec<String>)
    ensures
        text::views(r@) == news(old(known)@, text::views(s@)),
        final(known)@ == set_from(old(known)@, text::views(s@)),
{
    let ghost k0 = known@;
    let ghost all = text::views(s@);
    let mut r: Vec<String> = Vec::new();
    let mut i: usize = 0;
    assert(text::views(r@) =~= seq![]);
    assert(all.take(0) =~= seq![]);
    while i < s.len()
        invariant
            i <= s@.len(),
            all == text::views(s@),
            text::views(r@) == news(k0, all.take(i as int)),
            known@ == set_from(k0, all.take(i as int)),
        decreases s@.len() - i,
    {
        proof {
            seqs::lemma_take_step(all, i as int);
        }
        if known.insert(s[i].as_str()) {
            let ghost before = r@;
            r.push(s[i].clone());
            assert(text::views(r@) =~= text::views(before).push(s@[i as int]@));
        }
        i = i + 1;
    }
    assert(all.take(s@.len() as int) =~= all);
    r
}

/// The items of a set that another does not have.
fn missing(known: &TextSet, s: &TextSet) -> (r: Vec<String>)
    ensures
        text::views(r@) == missing_from(known@, s@),
{
    let ghost k = known@;
    let ghost f = |t: Seq<char>| !k.contains(t);
    let mut r: Vec<String> = Vec::new();
    let mut i: usize = 0;
    assert(text::views(r@) =~= seqs::kept(s@.take(0), f));
    while i < s.items.len()
        invariant
            i <= s.items@.len(),
            s@.len() == s.items@.len(),
            k == known@,
            f == (|t: Seq<char>| !k.contains(t)),
            text::views(r@) == seqs::kept(s@.take(i as int), f),
        decreases s.items@.len() - i,
    {
        proof {
            seqs::lemma_take_step(s@, i as int);
            assert(s@[i as int] == s.items@[i as int]@);
        }
        if !known.contains(s.items[i].as_str()) {
            let ghost before = r@;
            r.push(s.items[i].clone());
            assert(text::views(r@) =~= text::views(before).push(s.items@[i as int]@));
        }
        i = i + 1;
    }
    assert(s@.take(s@.len() as int) =~= s@);
    r
}

/// Whether a text is in a list.
fn listed(s: &Vec<String>, t: &str) -> (r: bool)
    ensures
        r == text::views(s@).contains(t@),
{
    let mut i: usize = 0;
    while i < s.len()
        invariant
            i <= s@.len(),
            forall|j: int| 0 <= j < i ==> #[trigger] text::views(s@)[j] != t@,
        decreases s@.len() - i,
    {
        assert(text::views(s@)[i as int] == s@[i as int]@);
        if text::same(s[i].as_str(), t) {
            return true;
        }
        i = i + 1;
    }
    false
}

/// The items of a set that are in a list.
fn only_listed(s: &TextSet, list: &Vec<String>) -> (r: TextSet)
    ensures
        r@ == seqs::kept(s@, |t: Seq<char>| text::views(list@).contains(t)),
{
    let ghost l = text::views(list@);
    let ghost f = |t: Seq<char>| l.contains(t);
    let mut r = TextSet::new();
    let mut i: usize = 0;
    assert(r@ =~= seqs::kept(s@.take(0), f));
    while i < s.items.len()
        invariant
            i <= s.items@.len(),
            s@.len() == s.items@.len(),
            l == text::views(list@),
            f == (|t: Seq<char>| l.contains(t)),
            r@ == seqs::kept(s@.take(i as int), f),
        decreases s.items@.len() - i,
    {
        proof {
            seqs::lemma_take_step(s@, i as int);
            assert(s@[i as int] == s.items@[i as int]@);
        }
        if listed(list, s.items[i].as_str()) {
            let ghost before = r@;
            r.items.push(s.items[i].clone());
            assert(r@ =~= before.push(s.items@[i as int]@));
        }
        i = i + 1;
    }
    assert(s@.take(s@.len() as int) =~= s@);
    r
}

// ---------------------------------------------------------------------------
// Events
// ---------------------------------------------------------------------------

/// The event of a new listening port.
pub open spec fn port_event(name: Seq<char>, ts: i64, host: Seq<char>) -> EventView {
    common::event_of(
        "port-"@ + name + "-"@ + text::dec_int(ts as int),
        ts,
        host,
        "port:"@ + name,
        EventKind::NewListeningPort,
        Severity::Warning,
        "new listening port: "@ + name,
        "netflow"@,
        "Entry="@ + name,
    )
}

/// The event of a connection to a new remote address.
pub open spec fn out_event(ip: Seq<char>, ts: i64, host: Seq<char>) -> EventView {
    common::event_of(
        "out-"@ + ip + "-"@ + text::dec_int(ts as int),
        ts,
        host,
        "net:out:"@ + ip,
        EventKind::NewOutboundConnection,
        Severity::Warning,
        "new outbound connection to "@ + ip,
        "netflow"@,
        "RemoteIp="@ + ip,
    )
}

/// The event of a sudden rise of the number of connections.
pub open spec fn rate_event(count: nat, ts: i64, host: Seq<char>) -> EventView {
    common::event_of(
        "rate-"@ + text::dec_int(ts as int),
        ts,
        host,
        "net:rate"@,
        EventKind::ConnectionRateSpike,
        Severity::Warning,
        "established-connection count spiked to "@ + text::dec(count),
        "netflow"@,
        "Established="@ + text::dec(count),
    )
}

/// The event of many new remote endpoints at once.
pub open spec fn scan_event(n: nat, window_ms: int, ts: i64, host: Seq<char>) -> EventView {
    common::event_of(
        "scan-"@ + text::dec_int(ts as int),
        ts,
        host,
        "net:scan"@,
        EventKind::PortScanSpike,
        Severity::Warning,
        text::dec(n) + " distinct remote connections within "@ + text::dec_int(
            crate::civil::quot(window_ms, 1000),
        ) + "s — possible port scan"@,
        "netflow"@,
        "DistinctPairs="@ + text::dec(n) + " WindowMs="@ + text::dec_int(window_ms),
    )
}

fn push_ports(evs: &mut Vec<AgentEvent>, names: &Vec<String>, ts: i64, host_id: &str)
    ensures
        common::events(final(evs)@) == common::events(old(evs)@) + text::views(
            names@,
        ).map_values(|n: Seq<char>| port_event(n, ts, host_id@)),
{
    broadcast use common::lemma_events_push;

    let ghost h = host_id@;
    let ghost all = text::views(names@).map_values(|n: Seq<char>| port_event(n, ts, h));
    let ghost e0 = common::events(evs@);
    let mut i: usize = 0;
    assert(e0 + all.take(0) =~= e0);
    while i < names.len()
        invariant
            i <= names@.len(),
            h == host_id@,
            all == text::views(names@).map_values(|n: Seq<char>| port_event(n, ts, h)),
            common::events(evs@) == e0 + all.take(i as int),
        decreases names@.len() - i,
    {
        let n = names[i].as_str();
        let ev = common::make_event(
            text::owned("port-").concat(n).concat("-").concat(text::dec_i64(ts).as_str()),
            ts,
            host_id,
            text::owned("port:").concat(n),
            EventKind::NewListeningPort,
            Severity::Warning,
            text::owned("new listening port: ").concat(n),
            "netflow",
            text::owned("Entry=").concat(n),
        );
        assert(ev@ == all[i as int]);
        evs.push(ev);
        assert((e0 + all.take(i as int)).push(ev@) =~= e0 + all.take(i + 1));
        i = i + 1;
    }
    assert(all.take(names@.len() as int) =~= all);
}

fn push_outs(evs: &mut Vec<AgentEvent>, ips: &Vec<String>, ts: i64, host_id: &str)
    ensures
        common::events(final(evs)@) == common::events(old(evs)@) + text::views(ips@).map_values(
            |n: Seq<char>| out_event(n, ts, host_id@),
        ),
{
    broadcast use common::lemma_events_push;

    let ghost h = host_id@;
    let ghost all = text::views(ips@).map_values(|n: Seq<char>| out_event(n, ts, h));
    let ghost e0 = common::events(evs@);
    let mut i: usize = 0;
    assert(e0 + all.take(0) =~= e0);
    while i < ips.len()
        invariant
            i <= ips@.len(),
            h == host_id@,
            all == text::views(ips@).map_values(|n: Seq<char>| out_event(n, ts, h)),
            common::events(evs@) == e0 + all.take(i as int),
        decreases ips@.len() - i,
    {
        let n = ips[i].as_str();
        let ev = common::make_event(
            text::owned("out-").concat(n).concat("-").concat(text::dec_i64(ts).as_str()),
            ts,
            host_id,
            text::owned("net:out:").concat(n),
            EventKind::NewOutboundConnection,
            Severity::Warning,
            text::owned("new outbound connection to ").concat(n),
            "netflow",
            text::owned("RemoteIp=").concat(n),
        );
        assert(ev@ == all[i as int]);
        evs.push(ev);
        assert((e0 + all.take(i as int)).push(ev@) =~= e0 + all.take(i + 1));
        i = i + 1;
    }
    assert(all.take(ips@.len() as int) =~= all);
}

// ---------------------------------------------------------------------------
// The state across polls
// ---------------------------------------------------------------------------

/// What is remembered of the network from poll to poll.
#[verifier::ext_equal]
pub struct NetView {
    pub listen: Seq<Seq<char>>,
    pub udp: Seq<Seq<char>>,
    pub remote: Seq<Seq<char>>,
    pub pairs: Seq<Seq<char>>,
    pub recent: Seq<(i64, Seq<char>)>,
    pub count: nat,
    pub samples: Seq<u64>,
}

/// The recent new endpoints at `ts`: those of before and the ones never seen,
/// within the window.
pub open spec fn recent_at(v: NetView, p: ProcFs, ts: i64, window_ms: int) -> Seq<
    (i64, Seq<char>),
> {
    let fresh = news(v.pairs, remote_pairs(p)).map_values(|n: Seq<char>| (ts, n));
    in_window(v.recent + fresh, ts as int, window_ms)
}

/// What is remembered after a poll.
pub open spec fn net_after(
    v: NetView,
    p: ProcFs,
    ts: i64,
    threshold: int,
    window_ms: int,
) -> NetView {
    let count = sockets(p, "ESTABLISHED"@).len();
    let recent = recent_at(v, p, ts, window_ms);
    NetView {
        listen: set_from(seq![], listen_names(p)),
        udp: seqs::kept(
            set_from(v.udp, udp_names(p)),
            |t: Seq<char>| udp_names(p).contains(t),
        ),
        remote: set_from(seq![], remote_ips(p)),
        pairs: set_from(v.pairs, remote_pairs(p)),
        recent: if is_scan(recent, ts as int, window_ms, threshold) {
            seq![]
        } else {
            recent
        },
        count,
        samples: with_sample(v.samples, count as u64),
    }
}

/// The events of a poll: new TCP ports, new UDP ports, new remote addresses, a
/// spike of the number of connections, and a possible port scan, in this order.
pub open spec fn net_events(
    v: NetView,
    p: ProcFs,
    ts: i64,
    host: Seq<char>,
    threshold: int,
    window_ms: int,
) -> Seq<EventView> {
    let count = sockets(p, "ESTABLISHED"@).len();
    let recent = recent_at(v, p, ts, window_ms);
    let ports = missing_from(v.listen, set_from(seq![], listen_names(p))).map_values(
        |n: Seq<char>| port_event(n, ts, host),
    );
    let udp = news(v.udp, udp_names(p)).map_values(|n: Seq<char>| port_event(n, ts, host));
    let outs = missing_from(v.remote, set_from(seq![], remote_ips(p))).map_values(
        |n: Seq<char>| out_event(n, ts, host),
    );
    let rate = if v.count > 0 && is_spike(with_sample(v.samples, count as u64), count as u64) {
        seq![rate_event(count, ts, host)]
    } else {
        seq![]
    };
    let scan = if is_scan(recent, ts as int, window_ms, threshold) {
        seq![scan_event(recent.len(), window_ms, ts, host)]
    } else {
        seq![]
    };
    ports + udp + outs + rate + scan
}

/// Snapshot state for network monitoring: previous listen/remote sets and a
/// rolling baseline of the established-connection count.
pub struct NetState {
    pub prev_listen: TextSet,
    pub prev_udp_listen: TextSet,
    pub prev_remote: TextSet,
    pub prev_scan_pairs: TextSet,
    pub recent_connects: VecDeque<(i64, String)>,
    pub prev_count: usize,
    pub samples: Vec<u64>,
}

impl View for NetState {
    type V = NetView;

    open spec fn view(&self) -> NetView {
        NetView {
            listen: self.prev_listen@,
            udp: self.prev_udp_listen@,
            remote: self.prev_remote@,
            pairs: self.prev_scan_pairs@,
            recent: connect_views(self.recent_connects@),
            count: self.prev_count as nat,
            samples: self.samples@,
        }
    }
}

impl Default for NetState {
    fn default() -> (r: Self)
        ensures
            r@ == (NetView {
                listen: seq![],
                udp: seq![],
                remote: seq![],
                pairs: seq![],
                recent: seq![],
                count: 0,
                samples: seq![],
            }),
    {
        let r = NetState {
            prev_listen: TextSet::new(),
            prev_udp_listen: TextSet::new(),
            prev_remote: TextSet::new(),
            prev_scan_pairs: TextSet::new(),
            recent_connects: VecDeque::new(),
            prev_count: 0,
            samples: Vec::new(),
        };
        assert(r@.listen =~= seq![] && r@.udp =~= seq![] && r@.remote =~= seq![] && r@.pairs
            =~= seq![] && r@.recent =~= seq![] && r@.samples =~= seq![]);
        r
    }
}

/// Add new endpoints at `ts` to a list, and drop those outside the window.
fn add_connects(
    recent: &mut VecDeque<(i64, String)>,
    fresh: &Vec<String>,
    ts: i64,
    window_ms: i64,
)
    ensures
        connect_views(final(recent)@) == in_window(
            connect_views(old(recent)@) + text::views(fresh@).map_values(
                |n: Seq<char>| (ts, n),
            ),
            ts as int,
            window_ms as int,
        ),
{
    let ghost r0 = connect_views(recent@);
    let ghost added = text::views(fresh@).map_values(|n: Seq<char>| (ts, n));
    let mut i: usize = 0;
    assert(r0 + added.take(0) =~= r0);
    while i < fresh.len()
        invariant
            i <= fresh@.len(),
            added == text::views(fresh@).map_values(|n: Seq<char>| (ts, n)),
            connect_views(recent@) == r0 + added.take(i as int),
        decreases fresh@.len() - i,
    {
        let ghost before = recent@;
        let t = fresh[i].clone();
        recent.push_back((ts, t));
        assert(connect_views(recent@) =~= connect_views(before).push((ts, t@)));
        assert(added[i as int] == (ts, t@));
        assert((r0 + added.take(i as int)).push(added[i as int]) =~= r0 + added.take(i + 1));
        i = i + 1;
    }
    assert(added.take(fresh@.len() as int) =~= added);
    let ghost all = r0 + added;
    let ghost w = window_ms as int;
    let ghost nw = ts as int;
    let ghost f = |e: (i64, Seq<char>)| e.0 + w >= nw;
    let mut kept: VecDeque<(i64, String)> = VecDeque::new();
    let ghost mut done: int = 0;
    assert(connect_views(recent@) =~= all.skip(0));
    assert(connect_views(kept@) =~= seqs::kept(all.take(0), f));
    while recent.len() > 0
        invariant
            0 <= done <= all.len(),
            w == window_ms,
            nw == ts,
            f == (|e: (i64, Seq<char>)| e.0 + w >= nw),
            connect_views(recent@) == all.skip(done),
            connect_views(kept@) == seqs::kept(all.take(done), f),
        decreases recent@.len(),
    {
        let ghost before = recent@;
        proof {
            assert(connect_views(before).len() == before.len());
            assert(all.skip(done).len() == all.len() - done);
            assert(connect_views(before)[0] == all.skip(done)[0]);
            assert(connect_views(before)[0] == all[done]);
            seqs::lemma_take_step(all, done);
        }
        match recent.pop_front() {
            Some(e) => {
                proof {
                    assert(all[done] == (e.0, e.1@));
                    assert(connect_views(recent@) =~= connect_views(before).skip(1));
                    assert(all.skip(done).skip(1) =~= all.skip(done + 1));
                    done = done + 1;
                }
                if e.0 as i128 + window_ms as i128 >= ts as i128 {
                    let ghost k0 = kept@;
                    let ghost ev = (e.0, e.1@);
                    kept.push_back(e);
                    assert(connect_views(kept@) =~= connect_views(k0).push(ev));
                }
            },
            None => {},
        }
    }
    proof {
        assert(connect_views(recent@).len() == 0);
        assert(all.take(done) =~= all);
    }
    recent.append(&mut kept);
    assert(connect_views(recent@) =~= seqs::kept(all, f));
}

impl NetState {
    /// Observe the current network state at ts_ms; emit events for changes.
    pub fn observe(
        &mut self,
        p: &ProcFs,
        ts: i64,
        host_id: &str,
        scan_threshold: u32,
        scan_window_ms: i64,
    ) -> (evs: Vec<AgentEvent>)
        ensures
            common::events(evs@) == net_events(
                old(self)@,
                *p,
                ts,
                host_id@,
                scan_threshold as int,
                scan_window_ms as int,
            ),
            final(self)@ == net_after(
                old(self)@,
                *p,
                ts,
                scan_threshold as int,
                scan_window_ms as int,
            ),
    {
        broadcast use common::lemma_events_push;

        let ghost v = self@;
        let ghost h = host_id@;
        let mut evs: Vec<AgentEvent> = Vec::new();
        assert(common::events(evs@) =~= seq![]);

        let listen_now = listen_list(p);
        let mut listen = TextSet::new();
        let distinct_listen = news_of(&mut listen, &listen_now);
        let (count, ips, pairs) = established_lists(p);
        let mut remote = TextSet::new();
        let distinct_remote = news_of(&mut remote, &ips);
        let udp_now = udp_list(p);

        let new_ports = missing(&self.prev_listen, &listen);
        push_ports(&mut evs, &new_ports, ts, host_id);
        let new_udp = news_of(&mut self.prev_udp_listen, &udp_now);
        push_ports(&mut evs, &new_udp, ts, host_id);
        self.prev_udp_listen = only_listed(&self.prev_udp_listen, &udp_now);
        let new_remote = missing(&self.prev_remote, &remote);
        push_outs(&mut evs, &new_remote, ts, host_id);
        let ghost ports = missing_from(v.listen, set_from(seq![], listen_names(*p))).map_values(
            |n: Seq<char>| port_event(n, ts, h),
        );
        let ghost udp = news(v.udp, udp_names(*p)).map_values(
            |n: Seq<char>| port_event(n, ts, h),
        );
        let ghost outs = missing_from(v.remote, set_from(seq![], remote_ips(*p))).map_values(
            |n: Seq<char>| out_event(n, ts, h),
        );
        assert(common::events(evs@) =~= ports + udp + outs);

        push_sample(&mut self.samples, count as u64);
        let spike = self.prev_count > 0 && spike_of(&self.samples, count as u64);
        let ghost rate: Seq<EventView> = if spike {
            seq![rate_event(count as nat, ts, h)]
        } else {
            seq![]
        };
        if spike {
            let ev = common::make_event(
                text::owned("rate-").concat(text::dec_i64(ts).as_str()),
                ts,
                host_id,
                text::owned("net:rate"),
                EventKind::ConnectionRateSpike,
                Severity::Warning,
                text::owned("established-connection count spiked to ").concat(
                    text::dec_u64(count as u64).as_str(),
                ),
                "netflow",
                text::owned("Established=").concat(text::dec_u64(count as u64).as_str()),
            );
            evs.push(ev);
        }
        assert(common::events(evs@) =~= ports + udp + outs + rate);

        let fresh = news_of(&mut self.prev_scan_pairs, &pairs);
        add_connects(&mut self.recent_connects, &fresh, ts, scan_window_ms);
        let ghost recent = recent_at(v, *p, ts, scan_window_ms as int);
        assert(connect_views(self.recent_connects@) == recent);
        let scan = scan_fires(&self.recent_connects, ts, scan_window_ms, scan_threshold);
        let ghost scan_evs: Seq<EventView> = if scan {
            seq![scan_event(recent.len(), scan_window_ms as int, ts, h)]
        } else {
            seq![]
        };
        if scan {
            let distinct: usize = self.recent_connects.len();
            assert(distinct == recent.len());
            self.recent_connects.clear();
            assert(connect_views(self.recent_connects@) =~= seq![]);
            let ev = common::make_event(
                text::owned("scan-").concat(text::dec_i64(ts).as_str()),
                ts,
                host_id,
                text::owned("net:scan"),
                EventKind::PortScanSpike,
                Severity::Warning,
                text::dec_u64(distinct as u64).concat(" distinct remote connections within ").concat(
                    text::dec_i64(scan_window_ms / 1000).as_str(),
                ).concat("s — possible port scan"),
                "netflow",
                text::owned("DistinctPairs=").concat(text::dec_u64(distinct as u64).as_str()).concat(
                    " WindowMs=",
                ).concat(text::dec_i64(scan_window_ms).as_str()),
            );
            evs.push(ev);
        }
        assert(common::events(evs@) =~= ports + udp + outs + rate + scan_evs);

        self.prev_listen = listen;
        self.prev_remote = remote;
        self.prev_count = count;
        evs
    }
}

/// A poll that shows the same sockets as the one before it brings no new
/// ports, no new remote addresses and no new endpoints.
pub proof fn law_unchanged_sockets_bring_no_news(
    v: NetView,
    p: ProcFs,
    ts: i64,
    threshold: int,
    window_ms: int,
)
    ensures
        ({
            let w = net_after(v, p, ts, threshold, window_ms);
            &&& missing_from(w.listen, set_from(seq![], listen_names(p))).len() == 0
            &&& news(w.udp, udp_names(p)).len() == 0
            &&& missing_from(w.remote, set_from(seq![], remote_ips(p))).len() == 0
            &&& news(w.pairs, remote_pairs(p)).len() == 0
        }),
{
    let w = net_after(v, p, ts, threshold, window_ms);
    lemma_nothing_missing(w.listen);
    lemma_nothing_missing(w.remote);
    assert forall|t: Seq<char>| #[trigger] udp_names(p).contains(t) implies w.udp.contains(t) by {
        law_set_from(v.udp, udp_names(p), t);
        let s = set_from(v.udp, udp_names(p));
        seqs::lemma_kept(s, |t: Seq<char>| udp_names(p).contains(t));
    }
    lemma_known_brings_no_news(w.udp, udp_names(p));
    assert forall|t: Seq<char>| #[trigger] remote_pairs(p).contains(t) implies w.pairs.contains(
        t,
    ) by {
        law_set_from(v.pairs, remote_pairs(p), t);
    }
    lemma_known_brings_no_news(w.pairs, remote_pairs(p));
}

proof fn lemma_nothing_missing(s: Seq<Seq<char>>)
    ensures
        missing_from(s, s).len() == 0,
{
    let m = missing_from(s, s);
    seqs::lemma_kept(s, |t: Seq<char>| !s.contains(t));
    if m.len() > 0 {
        assert(m.contains(m[0]));
    }
}

/// The names of the listening sockets, TCP and UDP.
pub open spec fn port_names(p: ProcFs) -> Seq<Seq<char>> {
    listen_names(p) + udp_names(p)
}

/// What is remembered of listening sockets and remote addresses is what a poll
/// showed; with no poll yet, nothing.
pub open spec fn remembers(v: NetView, prev: Option<ProcFs>) -> bool {
    &&& forall|t: Seq<char>| #[trigger]
        v.listen.contains(t) <==> (prev matches Some(q) && listen_names(q).contains(t))
    &&& forall|t: Seq<char>| #[trigger]
        v.udp.contains(t) <==> (prev matches Some(q) && udp_names(q).contains(t))
    &&& forall|t: Seq<char>| #[trigger]
        v.remote.contains(t) <==> (prev matches Some(q) && remote_ips(q).contains(t))
}

/// The keys of the events of a kind.
pub open spec fn keys_of(evs: Seq<EventView>, kind: EventKind) -> Seq<Seq<char>> {
    seqs::picked(
        evs,
        |e: EventView|
            if e.kind == kind {
                Some(e.key)
            } else {
                None
            },
    )
}

/// A state that remembers nothing is one before the first poll, and after a
/// poll the state remembers what that poll showed.
pub proof fn law_a_poll_is_remembered(
    v: NetView,
    p: ProcFs,
    ts: i64,
    threshold: int,
    window_ms: int,
)
    ensures
        v.listen.len() == 0 && v.udp.len() == 0 && v.remote.len() == 0 ==> remembers(v, None),
        remembers(net_after(v, p, ts, threshold, window_ms), Some(p)),
{
    let w = net_after(v, p, ts, threshold, window_ms);
    assert forall|t: Seq<char>| #[trigger] w.listen.contains(t) <==> listen_names(p).contains(t) by {
        law_set_from(seq![], listen_names(p), t);
    }
    assert forall|t: Seq<char>| #[trigger] w.udp.contains(t) <==> udp_names(p).contains(t) by {
        law_set_from(v.udp, udp_names(p), t);
        seqs::lemma_kept(
            set_from(v.udp, udp_names(p)),
            |t: Seq<char>| udp_names(p).contains(t),
        );
    }
    assert forall|t: Seq<char>| #[trigger] w.remote.contains(t) <==> remote_ips(p).contains(t) by {
        law_set_from(seq![], remote_ips(p), t);
    }
}

/// What a list brings that is not known: what it holds and `known` does not,
/// each once.
proof fn lemma_news(known: Seq<Seq<char>>, s: Seq<Seq<char>>)
    ensures
        news(known, s).no_duplicates(),
        forall|t: Seq<char>| #[trigger]
            news(known, s).contains(t) <==> (s.contains(t) && !known.contains(t)),
    decreases s.len(),
{
    if s.len() > 0 {
        let init = s.drop_last();
        let l = s.last();
        lemma_news(known, init);
        law_set_from(known, init, l);
        let k = news(known, init);
        let r = news(known, s);
        assert(s[s.len() - 1] == l);
        assert forall|t: Seq<char>| #[trigger] r.contains(t) <==> (s.contains(t)
            && !known.contains(t)) by {
            if s.contains(t) && t != l {
                let i = choose|i: int| 0 <= i < s.len() && s[i] == t;
                assert(init[i] == t);
            }
            if init.contains(t) {
                let i = choose|i: int| 0 <= i < init.len() && init[i] == t;
                assert(s[i] == t);
            }
            if k.contains(t) {
                let i = choose|i: int| 0 <= i < k.len() && k[i] == t;
                assert(r[i] == t);
            }
            if r.contains(t) && !k.contains(t) {
                let i = choose|i: int| 0 <= i < r.len() && r[i] == t;
                if i < k.len() {
                    assert(k[i] == t);
                }
            }
            if r.len() > k.len() {
                assert(r[k.len() as int] == l);
            }
        }
        if r.len() > k.len() {
            assert(!k.contains(l));
            lemma_push_differs(k, l);
        }
    }
}

proof fn lemma_push_differs(k: Seq<Seq<char>>, l: Seq<char>)
    requires
        k.no_duplicates(),
        !k.contains(l),
    ensures
        k.push(l).no_duplicates(),
{
    let r = k.push(l);
    assert forall|a: int, b: int| 0 <= a < r.len() && 0 <= b < r.len() && a != b implies r[a]
        != r[b] by {
        if a < k.len() && b == k.len() {
            assert(k.contains(k[a]));
        }
        if b < k.len() && a == k.len() {
            assert(k.contains(k[b]));
        }
    }
}

/// What a list holds and `known` does not, out of the list as a set: each once.
proof fn lemma_missing(known: Seq<Seq<char>>, s: Seq<Seq<char>>)
    ensures
        missing_from(known, set_from(seq![], s)).no_duplicates(),
        forall|t: Seq<char>| #[trigger]
            missing_from(known, set_from(seq![], s)).contains(t) <==> (s.contains(t)
                && !known.contains(t)),
{
    let set = set_from(seq![], s);
    let f = |t: Seq<char>| !known.contains(t);
    law_set_from(seq![], s, seq![]);
    lemma_kept_differs(set, f);
    seqs::lemma_kept(set, f);
    assert forall|t: Seq<char>| #[trigger] missing_from(known, set).contains(t) <==> (s.contains(t)
        && !known.contains(t)) by {
        law_set_from(seq![], s, t);
    }
}

proof fn lemma_kept_differs(s: Seq<Seq<char>>, f: spec_fn(Seq<char>) -> bool)
    requires
        s.no_duplicates(),
    ensures
        seqs::kept(s, f).no_duplicates(),
    decreases s.len(),
{
    if s.len() > 0 {
        let t = s.drop_last();
        assert forall|a: int, b: int| 0 <= a < t.len() && 0 <= b < t.len() && a != b implies t[a]
            != t[b] by {
            assert(t[a] == s[a] && t[b] == s[b]);
        }
        lemma_kept_differs(t, f);
        seqs::lemma_kept(t, f);
        if f(s.last()) {
            if seqs::kept(t, f).contains(s.last()) {
                assert(t.contains(s.last()));
                let i = choose|i: int| 0 <= i < t.len() && t[i] == s.last();
                assert(s[i] == s[s.len() - 1]);
            }
            lemma_push_differs(seqs::kept(t, f), s.last());
        }
    }
}

proof fn lemma_keys_add(a: Seq<EventView>, b: Seq<EventView>, kind: EventKind)
    ensures
        keys_of(a + b, kind) == keys_of(a, kind) + keys_of(b, kind),
    decreases b.len(),
{
    if b.len() == 0 {
        assert(a + b =~= a);
        assert(keys_of(a, kind) + keys_of(b, kind) =~= keys_of(a, kind));
    } else {
        lemma_keys_add(a, b.drop_last(), kind);
        assert((a + b).drop_last() =~= a + b.drop_last());
        assert((a + b).last() == b.last());
        assert(keys_of(a + b, kind) =~= keys_of(a, kind) + keys_of(b, kind));
    }
}

/// The keys of the events that a list of names gives.
proof fn lemma_keys_of_names(
    names: Seq<Seq<char>>,
    make: spec_fn(Seq<char>) -> EventView,
    made: EventKind,
    kind: EventKind,
)
    requires
        forall|n: Seq<char>| (#[trigger] make(n)).kind == made,
    ensures
        keys_of(names.map_values(make), kind) == (if made == kind {
            names.map_values(|n: Seq<char>| make(n).key)
        } else {
            seq![]
        }),
    decreases names.len(),
{
    let evs = names.map_values(make);
    if names.len() > 0 {
        lemma_keys_of_names(names.drop_last(), make, made, kind);
        assert(evs.drop_last() =~= names.drop_last().map_values(make));
        assert(evs.last() == make(names.last()));
        if made == kind {
            assert(keys_of(evs, kind) =~= names.map_values(|n: Seq<char>| make(n).key));
        }
    } else if made == kind {
        assert(keys_of(evs, kind) =~= names.map_values(|n: Seq<char>| make(n).key));
    }
}

/// Names behind a common beginning: each as often as without it.
proof fn lemma_prefixed(
    names: Seq<Seq<char>>,
    head: Seq<char>,
    keys: Seq<Seq<char>>,
)
    requires
        names.no_duplicates(),
        keys.len() == names.len(),
        forall|i: int| 0 <= i < names.len() ==> #[trigger] keys[i] == head + names[i],
    ensures
        keys.no_duplicates(),
        forall|n: Seq<char>| keys.contains(#[trigger] (head + n)) <==> names.contains(n),
        forall|k: Seq<char>| #[trigger]
            keys.contains(k) ==> exists|n: Seq<char>| #[trigger] names.contains(n) && k == head + n,
{
    assert forall|a: Seq<char>, b: Seq<char>| #[trigger] (head + a) == #[trigger] (head
        + b) implies a == b by {
        assert((head + a).skip(head.len() as int) =~= a);
        assert((head + b).skip(head.len() as int) =~= b);
    }
    assert forall|n: Seq<char>| keys.contains(#[trigger] (head + n)) <==> names.contains(n) by {
        if keys.contains(head + n) {
            let i = choose|i: int| 0 <= i < keys.len() && keys[i] == head + n;
            assert(names[i] == n);
        }
        if names.contains(n) {
            let i = choose|i: int| 0 <= i < names.len() && names[i] == n;
            assert(keys[i] == head + n);
        }
    }
    assert forall|k: Seq<char>| #[trigger] keys.contains(k) implies exists|n: Seq<char>|
        #[trigger] names.contains(n) && k == head + n by {
        let i = choose|i: int| 0 <= i < keys.len() && keys[i] == k;
        assert(names.contains(names[i]));
    }
}

/// The names of TCP sockets are none of UDP sockets.
proof fn lemma_tcp_is_not_udp(p: ProcFs, q: ProcFs, t: Seq<char>)
    ensures
        !(listen_names(p).contains(t) && udp_names(q).contains(t)),
{
    reveal_strlit("tcp:");
    reveal_strlit("udp:");
    if listen_names(p).contains(t) && udp_names(q).contains(t) {
        let i = choose|i: int| 0 <= i < listen_names(p).len() && listen_names(p)[i] == t;
        let j = choose|j: int| 0 <= j < udp_names(q).len() && udp_names(q)[j] == t;
        assert(t == tcp_name(sockets(p, "LISTEN"@)[i]));
        assert(t == udp_name(udp_shown(q)[j]));
        assert(t[0] == "tcp:"@[0] && t[0] == "udp:"@[0]);
    }
}

/// A poll reports as new ports exactly the listening sockets that it shows and
/// the poll before did not, and as new connections exactly the remote
/// addresses that it shows and the poll before did not: each once. Before the
/// first poll nothing was shown.
pub proof fn law_new_sockets_are_reported_once(
    v: NetView,
    prev: Option<ProcFs>,
    p: ProcFs,
    ts: i64,
    host: Seq<char>,
    threshold: int,
    window_ms: int,
)
    requires
        remembers(v, prev),
    ensures
        ({
            let evs = net_events(v, p, ts, host, threshold, window_ms);
            let ports = keys_of(evs, EventKind::NewListeningPort);
            let outs = keys_of(evs, EventKind::NewOutboundConnection);
            &&& ports.no_duplicates()
            &&& forall|n: Seq<char>|
                ports.contains(#[trigger] ("port:"@ + n)) <==> (port_names(p).contains(n) && !(
                prev matches Some(q) && port_names(q).contains(n)))
            &&& forall|k: Seq<char>| #[trigger]
                ports.contains(k) ==> exists|n: Seq<char>| #[trigger]
                    port_names(p).contains(n) && k == "port:"@ + n
            &&& outs.no_duplicates()
            &&& forall|ip: Seq<char>|
                outs.contains(#[trigger] ("net:out:"@ + ip)) <==> (remote_ips(p).contains(ip) && !(
                prev matches Some(q) && remote_ips(q).contains(ip)))
            &&& forall|k: Seq<char>| #[trigger]
                outs.contains(k) ==> exists|ip: Seq<char>| #[trigger]
                    remote_ips(p).contains(ip) && k == "net:out:"@ + ip
        }),
{
    let evs = net_events(v, p, ts, host, threshold, window_ms);
    let tcp = missing_from(v.listen, set_from(seq![], listen_names(p)));
    let udp = news(v.udp, udp_names(p));
    let far = missing_from(v.remote, set_from(seq![], remote_ips(p)));
    lemma_missing(v.listen, listen_names(p));
    lemma_news(v.udp, udp_names(p));
    lemma_missing(v.remote, remote_ips(p));
    let names = tcp + udp;
    lemma_names_apart(p, tcp, udp);
    lemma_event_keys(v, p, ts, host, threshold, window_ms);
    let ports = keys_of(evs, EventKind::NewListeningPort);
    let outs = keys_of(evs, EventKind::NewOutboundConnection);
    lemma_prefixed(names, "port:"@, ports);
    lemma_prefixed(far, "net:out:"@, outs);
    assert forall|n: Seq<char>| #[trigger] names.contains(n) <==> (port_names(p).contains(n) && !(
    prev matches Some(q) && port_names(q).contains(n))) by {
        lemma_either(tcp, udp, n);
        lemma_either(listen_names(p), udp_names(p), n);
        assert(v.listen.contains(n) || !v.listen.contains(n));
        assert(v.udp.contains(n) || !v.udp.contains(n));
        match prev {
            Some(q) => {
                lemma_either(listen_names(q), udp_names(q), n);
                lemma_tcp_is_not_udp(p, q, n);
                lemma_tcp_is_not_udp(q, p, n);
            },
            None => {},
        }
    }
    assert forall|n: Seq<char>| ports.contains(#[trigger] ("port:"@ + n)) <==> (port_names(
        p,
    ).contains(n) && !(prev matches Some(q) && port_names(q).contains(n))) by {
        assert(names.contains(n) || !names.contains(n));
    }
    assert forall|k: Seq<char>| #[trigger] ports.contains(k) implies exists|n: Seq<char>|
        #[trigger] port_names(p).contains(n) && k == "port:"@ + n by {
        let n = choose|n: Seq<char>| #[trigger] names.contains(n) && k == "port:"@ + n;
        assert(port_names(p).contains(n));
    }
    assert forall|ip: Seq<char>| outs.contains(#[trigger] ("net:out:"@ + ip)) <==> (remote_ips(
        p,
    ).contains(ip) && !(prev matches Some(q) && remote_ips(q).contains(ip))) by {
        assert(far.contains(ip) || !far.contains(ip));
        assert(v.remote.contains(ip) || !v.remote.contains(ip));
    }
    assert forall|k: Seq<char>| #[trigger] outs.contains(k) implies exists|ip: Seq<char>|
        #[trigger] remote_ips(p).contains(ip) && k == "net:out:"@ + ip by {
        let ip = choose|ip: Seq<char>| #[trigger] far.contains(ip) && k == "net:out:"@ + ip;
        assert(remote_ips(p).contains(ip));
    }
}

proof fn lemma_either(a: Seq<Seq<char>>, b: Seq<Seq<char>>, t: Seq<char>)
    ensures
        (a + b).contains(t) <==> (a.contains(t) || b.contains(t)),
{
    if a.contains(t) {
        let i = choose|i: int| 0 <= i < a.len() && a[i] == t;
        assert((a + b)[i] == t);
    }
    if b.contains(t) {
        let i = choose|i: int| 0 <= i < b.len() && b[i] == t;
        assert((a + b)[a.len() + i] == t);
    }
}

/// New TCP names and new UDP names together have no name twice.
proof fn lemma_names_apart(p: ProcFs, tcp: Seq<Seq<char>>, udp: Seq<Seq<char>>)
    requires
        tcp.no_duplicates(),
        udp.no_duplicates(),
        forall|t: Seq<char>| #[trigger] tcp.contains(t) ==> listen_names(p).contains(t),
        forall|t: Seq<char>| #[trigger] udp.contains(t) ==> udp_names(p).contains(t),
    ensures
        (tcp + udp).no_duplicates(),
{
    let r = tcp + udp;
    assert forall|i: int, j: int| 0 <= i < tcp.len() && 0 <= j < udp.len() implies #[trigger] tcp[i]
        != #[trigger] udp[j] by {
        assert(tcp.contains(tcp[i]) && udp.contains(udp[j]));
        lemma_tcp_is_not_udp(p, p, tcp[i]);
    }
    assert forall|a: int, b: int| 0 <= a < r.len() && 0 <= b < r.len() && a != b implies r[a]
        != r[b] by {
        if a < tcp.len() && b >= tcp.len() {
            assert(tcp[a] != udp[b - tcp.len()]);
        }
        if b < tcp.len() && a >= tcp.len() {
            assert(tcp[b] != udp[a - tcp.len()]);
        }
    }
}

/// The keys of the new-port and new-connection events of a poll.
proof fn lemma_event_keys(
    v: NetView,
    p: ProcFs,
    ts: i64,
    host: Seq<char>,
    threshold: int,
    window_ms: int,
)
    ensures
        ({
            let evs = net_events(v, p, ts, host, threshold, window_ms);
            let names = missing_from(v.listen, set_from(seq![], listen_names(p))) + news(
                v.udp,
                udp_names(p),
            );
            let far = missing_from(v.remote, set_from(seq![], remote_ips(p)));
            &&& keys_of(evs, EventKind::NewListeningPort) == names.map_values(
                |n: Seq<char>| "port:"@ + n,
            )
            &&& keys_of(evs, EventKind::NewOutboundConnection) == far.map_values(
                |n: Seq<char>| "net:out:"@ + n,
            )
        }),
{
    let tcp = missing_from(v.listen, set_from(seq![], listen_names(p)));
    let udp = news(v.udp, udp_names(p));
    let far = missing_from(v.remote, set_from(seq![], remote_ips(p)));
    let port = |n: Seq<char>| port_event(n, ts, host);
    let out = |n: Seq<char>| out_event(n, ts, host);
    let evs = net_events(v, p, ts, host, threshold, window_ms);
    let front = tcp.map_values(port) + udp.map_values(port) + far.map_values(out);
    let rest = evs.skip(front.len() as int);
    assert(evs =~= front + rest);
    assert(rest.len() <= 2);
    assert forall|i: int| 0 <= i < rest.len() implies (#[trigger] rest[i]).kind
        == EventKind::ConnectionRateSpike || rest[i].kind == EventKind::PortScanSpike by {
        assert(rest[i] == evs[front.len() + i]);
    }
    lemma_other_kinds(front, rest, tcp.map_values(port), udp.map_values(port), far.map_values(out));
    let np = EventKind::NewListeningPort;
    let no = EventKind::NewOutboundConnection;
    lemma_keys_of_names(tcp, port, np, np);
    lemma_keys_of_names(udp, port, np, np);
    lemma_keys_of_names(far, out, no, np);
    lemma_keys_of_names(tcp, port, np, no);
    lemma_keys_of_names(udp, port, np, no);
    lemma_keys_of_names(far, out, no, no);
    assert(keys_of(evs, np) =~= (tcp + udp).map_values(|n: Seq<char>| "port:"@ + n));
    assert(keys_of(evs, no) =~= far.map_values(|n: Seq<char>| "net:out:"@ + n));
}

proof fn lemma_other_kinds(
    front: Seq<EventView>,
    rest: Seq<EventView>,
    a: Seq<EventView>,
    b: Seq<EventView>,
    c: Seq<EventView>,
)
    requires
        front == a + b + c,
        forall|i: int|
            0 <= i < rest.len() ==> (#[trigger] rest[i]).kind == EventKind::ConnectionRateSpike
                || rest[i].kind == EventKind::PortScanSpike,
    ensures
        forall|kind: EventKind|
            kind == EventKind::NewListeningPort || kind == EventKind::NewOutboundConnection
                ==> #[trigger] keys_of(front + rest, kind) == keys_of(a, kind) + keys_of(b, kind)
                + keys_of(c, kind),
{
    assert forall|kind: EventKind|
        kind == EventKind::NewListeningPort || kind
            == EventKind::NewOutboundConnection implies #[trigger] keys_of(front + rest, kind)
        == keys_of(a, kind) + keys_of(b, kind) + keys_of(c, kind) by {
        lemma_keys_add(front, rest, kind);
        lemma_keys_add(a + b, c, kind);
        lemma_keys_add(a, b, kind);
        let k = keys_of(rest, kind);
        if k.len() > 0 {
            let f = |e: EventView|
                if e.kind == kind {
                    Some(e.key)
                } else {
                    None
                };
            assert(k.contains(k[0]));
            seqs::lemma_picked(rest, f, k[0]);
            let i = choose|i: int| 0 <= i < rest.len() && f(#[trigger] rest[i]) == Some(k[0]);
            assert(rest[i].kind == kind);
        }
        assert(keys_of(front, kind) + k =~= keys_of(front, kind));
    }
}

/// A poll reports a spike of the connection count once, when there were
/// connections before and the count is at least two and a half times the median
/// of the last twenty counts, its own among them; and not otherwise. `v` is
/// those counts in ascending order.
pub proof fn law_a_poll_reports_a_spike(
    n: NetView,
    p: ProcFs,
    ts: i64,
    host: Seq<char>,
    threshold: int,
    window_ms: int,
    v: Seq<u64>,
)
    requires
        n.samples.len() <= 20,
        v.to_multiset() == ({
            let count = tcp_shown(p).filter(
                |e: procfs::TcpView| e.state == "ESTABLISHED"@,
            ).len() as u64;
            if n.samples.len() < 20 {
                n.samples.push(count)
            } else {
                n.samples.skip(1).push(count)
            }
        }).to_multiset(),
        forall|i: int, j: int| 0 <= i <= j < v.len() ==> #[trigger] v[i] <= #[trigger] v[j],
    ensures
        ({
            let count = tcp_shown(p).filter(
                |e: procfs::TcpView| e.state == "ESTABLISHED"@,
            ).len() as u64;
            let twice = v[(v.len() - 1) / 2] + v[v.len() as int / 2];
            keys_of(
                net_events(n, p, ts, host, threshold, window_ms),
                EventKind::ConnectionRateSpike,
            ) == (if n.count > 0 && n.samples.len() > 0 && twice > 0 && 4 * count >= 5 * twice {
                seq!["net:rate"@]
            } else {
                seq![]
            })
        }),
{
    broadcast use vstd::seq_lib::group_to_multiset_ensures;

    seqs::lemma_kept_is_filter(
        tcp_shown(p),
        |e: procfs::TcpView| e.state == "ESTABLISHED"@,
        |e: procfs::TcpView| e.state == "ESTABLISHED"@,
    );
    let count = sockets(p, "ESTABLISHED"@).len() as u64;
    let s = with_sample(n.samples, count);
    law_spikes_exceed_the_median(s, count, v);
    lemma_rate_keys(n, p, ts, host, threshold, window_ms);
}

proof fn lemma_rate_keys(
    v: NetView,
    p: ProcFs,
    ts: i64,
    host: Seq<char>,
    threshold: int,
    window_ms: int,
)
    ensures
        ({
            let count = sockets(p, "ESTABLISHED"@).len();
            keys_of(
                net_events(v, p, ts, host, threshold, window_ms),
                EventKind::ConnectionRateSpike,
            ) == (if v.count > 0 && is_spike(with_sample(v.samples, count as u64), count as u64) {
                seq!["net:rate"@]
            } else {
                seq![]
            })
        }),
{
    let tcp = missing_from(v.listen, set_from(seq![], listen_names(p)));
    let udp = news(v.udp, udp_names(p));
    let far = missing_from(v.remote, set_from(seq![], remote_ips(p)));
    let port = |n: Seq<char>| port_event(n, ts, host);
    let out = |n: Seq<char>| out_event(n, ts, host);
    let count = sockets(p, "ESTABLISHED"@).len();
    let recent = recent_at(v, p, ts, window_ms);
    let rate = if v.count > 0 && is_spike(with_sample(v.samples, count as u64), count as u64) {
        seq![rate_event(count, ts, host)]
    } else {
        seq![]
    };
    let scan = if is_scan(recent, ts as int, window_ms, threshold) {
        seq![scan_event(recent.len(), window_ms, ts, host)]
    } else {
        seq![]
    };
    let k = EventKind::ConnectionRateSpike;
    let (a, b, c) = (tcp.map_values(port), udp.map_values(port), far.map_values(out));
    let evs = net_events(v, p, ts, host, threshold, window_ms);
    assert(evs == a + b + c + rate + scan);
    lemma_keys_add(a + b + c + rate, scan, k);
    lemma_keys_add(a + b + c, rate, k);
    lemma_keys_add(a + b, c, k);
    lemma_keys_add(a, b, k);
    lemma_no_keys(a, k);
    lemma_no_keys(b, k);
    lemma_no_keys(c, k);
    lemma_no_keys(scan, k);
    reveal_with_fuel(seqs::picked, 2);
    if rate.len() > 0 {
        assert(rate.drop_last() =~= seq![]);
        assert(keys_of(rate, k) =~= seq!["net:rate"@]);
        assert(keys_of(evs, k) =~= seq!["net:rate"@]);
    } else {
        assert(keys_of(rate, k) =~= seq![]);
        assert(keys_of(evs, k) =~= seq![]);
    }
}

proof fn lemma_no_keys(evs: Seq<EventView>, kind: EventKind)
    requires
        forall|i: int| 0 <= i < evs.len() ==> (#[trigger] evs[i]).kind != kind,
    ensures
        keys_of(evs, kind).len() == 0,
    decreases evs.len(),
{
    if evs.len() > 0 {
        assert(evs.last() == evs[evs.len() - 1]);
        assert forall|i: int| 0 <= i < evs.drop_last().len() implies (#[trigger] evs.drop_last()[i]).kind
            != kind by {
            assert(evs.drop_last()[i] == evs[i]);
        }
        lemma_no_keys(evs.drop_last(), kind);
    }
}

/// After at least two polls that all showed `c` connections, one that shows at
/// least two and a half times as many reports one spike, and one that shows `c`
/// again reports none.
pub proof fn law_a_steady_count_is_the_baseline(
    n: NetView,
    p: ProcFs,
    ts: i64,
    host: Seq<char>,
    threshold: int,
    window_ms: int,
    c: u64,
)
    requires
        c > 0,
        n.count == c,
        2 <= n.samples.len() <= 20,
        forall|i: int| 0 <= i < n.samples.len() ==> #[trigger] n.samples[i] == c,
        tcp_shown(p).filter(|e: procfs::TcpView| e.state == "ESTABLISHED"@).len() <= u64::MAX,
    ensures
        ({
            let x = tcp_shown(p).filter(|e: procfs::TcpView| e.state == "ESTABLISHED"@).len();
            let keys = keys_of(
                net_events(n, p, ts, host, threshold, window_ms),
                EventKind::ConnectionRateSpike,
            );
            &&& 2 * x >= 5 * c ==> keys == seq!["net:rate"@]
            &&& x <= c ==> keys.len() == 0
        }),
{
    let f = |e: procfs::TcpView| e.state == "ESTABLISHED"@;
    let x = tcp_shown(p).filter(f).len();
    let s = if n.samples.len() < 20 {
        n.samples.push(x as u64)
    } else {
        n.samples.skip(1).push(x as u64)
    };
    law_ascending(s);
    law_a_poll_reports_a_spike(n, p, ts, host, threshold, window_ms, ascending(s));
    if x >= c {
        lemma_steady(s.drop_last(), c);
        assert(ascending(s) == s);
    } else {
        lemma_steady(s.drop_last(), c);
        lemma_insert_below(s.drop_last(), c, x as u64);
    }
}

/// Equal numbers are in ascending order.
proof fn lemma_steady(s: Seq<u64>, c: u64)
    requires
        forall|i: int| 0 <= i < s.len() ==> #[trigger] s[i] == c,
    ensures
        ascending(s) == s,
        forall|x: u64| x >= c ==> #[trigger] insert_in(s, x) == s.push(x),
    decreases s.len(),
{
    if s.len() > 0 {
        let init = s.drop_last();
        assert forall|i: int| 0 <= i < init.len() implies #[trigger] init[i] == c by {
            assert(init[i] == s[i]);
        }
        lemma_steady(init, c);
        assert(s.last() == s[s.len() - 1]);
        assert(init.push(s.last()) =~= s);
    } else {
        assert(ascending(s) =~= s);
    }
}

proof fn lemma_insert_below(s: Seq<u64>, c: u64, x: u64)
    requires
        x < c,
        forall|i: int| 0 <= i < s.len() ==> #[trigger] s[i] == c,
    ensures
        insert_in(s, x) == seq![x] + s,
    decreases s.len(),
{
    if s.len() > 0 {
        let init = s.drop_last();
        assert forall|i: int| 0 <= i < init.len() implies #[trigger] init[i] == c by {
            assert(init[i] == s[i]);
        }
        lemma_insert_below(init, c, x);
        assert(s.last() == s[s.len() - 1]);
        assert((seq![x] + init).push(s.last()) =~= seq![x] + s);
    } else {
        assert(s.push(x) =~= seq![x] + s);
    }
}

/// A scan fires exactly when the endpoints that came within the window, each
/// counted once, reach the threshold.
pub proof fn law_scans_count_different_endpoints(
    s: Seq<(i64, Seq<char>)>,
    now: int,
    window_ms: int,
    threshold: int,
)
    ensures
        ({
            let near = Set::new(
                |t: Seq<char>|
                    exists|i: int|
                        0 <= i < s.len() && (#[trigger] s[i]).1 == t && now - s[i].0 <= window_ms,
            );
            &&& near.finite()
            &&& is_scan(s, now, window_ms, threshold) <==> near.len() >= threshold
        }),
{
    let near = Set::new(
        |t: Seq<char>|
            exists|i: int|
                0 <= i < s.len() && (#[trigger] s[i]).1 == t && now - s[i].0 <= window_ms,
    );
    let p = |e: (i64, Seq<char>)| e.0 + window_ms >= now;
    let w = in_window(s, now, window_ms);
    seqs::lemma_kept(s, p);
    let names = endpoints(w);
    let u = set_from(seq![], names);
    law_set_from(seq![], names, seq![]);
    u.unique_seq_to_set();
    assert forall|t: Seq<char>| #[trigger] near.contains(t) <==> u.to_set().contains(t) by {
        law_set_from(seq![], names, t);
        if near.contains(t) {
            let i = choose|i: int|
                0 <= i < s.len() && (#[trigger] s[i]).1 == t && now - s[i].0 <= window_ms;
            assert(s.contains(s[i]) && p(s[i]));
            assert(w.contains(s[i]));
            let k = choose|k: int| 0 <= k < w.len() && w[k] == s[i];
            assert(names[k] == t);
        }
        if u.contains(t) {
            let k = choose|k: int| 0 <= k < names.len() && names[k] == t;
            assert(w.contains(w[k]));
            let i = choose|i: int| 0 <= i < s.len() && s[i] == w[k];
            assert(p(s[i]));
            assert(s[i].1 == t);
        }
    }
    assert(near =~= u.to_set());
}

/// The counts that are remembered are the last twenty at most, the newest
/// behind the others.
pub proof fn law_last_counts_are_remembered(
    v: NetView,
    p: ProcFs,
    ts: i64,
    threshold: int,
    window_ms: int,
)
    requires
        v.samples.len() <= 20,
    ensures
        ({
            let w = net_after(v, p, ts, threshold, window_ms);
            let count = tcp_shown(p).filter(|e: procfs::TcpView| e.state == "ESTABLISHED"@).len();
            &&& w.count == count
            &&& w.samples.len() > 0 && w.samples.last() == count as u64
            &&& v.samples.len() < 20 ==> w.samples.drop_last() == v.samples
            &&& v.samples.len() == 20 ==> w.samples.drop_last() == v.samples.skip(1)
            &&& w.samples.len() <= 20
        }),
{
    let f = |e: procfs::TcpView| e.state == "ESTABLISHED"@;
    seqs::lemma_kept_is_filter(tcp_shown(p), f, f);
    let w = net_after(v, p, ts, threshold, window_ms);
    if v.samples.len() < 20 {
        assert(w.samples.drop_last() =~= v.samples);
    } else {
        assert(w.samples.drop_last() =~= v.samples.skip(1));
    }
}

/// A poll reports a port scan once, when as many different endpoints as the
/// threshold, never seen before they came, came within the window; the counting
/// then starts anew. `recent` is what came in earlier polls and in this one.
pub proof fn law_a_poll_reports_a_scan(
    v: NetView,
    p: ProcFs,
    ts: i64,
    host: Seq<char>,
    threshold: int,
    window_ms: int,
    recent: Seq<(i64, Seq<char>)>,
)
    requires
        recent == v.recent + news(v.pairs, remote_pairs(p)).map_values(|n: Seq<char>| (ts, n)),
    ensures
        ({
            let near = Set::new(
                |t: Seq<char>|
                    exists|i: int|
                        0 <= i < recent.len() && (#[trigger] recent[i]).1 == t && ts - recent[i].0
                            <= window_ms,
            );
            let evs = net_events(v, p, ts, host, threshold, window_ms);
            let w = net_after(v, p, ts, threshold, window_ms);
            &&& near.len() >= threshold ==> evs.len() > 0 && evs.last().kind is PortScanSpike
                && evs.last().severity is Warning && evs.last().key == "net:scan"@
                && w.recent.len() == 0
            &&& near.len() < threshold ==> (forall|i: int|
                0 <= i < evs.len() ==> !((#[trigger] evs[i]).kind is PortScanSpike)) && w.recent
                == recent.filter(|e: (i64, Seq<char>)| ts - e.0 <= window_ms)
        }),
{
    let now = ts as int;
    let f = |e: (i64, Seq<char>)| e.0 + window_ms >= now;
    let g = |e: (i64, Seq<char>)| ts - e.0 <= window_ms;
    let r = recent_at(v, p, ts, window_ms);
    assert(r == in_window(recent, now, window_ms));
    seqs::lemma_kept_is_filter(recent, f, g);
    seqs::lemma_kept_twice(recent, f, f, f);
    assert(in_window(r, now, window_ms) == r);
    law_scans_count_different_endpoints(recent, now, window_ms, threshold);
    assert(is_scan(r, now, window_ms, threshold) == is_scan(recent, now, window_ms, threshold));
    let near = Set::new(
        |t: Seq<char>|
            exists|i: int|
                0 <= i < recent.len() && (#[trigger] recent[i]).1 == t && now - recent[i].0
                    <= window_ms,
    );
    assert(near =~= Set::new(
        |t: Seq<char>|
            exists|i: int|
                0 <= i < recent.len() && (#[trigger] recent[i]).1 == t && ts - recent[i].0
                    <= window_ms,
    ));
}

/// Sockets are seen in the tables of both address families, and a table that
/// cannot be read hides only its own.
pub proof fn law_both_families_are_shown(p: ProcFs, e: procfs::TcpView, u: (Seq<char>, u16))
    ensures
        tcp_shown(p).contains(e) <==> (p.file("net/tcp"@) matches Ok(t) && procfs::tcp_table(
            t,
            false,
        ).contains(e)) || (p.file("net/tcp6"@) matches Ok(t) && procfs::tcp_table(
            t,
            true,
        ).contains(e)),
        udp_shown(p).contains(u) <==> (p.file("net/udp"@) matches Ok(t) && procfs::udp_table(
            t,
            false,
        ).contains(u)) || (p.file("net/udp6"@) matches Ok(t) && procfs::udp_table(
            t,
            true,
        ).contains(u)),
{
    let a = match p.file("net/tcp"@) {
        Ok(t) => procfs::tcp_table(t, false),
        Err(_) => seq![],
    };
    let b = match p.file("net/tcp6"@) {
        Ok(t) => procfs::tcp_table(t, true),
        Err(_) => seq![],
    };
    let c = match p.file("net/udp"@) {
        Ok(t) => procfs::udp_table(t, false),
        Err(_) => seq![],
    };
    let d = match p.file("net/udp6"@) {
        Ok(t) => procfs::udp_table(t, true),
        Err(_) => seq![],
    };
    lemma_in_either(a, b, e);
    lemma_in_either(c, d, u);
}

proof fn lemma_in_either<A>(a: Seq<A>, b: Seq<A>, x: A)
    ensures
        (a + b).contains(x) <==> a.contains(x) || b.contains(x),
{
    if a.contains(x) {
        let i = choose|i: int| 0 <= i < a.len() && a[i] == x;
        assert((a + b)[i] == x);
    }
    if b.contains(x) {
        let i = choose|i: int| 0 <= i < b.len() && b[i] == x;
        assert((a + b)[a.len() + i] == x);
    }
    if (a + b).contains(x) {
        let i = choose|i: int| 0 <= i < (a + b).len() && (a + b)[i] == x;
        if i < a.len() {
            assert(a[i] == x);
        } else {
            assert(b[i - a.len()] == x);
        }
    }
}

/// Every listening socket is named by protocol, address and port, and every
/// established connection to a host by the host's address, and by address and
/// port; nothing else is.
pub proof fn law_sockets_are_named(p: ProcFs, t: Seq<char>)
    ensures
        listen_names(p).contains(t) <==> exists|i: int|
            0 <= i < tcp_shown(p).len() && (#[trigger] tcp_shown(p)[i]).state == "LISTEN"@ && t
                == "tcp:"@ + tcp_shown(p)[i].local_ip + ":"@ + text::dec(
                tcp_shown(p)[i].local_port as nat,
            ),
        udp_names(p).contains(t) <==> exists|i: int|
            0 <= i < udp_shown(p).len() && t == "udp:"@ + (#[trigger] udp_shown(p)[i]).0 + ":"@
                + text::dec(udp_shown(p)[i].1 as nat),
        remote_ips(p).contains(t) <==> exists|i: int|
            0 <= i < tcp_shown(p).len() && (#[trigger] tcp_shown(p)[i]).state == "ESTABLISHED"@
                && tcp_shown(p)[i].remote_ip == t && t != "0.0.0.0"@ && t != "::"@,
        remote_pairs(p).contains(t) <==> exists|i: int|
            0 <= i < tcp_shown(p).len() && (#[trigger] tcp_shown(p)[i]).state == "ESTABLISHED"@
                && tcp_shown(p)[i].remote_ip != "0.0.0.0"@ && tcp_shown(p)[i].remote_ip != "::"@
                && t == tcp_shown(p)[i].remote_ip + ":"@ + text::dec(
                tcp_shown(p)[i].remote_port as nat,
            ),
{
    let all = tcp_shown(p);
    let lf = |e: procfs::TcpView| e.state == "LISTEN"@;
    let ef = |e: procfs::TcpView| e.state == "ESTABLISHED"@;
    let ls = sockets(p, "LISTEN"@);
    let es = sockets(p, "ESTABLISHED"@);
    seqs::lemma_kept(all, lf);
    seqs::lemma_kept(all, ef);
    let names = listen_names(p);
    if names.contains(t) {
        let k = choose|k: int| 0 <= k < names.len() && names[k] == t;
        assert(ls.contains(ls[k]));
        let i = choose|i: int| 0 <= i < all.len() && all[i] == ls[k];
        assert(all[i].state == "LISTEN"@);
    }
    if exists|i: int|
        0 <= i < all.len() && (#[trigger] all[i]).state == "LISTEN"@ && t == "tcp:"@
            + all[i].local_ip + ":"@ + text::dec(all[i].local_port as nat) {
        let i = choose|i: int|
            0 <= i < all.len() && (#[trigger] all[i]).state == "LISTEN"@ && t == "tcp:"@
                + all[i].local_ip + ":"@ + text::dec(all[i].local_port as nat);
        assert(all.contains(all[i]) && lf(all[i]));
        assert(ls.contains(all[i]));
        let k = choose|k: int| 0 <= k < ls.len() && ls[k] == all[i];
        assert(names[k] == t);
    }
    let us = udp_shown(p);
    let un = udp_names(p);
    if un.contains(t) {
        let k = choose|k: int| 0 <= k < un.len() && un[k] == t;
        assert(us[k] == us[k]);
    }
    if exists|i: int|
        0 <= i < us.len() && t == "udp:"@ + (#[trigger] us[i]).0 + ":"@ + text::dec(
            us[i].1 as nat,
        ) {
        let i = choose|i: int|
            0 <= i < us.len() && t == "udp:"@ + (#[trigger] us[i]).0 + ":"@ + text::dec(
                us[i].1 as nat,
            );
        assert(un[i] == t);
    }
    let f = |e: procfs::TcpView|
        if is_remote(e.remote_ip) {
            Some(e.remote_ip)
        } else {
            None
        };
    let g = |e: procfs::TcpView|
        if is_remote(e.remote_ip) {
            Some(e.remote_ip + ":"@ + text::dec(e.remote_port as nat))
        } else {
            None
        };
    seqs::lemma_picked(es, f, t);
    seqs::lemma_picked(es, g, t);
    assert(remote_ips(p) == seqs::picked(es, f));
    assert(remote_pairs(p) == seqs::picked(es, g));
    if remote_ips(p).contains(t) {
        let k = choose|k: int| 0 <= k < es.len() && f(#[trigger] es[k]) == Some(t);
        assert(es.contains(es[k]));
        let i = choose|i: int| 0 <= i < all.len() && all[i] == es[k];
        assert(all[i].state == "ESTABLISHED"@);
    }
    if remote_pairs(p).contains(t) {
        let k = choose|k: int| 0 <= k < es.len() && g(#[trigger] es[k]) == Some(t);
        assert(es.contains(es[k]));
        let i = choose|i: int| 0 <= i < all.len() && all[i] == es[k];
        assert(all[i].state == "ESTABLISHED"@);
    }
    assert forall|i: int| 0 <= i < all.len() && (#[trigger] all[i]).state == "ESTABLISHED"@ implies
        exists|k: int| 0 <= k < es.len() && #[trigger] es[k] == all[i] by {
        assert(all.contains(all[i]) && ef(all[i]));
        assert(es.contains(all[i]));
    }
    if exists|i: int|
        0 <= i < all.len() && (#[trigger] all[i]).state == "ESTABLISHED"@ && all[i].remote_ip == t
            && t != "0.0.0.0"@ && t != "::"@ {
        let i = choose|i: int|
            0 <= i < all.len() && (#[trigger] all[i]).state == "ESTABLISHED"@ && all[i].remote_ip
                == t && t != "0.0.0.0"@ && t != "::"@;
        let k = choose|k: int| 0 <= k < es.len() && #[trigger] es[k] == all[i];
        assert(f(es[k]) == Some(t));
    }
    if exists|i: int|
        0 <= i < all.len() && (#[trigger] all[i]).state == "ESTABLISHED"@ && all[i].remote_ip
            != "0.0.0.0"@ && all[i].remote_ip != "::"@ && t == all[i].remote_ip + ":"@ + text::dec(
            all[i].remote_port as nat,
        ) {
        let i = choose|i: int|
            0 <= i < all.len() && (#[trigger] all[i]).state == "ESTABLISHED"@ && all[i].remote_ip
                != "0.0.0.0"@ && all[i].remote_ip != "::"@ && t == all[i].remote_ip + ":"@
                + text::dec(all[i].remote_port as nat);
        let k = choose|k: int| 0 <= k < es.len() && #[trigger] es[k] == all[i];
        assert(g(es[k]) == Some(t));
    }
}

/// A spike is told with the count of connections, a scan with the endpoints in
/// the window and its whole seconds.
pub proof fn law_rates_are_told_in_words(count: nat, n: nat, window_ms: int, ts: i64, host: Seq<char>)
    requires
        window_ms >= 0,
    ensures
        rate_event(count, ts, host).summary == "established-connection count spiked to "@
            + text::dec(count),
        scan_event(n, window_ms, ts, host).summary == text::dec(n)
            + " distinct remote connections within "@ + text::dec((window_ms / 1000) as nat)
            + "s — possible port scan"@,
{
}

} // verus!
