//! Lists built by walking another list.

use vstd::prelude::*;

verus! {

/// What `f` gives for the items of `s`, in order, where it gives something.
pub open spec fn picked<A, B>(s: Seq<A>, f: spec_fn(A) -> Option<B>) -> Seq<B>
    decreases s.len(),
{
    if s.len() == 0 {
        seq![]
    } else {
        match f(s.last()) {
            Some(b) => picked(s.drop_last(), f).push(b),
            None => picked(s.drop_last(), f),
        }
    }
}

/// The items of `s` that pass `p`, in order.
pub open spec fn kept<A>(s: Seq<A>, p: spec_fn(A) -> bool) -> Seq<A>
    decreases s.len(),
{
    if s.len() == 0 {
        seq![]
    } else if p(s.last()) {
        kept(s.drop_last(), p).push(s.last())
    } else {
        kept(s.drop_last(), p)
    }
}

/// One more item of a prefix.
pub proof fn lemma_take_step<A>(s: Seq<A>, i: int)
    requires
        0 <= i < s.len(),
    ensures
        s.take(i + 1).drop_last() == s.take(i),
        s.take(i + 1).last() == s[i],
        s.take(i + 1).len() == i + 1,
{
    assert(s.take(i + 1).drop_last() == s.take(i));
}

/// The items kept are items of the list, and pass.
pub proof fn lemma_kept<A>(s: Seq<A>, p: spec_fn(A) -> bool)
    ensures
        kept(s, p).len() <= s.len(),
        forall|x: A| #[trigger] kept(s, p).contains(x) <==> (s.contains(x) && p(x)),
    decreases s.len(),
{
    if s.len() > 0 {
        let t = s.drop_last();
        lemma_kept(t, p);
        assert(t.push(s.last()) == s);
        assert forall|x: A| #[trigger] kept(s, p).contains(x) <==> (s.contains(x) && p(x)) by {
            if t.contains(x) {
                let i = choose|i: int| 0 <= i < t.len() && t[i] == x;
                assert(s[i] == x);
            }
            if s.contains(x) && x != s.last() {
                let i = choose|i: int| 0 <= i < s.len() && s[i] == x;
                assert(t[i] == x);
            }
            if p(s.last()) {
                let k = kept(t, p);
                let r = k.push(s.last());
                assert(r.last() == s.last());
                assert(r[k.len() as int] == s.last());
                assert(s[s.len() - 1] == s.last());
                if k.contains(x) {
                    let i = choose|i: int| 0 <= i < k.len() && k[i] == x;
                    assert(r[i] == x);
                }
                if r.contains(x) && x != s.last() {
                    let i = choose|i: int| 0 <= i < r.len() && r[i] == x;
                    assert(k[i] == x);
                }
            } else {
                assert(x == s.last() ==> !p(x));
            }
        }
    }
}

/// What is kept is what a filter leaves.
pub proof fn lemma_kept_is_filter<A>(s: Seq<A>, p: spec_fn(A) -> bool, f: spec_fn(A) -> bool)
    requires
        forall|a: A| #[trigger] p(a) == f(a),
    ensures
        kept(s, p) == s.filter(f),
    decreases s.len(),
{
    reveal(Seq::filter);
    if s.len() > 0 {
        lemma_kept_is_filter(s.drop_last(), p, f);
    } else {
        assert(kept(s, p) =~= s.filter(f));
    }
}

/// Two tests in turn keep what passes both.
pub proof fn lemma_kept_twice<A>(
    s: Seq<A>,
    p: spec_fn(A) -> bool,
    q: spec_fn(A) -> bool,
    both: spec_fn(A) -> bool,
)
    requires
        forall|a: A| #[trigger] both(a) == (p(a) && q(a)),
    ensures
        kept(kept(s, p), q) == kept(s, both),
    decreases s.len(),
{
    if s.len() > 0 {
        lemma_kept_twice(s.drop_last(), p, q, both);
        let init = kept(s.drop_last(), p);
        assert(init.push(s.last()).drop_last() =~= init);
    }
}

/// As many items are kept as there are places whose item passes.
pub proof fn lemma_kept_counts<A>(s: Seq<A>, p: spec_fn(A) -> bool)
    ensures
        Set::new(|i: int| 0 <= i < s.len() && p(s[i])).finite(),
        kept(s, p).len() == Set::new(|i: int| 0 <= i < s.len() && p(s[i])).len(),
    decreases s.len(),
{
    let places = Set::new(|i: int| 0 <= i < s.len() && p(s[i]));
    if s.len() == 0 {
        assert(places =~= Set::<int>::empty());
    } else {
        let t = s.drop_last();
        let last = s.len() - 1;
        lemma_kept_counts(t, p);
        let before = Set::new(|i: int| 0 <= i < t.len() && p(t[i]));
        assert(forall|i: int| 0 <= i < t.len() ==> #[trigger] t[i] == s[i]);
        if p(s.last()) {
            assert(places =~= before.insert(last));
        } else {
            assert(places =~= before);
        }
    }
}

/// As many items are picked as there are places that give one.
pub proof fn lemma_picked_counts<A, B>(s: Seq<A>, f: spec_fn(A) -> Option<B>, p: spec_fn(A) -> bool)
    requires
        forall|a: A| #[trigger] p(a) == (f(a) is Some),
    ensures
        picked(s, f).len() == Set::new(|i: int| 0 <= i < s.len() && p(s[i])).len(),
{
    lemma_kept_counts(s, p);
    lemma_picked_is_kept(s, f, p);
}

proof fn lemma_picked_is_kept<A, B>(s: Seq<A>, f: spec_fn(A) -> Option<B>, p: spec_fn(A) -> bool)
    requires
        forall|a: A| #[trigger] p(a) == (f(a) is Some),
    ensures
        picked(s, f).len() == kept(s, p).len(),
    decreases s.len(),
{
    if s.len() > 0 {
        lemma_picked_is_kept(s.drop_last(), f, p);
        assert(p(s.last()) == (f(s.last()) is Some));
    }
}

/// A value is picked exactly when some item gives it.
pub proof fn lemma_picked<A, B>(s: Seq<A>, f: spec_fn(A) -> Option<B>, b: B)
    ensures
        picked(s, f).contains(b) <==> (exists|i: int|
            0 <= i < s.len() && f(#[trigger] s[i]) == Some(b)),
        picked(s, f).len() <= s.len(),
    decreases s.len(),
{
    if s.len() > 0 {
        let t = s.drop_last();
        lemma_picked(t, f, b);
        let k = picked(t, f);
        if exists|i: int| 0 <= i < t.len() && f(#[trigger] t[i]) == Some(b) {
            let i = choose|i: int| 0 <= i < t.len() && f(#[trigger] t[i]) == Some(b);
            assert(f(s[i]) == Some(b));
            let j = choose|j: int| 0 <= j < k.len() && k[j] == b;
            assert(picked(s, f)[j] == b);
        }
        if f(s.last()) == Some(b) {
            assert(f(s[s.len() - 1]) == Some(b));
            assert(picked(s, f).last() == b);
        }
        if picked(s, f).contains(b) {
            let j = choose|j: int| 0 <= j < picked(s, f).len() && picked(s, f)[j] == b;
            if j < k.len() {
                assert(k[j] == b);
            } else {
                assert(f(s[s.len() - 1]) == Some(b));
            }
        }
        if exists|i: int| 0 <= i < s.len() && f(#[trigger] s[i]) == Some(b) {
            let i = choose|i: int| 0 <= i < s.len() && f(#[trigger] s[i]) == Some(b);
            if i < t.len() {
                assert(f(t[i]) == Some(b));
            }
        }
    }
}

/// The times of `s` that lie within `window_ms` before `now`, or after it.
pub open spec fn recent(s: Seq<i64>, now: int, window_ms: int) -> Seq<i64> {
    kept(s, |t: i64| t + window_ms >= now)
}

/// What is recent is what was in the list and lies within the window.
pub proof fn lemma_recent(s: Seq<i64>, now: int, window_ms: int)
    ensures
        recent(s, now, window_ms).len() <= s.len(),
        forall|t: i64| #[trigger]
            recent(s, now, window_ms).contains(t) <==> (s.contains(t) && t + window_ms >= now),
{
    lemma_kept(s, |t: i64| t + window_ms >= now);
}

/// Leaving out what an earlier time leaves out changes nothing at a later one.
pub proof fn lemma_recent_twice(s: Seq<i64>, now: int, later: int, window_ms: int)
    requires
        now <= later,
    ensures
        recent(recent(s, now, window_ms), later, window_ms) == recent(s, later, window_ms),
    decreases s.len(),
{
    if s.len() > 0 {
        lemma_recent_twice(s.drop_last(), now, later, window_ms);
        let init = recent(s.drop_last(), now, window_ms);
        assert(init.push(s.last()).drop_last() =~= init);
    }
}

/// The times that lie within a window before `now`, or after it.
pub fn keep_recent(v: &Vec<i64>, now: i64, window_ms: i128) -> (r: Vec<i64>)
    requires
        -0x1_0000_0000_0000_0000_0000_0000 <= window_ms <= 0x1_0000_0000_0000_0000_0000_0000,
    ensures
        r@ == recent(v@, now as int, window_ms as int),
{
    let ghost p = |t: i64| t + window_ms >= now;
    let mut r: Vec<i64> = Vec::new();
    let mut i: usize = 0;
    assert(r@ == kept(v@.take(0), p));
    while i < v.len()
        invariant
            -0x1_0000_0000_0000_0000_0000_0000 <= window_ms <= 0x1_0000_0000_0000_0000_0000_0000,
            i <= v@.len(),
            p == (|t: i64| t + window_ms >= now),
            r@ == kept(v@.take(i as int), p),
        decreases v@.len() - i,
    {
        proof {
            lemma_take_step(v@, i as int);
        }
        if (v[i] as i128) + window_ms >= now as i128 {
            r.push(v[i]);
        }
        i = i + 1;
    }
    assert(v@.take(v@.len() as int) == v@);
    r
}

/// A copy of a list of times.
pub fn copy_times(v: &Vec<i64>) -> (r: Vec<i64>)
    ensures
        r@ == v@,
{
    let mut r: Vec<i64> = Vec::new();
    let mut i: usize = 0;
    while i < v.len()
        invariant
            i <= v@.len(),
            r@ == v@.take(i as int),
        decreases v@.len() - i,
    {
        r.push(v[i]);
        assert(r@ == v@.take(i + 1));
        i = i + 1;
    }
    assert(v@.take(v@.len() as int) == v@);
    r
}

/// What lies within a window is kept in order, and the window is closed: a time
/// that is exactly as far back as the window reaches is kept.
pub proof fn law_windows_are_closed(s: Seq<i64>, now: int, window_ms: int)
    ensures
        recent(s, now, window_ms) == s.filter(|t: i64| now - t <= window_ms),
{
    let p = |t: i64| t + window_ms >= now;
    let f = |t: i64| now - t <= window_ms;
    lemma_kept_is_filter(s, p, f);
}

} // verus!
