//! Ordered tables and sets. Entries keep the order in which their keys came,
//! so walking a table is deterministic.

use vstd::prelude::*;

use crate::text;

verus! {

/// A key of a table: keys are told apart by their views.
pub trait Key: View + Sized {
    /// Whether two keys are the same.
    fn same_key(&self, other: &Self) -> (r: bool)
        ensures
            r == (self@ == other@),
    ;
}

impl Key for String {
    fn same_key(&self, other: &Self) -> (r: bool) {
        text::same(self.as_str(), other.as_str())
    }
}

impl Key for (String, String) {
    fn same_key(&self, other: &Self) -> (r: bool) {
        text::same(self.0.as_str(), other.0.as_str()) && text::same(
            self.1.as_str(),
            other.1.as_str(),
        )
    }
}

/// The value of the first entry with the key `k`.
pub open spec fn lookup<A, B>(s: Seq<(A, B)>, k: A) -> Option<B>
    decreases s.len(),
{
    if s.len() == 0 {
        None
    } else if s[0].0 == k {
        Some(s[0].1)
    } else {
        lookup(s.skip(1), k)
    }
}

/// The entries with the value of the first entry with key `k` replaced by
/// `v`, or with a new last entry when there is none.
pub open spec fn put<A, B>(s: Seq<(A, B)>, k: A, v: B) -> Seq<(A, B)>
    decreases s.len(),
{
    if s.len() == 0 {
        seq![(k, v)]
    } else if s[0].0 == k {
        s.update(0, (k, v))
    } else {
        seq![s[0]] + put(s.skip(1), k, v)
    }
}

/// The entries whose key passes `keep`.
pub open spec fn only<A, B>(s: Seq<(A, B)>, keep: spec_fn(A) -> bool) -> Seq<(A, B)>
    decreases s.len(),
{
    if s.len() == 0 {
        seq![]
    } else if keep(s.last().0) {
        only(s.drop_last(), keep).push(s.last())
    } else {
        only(s.drop_last(), keep)
    }
}

/// The entries without those with the key `k`.
pub open spec fn without<A, B>(s: Seq<(A, B)>, k: A) -> Seq<(A, B)> {
    only(s, |a: A| a != k)
}

/// A table gives back what was put under a key, and nothing else changes.
pub proof fn law_put_then_lookup<A, B>(s: Seq<(A, B)>, k: A, v: B, other: A)
    ensures
        lookup(put(s, k, v), k) == Some(v),
        other != k ==> lookup(put(s, k, v), other) == lookup(s, other),
    decreases s.len(),
{
    if s.len() == 0 {
        assert(put(s, k, v).skip(1) == s);
    } else if s[0].0 == k {
        assert(put(s, k, v).skip(1) == s.skip(1));
    } else {
        law_put_then_lookup(s.skip(1), k, v, other);
        assert(put(s, k, v).skip(1) == put(s.skip(1), k, v));
    }
}

proof fn lemma_lookup_append<A, B>(s: Seq<(A, B)>, e: (A, B), k: A)
    ensures
        lookup(s.push(e), k) == (if lookup(s, k) is Some {
            lookup(s, k)
        } else if e.0 == k {
            Some(e.1)
        } else {
            None
        }),
    decreases s.len(),
{
    if s.len() == 0 {
        assert(s.push(e).skip(1) == s);
    } else {
        lemma_lookup_append(s.skip(1), e, k);
        assert(s.push(e).skip(1) == s.skip(1).push(e));
    }
}

/// Keeping some entries keeps what those keys give, and drops the others.
pub proof fn law_only_then_lookup<A, B>(s: Seq<(A, B)>, keep: spec_fn(A) -> bool, k: A)
    ensures
        lookup(only(s, keep), k) == (if keep(k) {
            lookup(s, k)
        } else {
            None
        }),
    decreases s.len(),
{
    if s.len() > 0 {
        law_only_then_lookup(s.drop_last(), keep, k);
        lemma_lookup_append(s.drop_last(), s.last(), k);
        assert(s.drop_last().push(s.last()) == s);
        if keep(s.last().0) {
            lemma_lookup_append(only(s.drop_last(), keep), s.last(), k);
        }
    }
}

/// After removing a key a table has nothing under it, and nothing else changes.
pub proof fn law_without_then_lookup<A, B>(s: Seq<(A, B)>, k: A, other: A)
    ensures
        lookup(without(s, k), k) is None,
        other != k ==> lookup(without(s, k), other) == lookup(s, other),
{
    law_only_then_lookup(s, |a: A| a != k, k);
    law_only_then_lookup(s, |a: A| a != k, other);
}

proof fn lemma_put_at<A, B>(s: Seq<(A, B)>, k: A, v: B, i: int)
    requires
        0 <= i <= s.len(),
        forall|j: int| 0 <= j < i ==> (#[trigger] s[j]).0 != k,
        i < s.len() ==> s[i].0 == k,
    ensures
        put(s, k, v) == (if i < s.len() {
            s.update(i, (k, v))
        } else {
            s.push((k, v))
        }),
    decreases s.len(),
{
    if s.len() == 0 {
        assert(put(s, k, v) == s.push((k, v)));
    } else if i == 0 {
    } else {
        assert(s[0].0 != k);
        assert forall|j: int| 0 <= j < i - 1 implies (#[trigger] s.skip(1)[j]).0 != k by {
            assert(s.skip(1)[j] == s[j + 1]);
        }
        lemma_put_at(s.skip(1), k, v, i - 1);
        if i < s.len() {
            assert(seq![s[0]] + s.skip(1).update(i - 1, (k, v)) == s.update(i, (k, v)));
        } else {
            assert(seq![s[0]] + s.skip(1).push((k, v)) == s.push((k, v)));
        }
    }
}

/// No key occurs twice.
pub open spec fn distinct<A, B>(s: Seq<(A, B)>) -> bool {
    forall|i: int, j: int| 0 <= i < j < s.len() ==> (#[trigger] s[i]).0 != (#[trigger] s[j]).0
}

/// Where a lookup finds its value.
pub proof fn lemma_lookup_index<A, B>(s: Seq<(A, B)>, k: A) -> (i: int)
    requires
        lookup(s, k) is Some,
    ensures
        0 <= i < s.len(),
        s[i].0 == k,
        lookup(s, k) == Some(s[i].1),
    decreases s.len(),
{
    if s[0].0 == k {
        0
    } else {
        let j = lemma_lookup_index(s.skip(1), k);
        assert(s.skip(1)[j] == s[j + 1]);
        j + 1
    }
}

/// With distinct keys every entry is what its key gives.
pub proof fn lemma_distinct_lookup<A, B>(s: Seq<(A, B)>, i: int)
    requires
        distinct(s),
        0 <= i < s.len(),
    ensures
        lookup(s, s[i].0) == Some(s[i].1),
    decreases s.len(),
{
    if i > 0 {
        assert(s[0].0 != s[i].0);
        assert forall|a: int, b: int| 0 <= a < b < s.skip(1).len() implies (#[trigger] s.skip(
            1,
        )[a]).0 != (#[trigger] s.skip(1)[b]).0 by {
            assert(s.skip(1)[a] == s[a + 1] && s.skip(1)[b] == s[b + 1]);
        }
        assert(s.skip(1)[i - 1] == s[i]);
        lemma_distinct_lookup(s.skip(1), i - 1);
    }
}

/// Putting a value under a key keeps the keys distinct.
pub proof fn law_put_keeps_distinct<A, B>(s: Seq<(A, B)>, k: A, v: B)
    requires
        distinct(s),
    ensures
        distinct(put(s, k, v)),
{
    if lookup(s, k) is Some {
        let i = lemma_lookup_index(s, k);
        assert forall|j: int| 0 <= j < i implies (#[trigger] s[j]).0 != k by {}
        lemma_put_at(s, k, v, i);
        let r = s.update(i, (k, v));
        assert forall|a: int, b: int| 0 <= a < b < r.len() implies (#[trigger] r[a]).0 != (
        #[trigger] r[b]).0 by {
            assert(r[a].0 == s[a].0 && r[b].0 == s[b].0);
        }
    } else {
        assert forall|j: int| 0 <= j < s.len() implies (#[trigger] s[j]).0 != k by {
            if s[j].0 == k {
                lemma_distinct_lookup(s, j);
            }
        }
        lemma_put_at(s, k, v, s.len() as int);
        let r = s.push((k, v));
        assert forall|a: int, b: int| 0 <= a < b < r.len() implies (#[trigger] r[a]).0 != (
        #[trigger] r[b]).0 by {
            assert(r[a] == s[a]);
            if b < s.len() {
                assert(r[b] == s[b]);
            }
        }
    }
}

/// Dropping entries keeps the keys distinct.
pub proof fn law_only_keeps_distinct<A, B>(s: Seq<(A, B)>, keep: spec_fn(A) -> bool)
    requires
        distinct(s),
    ensures
        distinct(only(s, keep)),
        forall|i: int|
            0 <= i < only(s, keep).len() ==> exists|j: int|
                0 <= j < s.len() && #[trigger] s[j] == #[trigger] only(s, keep)[i],
    decreases s.len(),
{
    if s.len() > 0 {
        let t = s.drop_last();
        assert forall|a: int, b: int| 0 <= a < b < t.len() implies (#[trigger] t[a]).0 != (
        #[trigger] t[b]).0 by {
            assert(t[a] == s[a] && t[b] == s[b]);
        }
        law_only_keeps_distinct(t, keep);
        let k = only(t, keep);
        let r = only(s, keep);
        assert forall|i: int| 0 <= i < r.len() implies exists|j: int|
            0 <= j < s.len() && #[trigger] s[j] == #[trigger] r[i] by {
            if i < k.len() {
                assert(r[i] == k[i]);
                let j = choose|j: int| 0 <= j < t.len() && #[trigger] t[j] == k[i];
                assert(s[j] == r[i]);
            } else {
                assert(s[s.len() - 1] == r[i]);
            }
        }
        assert forall|a: int, b: int| 0 <= a < b < r.len() implies (#[trigger] r[a]).0 != (
        #[trigger] r[b]).0 by {
            assert(r[a] == k[a]);
            if b < k.len() {
                assert(r[b] == k[b]);
            } else {
                let j = choose|j: int| 0 <= j < t.len() && #[trigger] t[j] == k[a];
                assert(s[j].0 != s[s.len() - 1].0);
            }
        }
    }
}

/// A table from keys to values.
pub struct Table<K, V> {
    pub entries: Vec<(K, V)>,
}

impl<K: View, V: View> View for Table<K, V> {
    type V = Seq<(K::V, V::V)>;

    open spec fn view(&self) -> Seq<(K::V, V::V)> {
        self.entries@.map_values(|e: (K, V)| (e.0@, e.1@))
    }
}

impl<K: Key, V: View> Table<K, V> {
    /// The empty table.
    pub fn new() -> (r: Self)
        ensures
            r@ == Seq::<(K::V, V::V)>::empty(),
    {
        let r = Table { entries: Vec::new() };
        assert(r@ == Seq::<(K::V, V::V)>::empty());
        r
    }

    /// The position of the first entry with the key `k`, or the number of entries.
    fn position(&self, k: &K) -> (r: usize)
        ensures
            r <= self@.len(),
            self@.len() == self.entries@.len(),
            forall|j: int| 0 <= j < r ==> (#[trigger] self@[j]).0 != k@,
            r < self@.len() ==> self@[r as int].0 == k@,
            lookup(self@, k@) == (if r < self@.len() {
                Some(self@[r as int].1)
            } else {
                None
            }),
    {
        let mut i: usize = 0;
        assert(self@.skip(0) == self@);
        while i < self.entries.len()
            invariant
                i <= self.entries@.len(),
                self@.len() == self.entries@.len(),
                forall|j: int| 0 <= j < i ==> (#[trigger] self@[j]).0 != k@,
                lookup(self@.skip(i as int), k@) == lookup(self@, k@),
            decreases self.entries@.len() - i,
        {
            assert(self@.skip(i as int)[0] == self@[i as int]);
            if self.entries[i].0.same_key(k) {
                return i;
            }
            assert(self@.skip(i as int).skip(1) == self@.skip(i + 1));
            i = i + 1;
        }
        i
    }

    /// The value under a key.
    pub fn get(&self, k: &K) -> (r: Option<&V>)
        ensures
            match r {
                Some(v) => lookup(self@, k@) == Some(v@),
                None => lookup(self@, k@) is None,
            },
    {
        let i = self.position(k);
        if i < self.entries.len() {
            Some(&self.entries[i].1)
        } else {
            None
        }
    }

    /// Put a value under a key.
    pub fn set(&mut self, k: K, v: V)
        ensures
            final(self)@ == put(old(self)@, k@, v@),
    {
        let i = self.position(&k);
        let ghost before = self@;
        let ghost kv = (k@, v@);
        proof {
            lemma_put_at(before, k@, v@, i as int);
        }
        if i < self.entries.len() {
            self.entries.set(i, (k, v));
            assert(self@ == before.update(i as int, kv));
        } else {
            self.entries.push((k, v));
            assert(self@ == before.push(kv));
        }
    }

    /// Remove a key.
    pub fn remove(&mut self, k: &K)
        ensures
            final(self)@ == without(old(self)@, k@),
    {
        let ghost orig = self@;
        let ghost keep = |a: K::V| a != k@;
        let ghost mut j: int = 0;
        let mut i: usize = 0;
        assert(orig.take(0) == Seq::<(K::V, V::V)>::empty());
        assert(self@ == only(orig.take(0), keep) + orig.skip(0));
        while i < self.entries.len()
            invariant
                keep == (|a: K::V| a != k@),
                self@.len() == self.entries@.len(),
                0 <= j <= orig.len(),
                i == only(orig.take(j), keep).len(),
                self@ == only(orig.take(j), keep) + orig.skip(j),
            decreases self.entries@.len() - i,
        {
            let ghost cur = self@;
            proof {
                assert(cur[i as int] == orig.skip(j)[0]);
                assert(orig.skip(j)[0] == orig[j]);
                assert(orig.take(j + 1).drop_last() == orig.take(j));
                assert(orig.take(j + 1).last() == orig[j]);
            }
            if self.entries[i].0.same_key(k) {
                let dropped = self.entries.remove(i);
                proof {
                    assert(self@ == cur.remove(i as int));
                    assert(cur.remove(i as int) == only(orig.take(j), keep) + orig.skip(j + 1));
                    j = j + 1;
                }
            } else {
                proof {
                    assert(only(orig.take(j), keep).push(orig[j]) + orig.skip(j + 1) == only(
                        orig.take(j),
                        keep,
                    ) + orig.skip(j));
                    j = j + 1;
                }
                i = i + 1;
            }
        }
        proof {
            assert(orig.skip(j).len() == 0);
            assert(orig.take(j) == orig);
            assert(only(orig, keep) + orig.skip(j) == only(orig, keep));
        }
    }
}

impl<V: View> Table<String, V> {
    /// Keep the entries whose key is one of `keys`.
    pub fn retain_keys(&mut self, keys: &TextSet)
        ensures
            final(self)@ == only(old(self)@, |a: Seq<char>| keys@.contains(a)),
    {
        let ghost orig = self@;
        let ghost keep = |a: Seq<char>| keys@.contains(a);
        let ghost mut j: int = 0;
        let mut i: usize = 0;
        assert(orig.take(0) == Seq::<(Seq<char>, V::V)>::empty());
        assert(self@ == only(orig.take(0), keep) + orig.skip(0));
        while i < self.entries.len()
            invariant
                keep == (|a: Seq<char>| keys@.contains(a)),
                self@.len() == self.entries@.len(),
                0 <= j <= orig.len(),
                i == only(orig.take(j), keep).len(),
                self@ == only(orig.take(j), keep) + orig.skip(j),
            decreases self.entries@.len() - i,
        {
            let ghost cur = self@;
            proof {
                assert(cur[i as int] == orig.skip(j)[0]);
                assert(orig.skip(j)[0] == orig[j]);
                assert(orig.take(j + 1).drop_last() == orig.take(j));
                assert(orig.take(j + 1).last() == orig[j]);
            }
            if keys.contains(self.entries[i].0.as_str()) {
                proof {
                    assert(only(orig.take(j), keep).push(orig[j]) + orig.skip(j + 1) == only(
                        orig.take(j),
                        keep,
                    ) + orig.skip(j));
                    j = j + 1;
                }
                i = i + 1;
            } else {
                let dropped = self.entries.remove(i);
                proof {
                    assert(self@ == cur.remove(i as int));
                    assert(cur.remove(i as int) == only(orig.take(j), keep) + orig.skip(j + 1));
                    j = j + 1;
                }
            }
        }
        proof {
            assert(orig.skip(j).len() == 0);
            assert(orig.take(j) == orig);
            assert(only(orig, keep) + orig.skip(j) == only(orig, keep));
        }
    }
}

/// A set of texts, in the order in which they came.
pub struct TextSet {
    pub items: Vec<String>,
}

impl View for TextSet {
    type V = Seq<Seq<char>>;

    open spec fn view(&self) -> Seq<Seq<char>> {
        text::views(self.items@)
    }
}

/// The items with `t` as a new last one, unless it is among them.
pub open spec fn with_item(s: Seq<Seq<char>>, t: Seq<char>) -> Seq<Seq<char>> {
    if s.contains(t) {
        s
    } else {
        s.push(t)
    }
}

/// Adding a text makes it a member, keeps the other members and adds none,
/// and keeps members apart.
pub proof fn law_with_item(s: Seq<Seq<char>>, t: Seq<char>)
    ensures
        forall|x: Seq<char>| #[trigger]
            with_item(s, t).contains(x) <==> (s.contains(x) || x == t),
        s.no_duplicates() ==> with_item(s, t).no_duplicates(),
{
    if !s.contains(t) {
        assert forall|x: Seq<char>| #[trigger] with_item(s, t).contains(x) <==> (s.contains(x) || x == t) by {
            let r = s.push(t);
            if s.contains(x) {
                let i = choose|i: int| 0 <= i < s.len() && s[i] == x;
                assert(r[i] == x);
            }
            if x == t {
                assert(r[s.len() as int] == x);
            }
            if r.contains(x) && x != t {
                let i = choose|i: int| 0 <= i < r.len() && r[i] == x;
                assert(s[i] == x);
            }
        }
    }
}

impl TextSet {
    /// The empty set.
    pub fn new() -> (r: Self)
        ensures
            r@ == Seq::<Seq<char>>::empty(),
    {
        let r = TextSet { items: Vec::new() };
        assert(r@ == Seq::<Seq<char>>::empty());
        r
    }

    /// Whether a text is in the set.
    pub fn contains(&self, t: &str) -> (r: bool)
        ensures
            r == self@.contains(t@),
    {
        let mut i: usize = 0;
        while i < self.items.len()
            invariant
                i <= self.items@.len(),
                self@.len() == self.items@.len(),
                forall|j: int| 0 <= j < i ==> #[trigger] self@[j] != t@,
            decreases self.items@.len() - i,
        {
            assert(self@[i as int] == self.items@[i as int]@);
            if text::same(self.items[i].as_str(), t) {
                return true;
            }
            i = i + 1;
        }
        false
    }

    /// Add a text; whether it was new.
    pub fn insert(&mut self, t: &str) -> (r: bool)
        ensures
            r == !old(self)@.contains(t@),
            final(self)@ == with_item(old(self)@, t@),
    {
        if self.contains(t) {
            false
        } else {
            let ghost before = self@;
            self.items.push(text::owned(t));
            assert(self@ == before.push(t@));
            true
        }
    }
}

/// A list of texts.
#[derive(Debug)]
pub struct TextList {
    pub items: Vec<String>,
}

impl View for TextList {
    type V = Seq<Seq<char>>;

    open spec fn view(&self) -> Seq<Seq<char>> {
        text::views(self.items@)
    }
}

} // verus!
