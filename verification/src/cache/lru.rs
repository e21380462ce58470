//! A fixed-capacity cache that evicts the least recently used entry.
//!
//! The cache holds its entries in a single vector ordered by recency of
//! access: the entry at index 0 is the least recently used, the last entry
//! the most recently used.  Every contract is stated over that sequence,
//! identifying entries by the deep view of their key; the key type's
//! [`CacheKey`] impl ties the executable comparison to that view.

use vstd::prelude::*;

use crate::cache::traits::{CacheKey, CacheStorage};

verus! {

/// No two entries of `s` carry keys with the same deep view.
pub open spec fn keys_distinct<K: DeepView, V>(s: Seq<(K, V)>) -> bool {
    forall|i: int, j: int|
        0 <= i < j < s.len() ==> s[i].0.deep_view() != s[j].0.deep_view()
}

/// Some entry of `s` carries a key whose deep view is `k`.
pub open spec fn has_key<K: DeepView, V>(s: Seq<(K, V)>, k: <K as DeepView>::V) -> bool {
    exists|i: int| 0 <= i < s.len() && s[i].0.deep_view() == k
}

/// An index of `s` whose entry carries a key with deep view `k`; under
/// `keys_distinct` that index is unique.
pub open spec fn key_index<K: DeepView, V>(s: Seq<(K, V)>, k: <K as DeepView>::V) -> int {
    choose|i: int| 0 <= i < s.len() && s[i].0.deep_view() == k
}

/// The value stored for the key with deep view `k`.
pub open spec fn value_of<K: DeepView, V>(s: Seq<(K, V)>, k: <K as DeepView>::V) -> V {
    s[key_index(s, k)].1
}

/// Refreshing a key: if present, its entry moves to the most-recently-used
/// end, unchanged otherwise; an absent key leaves the sequence as it is.
pub open spec fn spec_refresh<K: DeepView, V>(
    s: Seq<(K, V)>,
    k: <K as DeepView>::V,
) -> Seq<(K, V)> {
    if has_key(s, k) {
        s.remove(key_index(s, k)).push(s[key_index(s, k)])
    } else {
        s
    }
}

/// Inserting `(key, value)` at capacity `cap`: an existing key is updated in
/// place and moved to the most-recently-used end; a new key is appended, and
/// if the cache was full the least recently used entry (index 0 of the
/// appended sequence) is evicted.
pub open spec fn spec_put<K: DeepView, V>(
    s: Seq<(K, V)>,
    cap: nat,
    key: K,
    value: V,
) -> Seq<(K, V)> {
    if has_key(s, key.deep_view()) {
        s.remove(key_index(s, key.deep_view())).push((key, value))
    } else if s.len() < cap {
        s.push((key, value))
    } else {
        s.push((key, value)).skip(1)
    }
}

/// Replaying a sequence of insertions, oldest first, starting from `s`.
pub open spec fn put_all<K: DeepView, V>(
    s: Seq<(K, V)>,
    cap: nat,
    pairs: Seq<(K, V)>,
) -> Seq<(K, V)>
    decreases pairs.len(),
{
    if pairs.len() == 0 {
        s
    } else {
        put_all(spec_put(s, cap, pairs[0].0, pairs[0].1), cap, pairs.skip(1))
    }
}

/// Replaying one more insertion after a replay inserts into its result.
pub proof fn lemma_put_all_push<K: DeepView, V>(
    s: Seq<(K, V)>,
    cap: nat,
    pairs: Seq<(K, V)>,
    p: (K, V),
)
    ensures
        put_all(s, cap, pairs.push(p)) == spec_put(put_all(s, cap, pairs), cap, p.0, p.1),
    decreases pairs.len(),
{
    if pairs.len() == 0 {
        reveal_with_fuel(put_all, 2);
        assert(pairs.push(p).skip(1) =~= Seq::<(K, V)>::empty());
    } else {
        assert(pairs.push(p).skip(1) =~= pairs.skip(1).push(p));
        let t = spec_put(s, cap, pairs[0].0, pairs[0].1);
        assert(put_all(s, cap, pairs.push(p)) == put_all(t, cap, pairs.skip(1).push(p)));
        lemma_put_all_push(t, cap, pairs.skip(1), p);
    }
}

/// An LRU cache of at most `capacity` entries, viewed as the sequence of its
/// resident `(key, value)` pairs from least to most recently used.
#[derive(Debug)]
pub struct Cache<K, V> {
    capacity: usize,
    entries: Vec<(K, V)>,
}

impl<K, V> View for Cache<K, V> {
    type V = Seq<(K, V)>;

    closed spec fn view(&self) -> Seq<(K, V)> {
        self.entries@
    }
}

impl<K: Clone + Eq + core::hash::Hash + CacheKey, V> Cache<K, V> {
    /// The capacity fixed at construction.
    pub closed spec fn spec_capacity(&self) -> nat {
        self.capacity as nat
    }

    /// The cache invariant: resident keys are pairwise distinct and the
    /// number of resident entries never exceeds the capacity.
    pub open spec fn wf(&self) -> bool {
        keys_distinct(self@) && self@.len() <= self.spec_capacity()
    }

    /// Creates an empty cache with the given capacity.
    pub fn new(capacity: usize) -> (c: Self)
        ensures
            c@ == Seq::<(K, V)>::empty(),
            c.spec_capacity() == capacity,
            c.wf(),
    {
        Cache { capacity, entries: Vec::new() }
    }

    /// The capacity fixed at construction.
    pub fn capacity(&self) -> (c: usize)
        ensures
            c == self.spec_capacity(),
    {
        self.capacity
    }

    /// The number of resident entries.
    pub fn len(&self) -> (n: usize)
        ensures
            n == self@.len(),
    {
        self.entries.len()
    }

    /// The resident entries from least to most recently used.
    pub fn entries(&self) -> (r: &Vec<(K, V)>)
        ensures
            r@ == self@,
    {
        &self.entries
    }

    /// The index of the first entry whose key is `*key`, if any.
    fn find_key(&self, key: &K) -> (r: Option<usize>)
        ensures
            match r {
                Some(i) => i < self@.len() && self@[i as int].0.deep_view() == key.deep_view()
                    && (forall|j: int|
                    0 <= j < i ==> self@[j].0.deep_view() != key.deep_view()),
                None => !has_key(self@, key.deep_view()),
            },
    {
        let n = self.entries.len();
        let mut i: usize = 0;
        while i < n
            invariant
                n == self@.len(),
                i <= n,
                forall|j: int| 0 <= j < i ==> self@[j].0.deep_view() != key.deep_view(),
            decreases n - i,
        {
            let e = &self.entries[i];
            if e.0.key_eq(key) {
                return Some(i);
            }
            i = i + 1;
        }
        None
    }

    /// If `*key` is resident, moves its entry to the most-recently-used end;
    /// otherwise leaves the cache unchanged.
    pub fn update_order(&mut self, key: &K)
        ensures
            final(self).spec_capacity() == old(self).spec_capacity(),
            final(self)@.len() == old(self)@.len(),
            old(self).wf() ==> final(self)@ == spec_refresh(old(self)@, key.deep_view()),
            old(self).wf() ==> final(self).wf(),
    {
        match self.find_key(key) {
            Some(i) => {
                let e = self.entries.remove(i);
                self.entries.push(e);
                proof {
                    if old(self).wf() {
                        let kd = key.deep_view();
                        lemma_key_index_unique(old(self)@, kd, i as int);
                        lemma_remove_push_distinct(old(self)@, i as int, old(self)@[i as int]);
                    }
                }
            }
            None => {}
        }
    }

    /// Looks `*key` up.  A hit returns the stored value and refreshes the
    /// entry's recency; a miss returns nothing and changes nothing.
    pub fn get<'a>(&'a mut self, key: &K) -> (r: Option<&'a V>)
        ensures
            final(self).spec_capacity() == old(self).spec_capacity(),
            final(self)@.len() == old(self)@.len(),
            old(self).wf() ==> final(self)@ == spec_refresh(old(self)@, key.deep_view()),
            old(self).wf() ==> final(self).wf(),
            old(self).wf() ==> match r {
                Some(v) => has_key(old(self)@, key.deep_view()) && *v == value_of(
                    old(self)@,
                    key.deep_view(),
                ),
                None => !has_key(old(self)@, key.deep_view()),
            },
    {
        match self.find_key(key) {
            Some(_) => {
                self.update_order(key);
                let n = self.entries.len();
                proof {
                    if old(self).wf() {
                        let kd = key.deep_view();
                        let i = key_index(old(self)@, kd);
                        lemma_key_index_unique(old(self)@, kd, i);
                    }
                }
                Some(&self.entries[n - 1].1)
            }
            None => None,
        }
    }

    /// Inserts `(key, value)`.  An existing key is updated in place and
    /// refreshed; a new key is appended, and when the cache is already full
    /// the least recently used entry is evicted first, so the number of
    /// resident entries never exceeds the capacity.
    pub fn put(&mut self, key: K, value: V)
        ensures
            final(self).spec_capacity() == old(self).spec_capacity(),
            final(self)@.len() <= old(self)@.len() + 1,
            old(self)@.len() <= old(self).spec_capacity() ==> final(self)@.len() <= old(
                self,
            ).spec_capacity(),
            old(self).wf() ==> final(self)@ == spec_put(
                old(self)@,
                old(self).spec_capacity(),
                key,
                value,
            ),
            old(self).wf() ==> final(self).wf(),
    {
        match self.find_key(&key) {
            Some(i) => {
                proof {
                    if old(self).wf() {
                        lemma_key_index_unique(old(self)@, key.deep_view(), i as int);
                        lemma_remove_push_distinct(old(self)@, i as int, (key, value));
                    }
                }
                self.entries.remove(i);
                self.entries.push((key, value));
            }
            None => {
                self.entries.push((key, value));
                if self.entries.len() > self.capacity {
                    self.entries.remove(0);
                    proof {
                        if old(self).wf() {
                            let p = old(self)@.push((key, value));
                            assert(self@ =~= p.skip(1));
                        }
                    }
                }
            }
        }
    }

    /// Builds a cache of the given capacity by replaying the pairs through
    /// [`Cache::put`], oldest first: the reconstruction of a loaded
    /// snapshot.  The result is exactly the replay `put_all` describes, for
    /// any pairs — duplicate keys included.
    pub fn from_pairs(capacity: usize, pairs: Vec<(K, V)>) -> (c: Self)
        ensures
            c.spec_capacity() == capacity,
            c@ == put_all(Seq::<(K, V)>::empty(), capacity as nat, pairs@),
            c.wf(),
    {
        let ghost all = pairs@;
        let mut rest = pairs;
        let mut c = Cache::new(capacity);
        proof {
            assert(all.take(0) =~= Seq::<(K, V)>::empty());
            assert(put_all(Seq::<(K, V)>::empty(), capacity as nat, all.take(0))
                == Seq::<(K, V)>::empty());
        }
        while rest.len() > 0
            invariant
                rest@.len() <= all.len(),
                rest@ == all.skip(all.len() - rest@.len()),
                c.spec_capacity() == capacity,
                c.wf(),
                c@ == put_all(
                    Seq::<(K, V)>::empty(),
                    capacity as nat,
                    all.take(all.len() - rest@.len()),
                ),
            decreases rest@.len(),
        {
            let ghost k = all.len() - rest@.len();
            let p = rest.remove(0);
            proof {
                assert(p == all[k]);
                assert(rest@ =~= all.skip(k + 1));
                lemma_put_all_push(Seq::<(K, V)>::empty(), capacity as nat, all.take(k), p);
                assert(all.take(k).push(p) =~= all.take(k + 1));
            }
            c.put(p.0, p.1);
        }
        proof {
            assert(all.take(all.len() as int) =~= all);
        }
        c
    }
}

impl<K: Clone + Eq + core::hash::Hash + CacheKey, V> CacheStorage<K, V> for Cache<K, V> {
    fn get(&mut self, key: &K) -> Option<&V> {
        self.get(key)
    }

    fn put(&mut self, key: K, value: V) {
        self.put(key, value)
    }
}

/// Under `keys_distinct`, any index whose entry carries a key with deep view
/// `k` is the one that `key_index` denotes.
pub proof fn lemma_key_index_unique<K: DeepView, V>(s: Seq<(K, V)>, k: <K as DeepView>::V, i: int)
    requires
        keys_distinct(s),
        0 <= i < s.len(),
        s[i].0.deep_view() == k,
    ensures
        has_key(s, k),
        key_index(s, k) == i,
{
    assert(has_key(s, k));
    let j = key_index(s, k);
    assert(0 <= j < s.len() && s[j].0.deep_view() == k);
}

/// Removing the entry at `i` and appending one that carries the same key
/// keeps the keys pairwise distinct.
pub proof fn lemma_remove_push_distinct<K: DeepView, V>(s: Seq<(K, V)>, i: int, p: (K, V))
    requires
        keys_distinct(s),
        0 <= i < s.len(),
        p.0.deep_view() == s[i].0.deep_view(),
    ensures
        keys_distinct(s.remove(i).push(p)),
        s.remove(i).push(p).len() == s.len(),
{
    s.remove_ensures(i);
    let t = s.remove(i).push(p);
    assert forall|a: int, b: int| 0 <= a < b < t.len() implies t[a].0.deep_view()
        != t[b].0.deep_view() by {
        if b < t.len() - 1 {
            let a0 = if a < i { a } else { a + 1 };
            let b0 = if b < i { b } else { b + 1 };
            assert(t[a] == s[a0] && t[b] == s[b0]);
        } else {
            let a0 = if a < i { a } else { a + 1 };
            assert(t[a] == s[a0]);
            assert(a0 != i);
            assert(s[a0].0.deep_view() != s[i].0.deep_view());
        }
    }
}

} // verus!
