//! Count-bounded LRU cache over string keys and `u64` weights.
//!
//! The cache keeps its entries in recency order: index 0 is the
//! least-recently-used end, the last index is the most-recently-used end.
//! `put` and `get` move the touched key to the MRU end; `peek` and
//! `contains` leave the order alone; `pop_lru` removes the LRU entry.

use vstd::prelude::*;

verus! {

/// A keyed map of `fingerprint -> byte-length`, bounded by entry count,
/// with recency reordering on access.
pub struct LruCache {
    capacity: usize,
    /// Recency order: index 0 is LRU, the last index is MRU.
    entries: Vec<(String, u64)>,
}

/// `true` when no two entries of `s` share a key.
pub open spec fn keys_distinct(s: Seq<(Seq<char>, u64)>) -> bool {
    forall|i: int, j: int| 0 <= i < j < s.len() ==> s[i].0 != s[j].0
}

/// `true` when some entry of `s` has key `k`.
pub open spec fn contains_key(s: Seq<(Seq<char>, u64)>, k: Seq<char>) -> bool {
    exists|i: int| 0 <= i < s.len() && s[i].0 == k
}

/// The index of the entry with key `k` (meaningful under `contains_key`).
pub open spec fn index_of_key(s: Seq<(Seq<char>, u64)>, k: Seq<char>) -> int {
    choose|i: int| 0 <= i < s.len() && s[i].0 == k
}

/// The weight stored under key `k`, if any.
pub open spec fn spec_peek(s: Seq<(Seq<char>, u64)>, k: Seq<char>) -> Option<u64> {
    if contains_key(s, k) {
        Some(s[index_of_key(s, k)].1)
    } else {
        None
    }
}

/// The order after an access of key `k` moved it to the MRU end,
/// its weight unchanged (meaningful under `contains_key`).
pub open spec fn spec_touch(s: Seq<(Seq<char>, u64)>, k: Seq<char>) -> Seq<(Seq<char>, u64)> {
    s.remove(index_of_key(s, k)).push((k, s[index_of_key(s, k)].1))
}

/// The order after `put(k, w)` on a cache of capacity `cap`: an existing
/// key is re-weighted and moved to the MRU end; a new key is appended,
/// evicting the LRU entry first when the cache is full.
pub open spec fn spec_put(
    s: Seq<(Seq<char>, u64)>,
    k: Seq<char>,
    w: u64,
    cap: int,
) -> Seq<(Seq<char>, u64)> {
    if contains_key(s, k) {
        s.remove(index_of_key(s, k)).push((k, w))
    } else if s.len() >= cap {
        s.drop_first().push((k, w))
    } else {
        s.push((k, w))
    }
}

/// Under distinct keys, the entry holding `k` is unique, so any index
/// that holds `k` is the one `index_of_key` picks.
pub proof fn lemma_key_index_unique(s: Seq<(Seq<char>, u64)>, k: Seq<char>, i: int)
    requires
        keys_distinct(s),
        0 <= i < s.len(),
        s[i].0 == k,
    ensures
        contains_key(s, k),
        index_of_key(s, k) == i,
{
    assert(contains_key(s, k));
    let j = index_of_key(s, k);
    assert(0 <= j < s.len() && s[j].0 == k);
    if j < i {
        assert(s[j].0 != s[i].0);
    } else if i < j {
        assert(s[i].0 != s[j].0);
    }
}

impl LruCache {
    /// The entries in recency order, as mathematical values.
    pub closed spec fn view(&self) -> Seq<(Seq<char>, u64)> {
        Seq::new(self.entries@.len(), |i: int| (self.entries@[i].0@, self.entries@[i].1))
    }

    /// The fixed capacity the cache was created with.
    pub closed spec fn spec_capacity(&self) -> int {
        self.capacity as int
    }

    /// Well-formedness: at least one slot, never over capacity, no
    /// duplicate keys.
    pub open spec fn wf(&self) -> bool {
        &&& self.spec_capacity() >= 1
        &&& self@.len() <= self.spec_capacity()
        &&& keys_distinct(self@)
    }

    /// Creates an empty cache with room for `capacity` entries.
    pub fn new(capacity: usize) -> (r: Self)
        requires
            capacity >= 1,
        ensures
            r.wf(),
            r.spec_capacity() == capacity,
            r@ == Seq::<(Seq<char>, u64)>::empty(),
    {
        let r = LruCache { capacity, entries: Vec::new() };
        proof {
            assert(r@ =~= Seq::<(Seq<char>, u64)>::empty());
        }
        r
    }

    /// The number of entries currently cached.
    pub fn len(&self) -> (r: usize)
        ensures
            r == self@.len(),
    {
        self.entries.len()
    }

    /// `true` when the cache holds no entry.
    pub fn is_empty(&self) -> (r: bool)
        ensures
            r == (self@.len() == 0),
    {
        self.entries.len() == 0
    }

    /// The fixed capacity the cache was created with.
    pub fn capacity(&self) -> (r: usize)
        ensures
            r == self.spec_capacity(),
    {
        self.capacity
    }

    /// The index of the entry holding `key`, scanning from the LRU end.
    fn position_of(&self, key: &String) -> (r: Option<usize>)
        requires
            self.wf(),
        ensures
            (match r {
                Some(i) => {
                    &&& i < self@.len()
                    &&& self@[i as int].0 == key@
                    &&& contains_key(self@, key@)
                    &&& index_of_key(self@, key@) == i
                },
                None => !contains_key(self@, key@),
            }),
    {
        let mut i: usize = 0;
        while i < self.entries.len()
            invariant
                self.wf(),
                i <= self@.len(),
                forall|j: int| 0 <= j < i ==> self@[j].0 != key@,
            decreases self@.len() - i,
        {
            if self.entries[i].0 == *key {
                proof {
                    lemma_key_index_unique(self@, key@, i as int);
                }
                return Some(i);
            }
            i += 1;
        }
        None
    }

    /// `true` when `key` is cached; the order is left alone.
    pub fn contains(&self, key: &String) -> (r: bool)
        requires
            self.wf(),
        ensures
            r == contains_key(self@, key@),
    {
        self.position_of(key).is_some()
    }

    /// The weight under `key`, without reordering.
    pub fn peek(&self, key: &String) -> (r: Option<u64>)
        requires
            self.wf(),
        ensures
            r == spec_peek(self@, key@),
    {
        match self.position_of(key) {
            Some(i) => Some(self.entries[i].1),
            None => None,
        }
    }

    /// The weight under `key`; a hit moves the entry to the MRU end.
    pub fn get(&mut self, key: &String) -> (r: Option<u64>)
        requires
            old(self).wf(),
        ensures
            final(self).wf(),
            final(self).spec_capacity() == old(self).spec_capacity(),
            r == spec_peek(old(self)@, key@),
            contains_key(old(self)@, key@) ==> final(self)@ == spec_touch(old(self)@, key@),
            !contains_key(old(self)@, key@) ==> final(self)@ == old(self)@,
    {
        match self.position_of(key) {
            Some(i) => {
                let ghost pre = self@;
                let entry = self.entries.remove(i);
                let weight = entry.1;
                self.entries.push(entry);
                proof {
                    assert(self@ =~= pre.remove(i as int).push((key@, weight)));
                    lemma_remove_push_wf(pre, key@, weight, i as int, self.spec_capacity());
                }
                Some(weight)
            }
            None => {
                proof {
                    assert(self@ =~= old(self)@);
                }
                None
            }
        }
    }

    /// Inserts or replaces `key`, moving it to the MRU end; returns the
    /// prior weight. A new key on a full cache first evicts the LRU entry.
    pub fn put(&mut self, key: String, weight: u64) -> (prior: Option<u64>)
        requires
            old(self).wf(),
        ensures
            final(self).wf(),
            final(self).spec_capacity() == old(self).spec_capacity(),
            prior == spec_peek(old(self)@, key@),
            final(self)@ == spec_put(old(self)@, key@, weight, old(self).spec_capacity()),
    {
        let ghost pre = self@;
        match self.position_of(&key) {
            Some(i) => {
                let entry = self.entries.remove(i);
                let prior_weight = entry.1;
                self.entries.push((key, weight));
                proof {
                    assert(self@ =~= pre.remove(i as int).push((pre[i as int].0, weight)));
                    lemma_remove_push_wf(pre, pre[i as int].0, weight, i as int, self.spec_capacity());
                }
                Some(prior_weight)
            }
            None => {
                if self.entries.len() == self.capacity {
                    let _ = self.entries.remove(0);
                    self.entries.push((key, weight));
                    proof {
                        assert(self@ =~= pre.drop_first().push((key@, weight)));
                        lemma_evict_push_wf(pre, key@, weight, self.spec_capacity());
                    }
                } else {
                    self.entries.push((key, weight));
                    proof {
                        assert(self@ =~= pre.push((key@, weight)));
                        lemma_fresh_push_wf(pre, key@, weight, self.spec_capacity());
                    }
                }
                None
            }
        }
    }

    /// Removes and returns the least-recently-used entry.
    pub fn pop_lru(&mut self) -> (r: Option<(String, u64)>)
        requires
            old(self).wf(),
        ensures
            final(self).wf(),
            final(self).spec_capacity() == old(self).spec_capacity(),
            old(self)@.len() == 0 ==> r is None && final(self)@ == old(self)@,
            old(self)@.len() > 0 ==> (r matches Some(e) && (e.0@, e.1) == old(self)@[0]
                && final(self)@ == old(self)@.drop_first()),
    {
        if self.entries.len() == 0 {
            proof {
                assert(self@ =~= old(self)@);
            }
            None
        } else {
            let ghost pre = self@;
            let entry = self.entries.remove(0);
            proof {
                assert(self@ =~= pre.drop_first());
                assert forall|i: int, j: int| 0 <= i < j < self@.len() implies self@[i].0
                    != self@[j].0 by {
                    assert(pre[i + 1].0 != pre[j + 1].0);
                }
            }
            Some(entry)
        }
    }
}

/// Removing the sole entry of key `k` and re-appending `k` keeps the keys
/// distinct and the length unchanged.
proof fn lemma_remove_push_wf(s: Seq<(Seq<char>, u64)>, k: Seq<char>, w: u64, i: int, cap: int)
    requires
        keys_distinct(s),
        s.len() <= cap,
        0 <= i < s.len(),
        s[i].0 == k,
    ensures
        keys_distinct(s.remove(i).push((k, w))),
        s.remove(i).push((k, w)).len() == s.len(),
        w == s[i].1 ==> s.remove(i).push((k, w)) == spec_touch(s, k),
        spec_peek(s, k) == Some(s[i].1),
{
    lemma_key_index_unique(s, k, i);
    let t = s.remove(i).push((k, w));
    assert forall|p: int, q: int| 0 <= p < q < t.len() implies t[p].0 != t[q].0 by {
        if q < t.len() - 1 {
            // both entries come from s, at shifted positions
            let sp = if p < i {
                p
            } else {
                p + 1
            };
            let sq = if q < i {
                q
            } else {
                q + 1
            };
            assert(t[p] == s[sp] && t[q] == s[sq]);
            assert(s[sp].0 != s[sq].0);
        } else {
            // q is the re-appended key k; entry p comes from s at an
            // index other than i, whose key differs from k = s[i].0
            let sp = if p < i {
                p
            } else {
                p + 1
            };
            assert(t[p] == s[sp]);
            if sp < i {
                assert(s[sp].0 != s[i].0);
            } else {
                assert(s[i].0 != s[sp].0);
            }
        }
    }
    if w == s[i].1 {
        assert(t =~= spec_touch(s, k));
    }
}

/// Appending a fresh key after dropping the LRU entry keeps the keys
/// distinct; the length is unchanged.
proof fn lemma_evict_push_wf(s: Seq<(Seq<char>, u64)>, k: Seq<char>, w: u64, cap: int)
    requires
        keys_distinct(s),
        !contains_key(s, k),
        s.len() == cap,
        cap >= 1,
    ensures
        keys_distinct(s.drop_first().push((k, w))),
        s.drop_first().push((k, w)).len() == cap,
{
    let t = s.drop_first().push((k, w));
    assert forall|p: int, q: int| 0 <= p < q < t.len() implies t[p].0 != t[q].0 by {
        if q < t.len() - 1 {
            assert(t[p] == s[p + 1] && t[q] == s[q + 1]);
            assert(s[p + 1].0 != s[q + 1].0);
        } else {
            assert(t[p] == s[p + 1]);
            assert(!(s[p + 1].0 == k));
        }
    }
}

/// Capacity law: one `put` on a well-formed order of at most `cap`
/// entries yields at most `cap` entries again, so after any sequence of
/// `put` operations on a cache of capacity `cap` the length stays within
/// `cap`.
pub proof fn lemma_put_bounds_len(s: Seq<(Seq<char>, u64)>, k: Seq<char>, w: u64, cap: int)
    requires
        cap >= 1,
        s.len() <= cap,
        keys_distinct(s),
    ensures
        spec_put(s, k, w, cap).len() <= cap,
{
    if contains_key(s, k) {
        let i = index_of_key(s, k);
        assert(0 <= i < s.len() && s[i].0 == k);
    }
}

/// MRU-on-get law: after a hit on `k` moved it to the MRU end, the LRU
/// entry is not `k` unless `k` is the only entry, so a `pop_lru` right
/// after a `get(k)` never pops `k` from a cache of two or more entries.
pub proof fn lemma_get_then_pop_differs(s: Seq<(Seq<char>, u64)>, k: Seq<char>)
    requires
        keys_distinct(s),
        contains_key(s, k),
        s.len() > 1,
    ensures
        spec_touch(s, k).len() == s.len(),
        spec_touch(s, k)[0].0 != k,
{
    let i = index_of_key(s, k);
    assert(0 <= i < s.len() && s[i].0 == k);
    let t = spec_touch(s, k);
    if i > 0 {
        assert(t[0] == s[0]);
        assert(s[0].0 != s[i].0);
    } else {
        assert(t[0] == s[1]);
        assert(s[0].0 != s[1].0);
    }
}

/// Peek-transparency law: after `put(a); put(b)` on an empty cache with
/// room for both, the LRU entry is still `a` — and a `peek(a)` in
/// between cannot change that, since `peek` takes the cache by shared
/// reference — while a `get(a)` promotes `a` and leaves `b` at the LRU
/// end.
pub proof fn lemma_peek_vs_get_order(a: Seq<char>, wa: u64, b: Seq<char>, wb: u64, cap: int)
    requires
        a != b,
        cap >= 2,
    ensures
        ({
            let s = spec_put(spec_put(Seq::empty(), a, wa, cap), b, wb, cap);
            &&& s.len() == 2
            &&& s[0] == (a, wa)
            &&& s[1] == (b, wb)
            &&& spec_touch(s, a)[0] == (b, wb)
        }),
{
    let s0 = Seq::<(Seq<char>, u64)>::empty();
    assert(!contains_key(s0, a));
    let s1 = spec_put(s0, a, wa, cap);
    assert(s1 =~= seq![(a, wa)]);
    assert(!contains_key(s1, b));
    let s = spec_put(s1, b, wb, cap);
    assert(s =~= seq![(a, wa), (b, wb)]);
    lemma_key_index_unique(s, a, 0);
    assert(spec_touch(s, a) =~= seq![(b, wb), (a, wa)]);
}

/// Replace law: a `put` of an existing key keeps the length, keeps the
/// keys distinct, and a later lookup of the key sees the new weight.
pub proof fn lemma_replace(s: Seq<(Seq<char>, u64)>, k: Seq<char>, w: u64, cap: int)
    requires
        keys_distinct(s),
        contains_key(s, k),
        s.len() <= cap,
        cap >= 1,
    ensures
        ({
            let t = spec_put(s, k, w, cap);
            &&& t.len() == s.len()
            &&& keys_distinct(t)
            &&& spec_peek(t, k) == Some(w)
        }),
{
    let i = index_of_key(s, k);
    assert(0 <= i < s.len() && s[i].0 == k);
    lemma_remove_push_wf(s, k, w, i, cap);
    let t = spec_put(s, k, w, cap);
    lemma_key_index_unique(t, k, t.len() - 1);
}

/// Appending a fresh key to a cache below capacity keeps the keys
/// distinct.
proof fn lemma_fresh_push_wf(s: Seq<(Seq<char>, u64)>, k: Seq<char>, w: u64, cap: int)
    requires
        keys_distinct(s),
        !contains_key(s, k),
        s.len() < cap,
    ensures
        keys_distinct(s.push((k, w))),
        s.push((k, w)).len() <= cap,
{
    let t = s.push((k, w));
    assert forall|p: int, q: int| 0 <= p < q < t.len() implies t[p].0 != t[q].0 by {
        if q < t.len() - 1 {
            assert(s[p].0 != s[q].0);
        } else {
            assert(!(s[p].0 == k));
        }
    }
}

} // verus!
