//! The counting collection itself: storage, direct indexing, the bulk
//! mutation operations and the whole-counter queries.
use vstd::prelude::*;
use vstd::std_specs::iter::IteratorSpec;

use crate::algebra::key_in_prefix;
use crate::identities::{count_one, count_zero};
use crate::model::{
    count_in, counted_map, extended_map, lemma_map_total_remove, lemma_occurrences_split,
    lemma_occurrences_take_step, map_total, occurrences, pair_has_key, pair_total, subtracted_map,
    updated_map,
};
use std::collections::HashMap;

verus! {

broadcast use
    vstd::std_specs::hash::group_hash_axioms,
    vstd::seq_lib::group_to_multiset_ensures,
;

/// A tally of how often each item has been seen: a mapping from item to
/// count, together with a cached copy of the additive identity so that
/// reading a missing key needs no insertion.
#[derive(Clone, Debug)]
pub struct Counter {
    pub map: HashMap<u64, i64>,
    pub zero: i64,
}

impl View for Counter {
    type V = Map<u64, i64>;

    open spec fn view(&self) -> Map<u64, i64> {
        self.map@
    }
}

impl PartialEq for Counter {
    /// Two counters are equal when they hold the same entries; the cached
    /// identity plays no part.
    #[verifier::loop_isolation(false)]
    fn eq(&self, other: &Counter) -> (r: bool) {
        let self_pairs = self.entries();
        let other_pairs = other.entries();
        let mut ok = true;
        for i in 0..self_pairs.len()
            invariant
                ok <==> (forall|j: int|
                    0 <= j < i ==> other@.contains_key((#[trigger] self_pairs@[j]).0)
                        && other@[self_pairs@[j].0] == self_pairs@[j].1),
        {
            let (key, count) = self_pairs[i];
            let matched = match other.map.get(&key) {
                Some(w) => *w == count,
                None => false,
            };
            ok = ok && matched;
        }
        for i in 0..other_pairs.len()
            invariant
                ok <==> ((forall|j: int|
                    0 <= j < self_pairs@.len() ==> other@.contains_key(
                        (#[trigger] self_pairs@[j]).0,
                    ) && other@[self_pairs@[j].0] == self_pairs@[j].1) && (forall|j: int|
                    0 <= j < i ==> self@.contains_key((#[trigger] other_pairs@[j]).0)
                        && self@[other_pairs@[j].0] == other_pairs@[j].1)),
        {
            let (key, count) = other_pairs[i];
            let matched = match self.map.get(&key) {
                Some(w) => *w == count,
                None => false,
            };
            ok = ok && matched;
        }
        proof {
            if ok {
                assert forall|k: u64|
                    #![trigger self@.contains_key(k)]
                    #![trigger other@.contains_key(k)]
                    (self@.contains_key(k) <==> other@.contains_key(k)) && (self@.contains_key(k)
                        ==> self@[k] == other@[k]) by {
                    if self@.contains_key(k) {
                        assert(self_pairs@.contains((k, self@[k])));
                        let j = choose|j: int|
                            0 <= j < self_pairs@.len() && self_pairs@[j] == (k, self@[k]);
                        assert(other@.contains_key(self_pairs@[j].0));
                    }
                    if other@.contains_key(k) {
                        assert(other_pairs@.contains((k, other@[k])));
                        let j = choose|j: int|
                            0 <= j < other_pairs@.len() && other_pairs@[j] == (k, other@[k]);
                        assert(self@.contains_key(other_pairs@[j].0));
                    }
                }
                assert(self@ =~= other@);
            }
            if self@ == other@ {
                assert(ok);
            }
        }
        ok
    }
}

impl vstd::std_specs::cmp::PartialEqSpecImpl for Counter {
    open spec fn obeys_eq_spec() -> bool {
        true
    }

    open spec fn eq_spec(&self, other: &Counter) -> bool {
        self@ == other@
    }
}

impl Default for Counter {
    /// The empty counter.
    fn default() -> (c: Counter)
        ensures
            c.wf(),
            c@ == Map::<u64, i64>::empty(),
    {
        Counter::new()
    }
}

impl Counter {
    /// The cached identity is set at construction and never changes.
    pub open spec fn wf(&self) -> bool {
        self.zero == 0
    }

    /// Create a new, empty `Counter`.
    pub fn new() -> (c: Counter)
        ensures
            c.wf(),
            c@ == Map::<u64, i64>::empty(),
    {
        Counter { map: HashMap::new(), zero: count_zero() }
    }

    /// Create a new, empty `Counter` with room for `capacity` distinct items
    /// (a pre-allocation hint only; it does not bound the total of counts).
    pub fn with_capacity(capacity: usize) -> (c: Counter)
        ensures
            c.wf(),
            c@ == Map::<u64, i64>::empty(),
    {
        Counter { map: HashMap::with_capacity(capacity), zero: count_zero() }
    }

    /// Rehydrate a `Counter` from a plain item-to-count mapping, re-deriving
    /// the cached identity.
    pub fn from_map(map: HashMap<u64, i64>) -> (c: Counter)
        ensures
            c.wf(),
            c@ == map@,
    {
        Counter { map, zero: count_zero() }
    }

    /// Consume the counter and return the underlying item-to-count mapping.
    pub fn into_map(self) -> (m: HashMap<u64, i64>)
        ensures
            m@ == self@,
    {
        self.map
    }

    /// The number of distinct items with an entry.
    pub fn len(&self) -> (n: usize)
        ensures
            n == self@.dom().len(),
    {
        self.map.len()
    }

    /// Whether no item has an entry.
    pub fn is_empty(&self) -> (b: bool)
        ensures
            b == self@.dom().is_empty(),
    {
        self.map.is_empty()
    }

    /// Read the count of an item; a missing item reads as the cached
    /// additive identity, and nothing is inserted.
    pub fn count_of(&self, key: u64) -> (r: i64)
        requires
            self.wf(),
        ensures
            r == count_in(self@, key),
    {
        match self.map.get(&key) {
            Some(c) => *c,
            None => self.zero,
        }
    }

    /// Whether the item has an entry (even one holding the identity).
    pub fn contains(&self, key: u64) -> (b: bool)
        ensures
            b == self@.contains_key(key),
    {
        self.map.contains_key(&key)
    }

    /// Set the count of an item outright, returning the count it replaces.
    pub fn insert(&mut self, key: u64, value: i64) -> (prev: Option<i64>)
        ensures
            final(self)@ == old(self)@.insert(key, value),
            final(self).zero == old(self).zero,
            prev == (if old(self)@.contains_key(key) {
                Some(old(self)@[key])
            } else {
                None::<i64>
            }),
    {
        self.map.insert(key, value)
    }

    /// Drop an item's entry, returning the count it held.
    pub fn remove(&mut self, key: u64) -> (prev: Option<i64>)
        ensures
            final(self)@ == old(self)@.remove(key),
            final(self).zero == old(self).zero,
            prev == (if old(self)@.contains_key(key) {
                Some(old(self)@[key])
            } else {
                None::<i64>
            }),
    {
        self.map.remove(&key)
    }

    /// Add the counts of a sequence of items to this counter: every
    /// occurrence of an item raises its count by one, inserting an entry
    /// (initialized with the additive identity) for an item not yet present.
    /// Counts only ever grow; items not in the sequence keep their entries
    /// untouched.
    pub fn update(&mut self, items: &Vec<u64>)
        requires
            old(self).wf(),
            forall|x: u64| count_in(old(self)@, x) + occurrences(items@, x) <= i64::MAX,
        ensures
            final(self).wf(),
            final(self)@ == updated_map(old(self)@, items@),
    {
        let ghost m0 = self@;
        let n = items.len();
        assert(self@ =~= updated_map(m0, items@.take(0)));
        for i in 0..n
            invariant
                self.wf(),
                n == items@.len(),
                self@ == updated_map(m0, items@.take(i as int)),
                forall|x: u64| count_in(m0, x) + occurrences(items@, x) <= i64::MAX,
        {
            let item = items[i];
            proof {
                lemma_occurrences_take_step(items@, i as int);
                lemma_occurrences_split(items@, i + 1);
            }
            let cur = match self.map.get(&item) {
                Some(c) => *c,
                None => self.zero,
            };
            assert(cur == count_in(m0, item) + occurrences(items@.take(i as int), item));
            assert(cur + 1 <= i64::MAX) by {
                assert(occurrences(items@.take(i as int), item) + 1 == occurrences(
                    items@.take(i + 1),
                    item,
                ));
                assert(occurrences(items@.take(i + 1), item) <= occurrences(items@, item));
            }
            self.map.insert(item, cur + count_one());
            assert(self@ =~= updated_map(m0, items@.take(i + 1)));
        }
        assert(items@.take(n as int) =~= items@);
    }

    /// Remove the counts of a sequence of items from this counter. Each
    /// occurrence of an item lowers its count by one while the count is
    /// strictly above the additive identity; an entry whose count reaches
    /// the identity exactly is removed rather than retained; counts at or
    /// below the identity are never decremented; items without an entry are
    /// silently ignored.
    pub fn subtract(&mut self, items: &Vec<u64>)
        requires
            old(self).wf(),
        ensures
            final(self).wf(),
            final(self)@ == subtracted_map(old(self)@, items@),
    {
        let ghost m0 = self@;
        let n = items.len();
        assert(self@ =~= subtracted_map(m0, items@.take(0)));
        for i in 0..n
            invariant
                self.wf(),
                n == items@.len(),
                self@ == subtracted_map(m0, items@.take(i as int)),
        {
            let item = items[i];
            proof {
                lemma_occurrences_take_step(items@, i as int);
            }
            match self.map.get(&item) {
                Some(c) => {
                    let mut cur = *c;
                    if cur > 0 {
                        cur = cur - count_one();
                    }
                    if cur == 0 {
                        self.map.remove(&item);
                    } else {
                        self.map.insert(item, cur);
                    }
                },
                None => {},
            }
            assert(self@ =~= subtracted_map(m0, items@.take(i + 1)));
        }
        assert(items@.take(n as int) =~= items@);
    }

    /// Fold a sequence of `(item, count)` pairs into this counter, adding
    /// each pair's count onto the item's entry (pairs sharing an item are
    /// summed) and inserting an entry, initialized with the additive
    /// identity, for an item not yet present.
    pub fn extend(&mut self, pairs: &Vec<(u64, i64)>)
        requires
            old(self).wf(),
            forall|k: u64, i: int|
                0 <= i <= pairs@.len() ==> i64::MIN <= count_in(old(self)@, k) + #[trigger] pair_total(
                    pairs@.take(i),
                    k,
                ) <= i64::MAX,
        ensures
            final(self).wf(),
            final(self)@ == extended_map(old(self)@, pairs@),
    {
        let ghost m0 = self@;
        let n = pairs.len();
        assert(self@ =~= extended_map(m0, pairs@.take(0)));
        for i in 0..n
            invariant
                self.wf(),
                n == pairs@.len(),
                self@ == extended_map(m0, pairs@.take(i as int)),
                forall|k: u64, j: int|
                    0 <= j <= pairs@.len() ==> i64::MIN <= count_in(m0, k) + #[trigger] pair_total(
                        pairs@.take(j),
                        k,
                    ) <= i64::MAX,
        {
            let (item, add_count) = pairs[i];
            proof {
                assert forall|k: u64| #[trigger]
                    pair_total(pairs@.take(i + 1), k) == pair_total(pairs@.take(i as int), k) + (
                    if pairs@[i as int].0 == k {
                        pairs@[i as int].1 as int
                    } else {
                        0int
                    }) by {
                    assert(pairs@.take(i + 1).drop_last() =~= pairs@.take(i as int));
                    assert(pairs@.take(i + 1).last() == pairs@[i as int]);
                }
                if !pair_has_key(pairs@.take(i as int), item) {
                    crate::model::lemma_pair_total_absent(pairs@.take(i as int), item);
                }
            }
            let cur = match self.map.get(&item) {
                Some(c) => *c,
                None => self.zero,
            };
            assert(cur == count_in(m0, item) + pair_total(pairs@.take(i as int), item));
            assert(i64::MIN <= cur + add_count <= i64::MAX) by {
                assert(i64::MIN <= count_in(m0, item) + pair_total(pairs@.take(i + 1), item)
                    <= i64::MAX);
            }
            self.map.insert(item, cur + add_count);
            assert(self@ =~= extended_map(m0, pairs@.take(i + 1)));
        }
        assert(pairs@.take(n as int) =~= pairs@);
    }

    /// Create a `Counter` from a sequence of `(item, count)` pairs; the
    /// counts of pairs sharing an item are summed.
    pub fn from_pairs(pairs: &Vec<(u64, i64)>) -> (c: Counter)
        requires
            forall|k: u64, i: int|
                0 <= i <= pairs@.len() ==> i64::MIN <= #[trigger] pair_total(pairs@.take(i), k)
                    <= i64::MAX,
        ensures
            c.wf(),
            c@ == extended_map(Map::empty(), pairs@),
    {
        let mut c = Counter::new();
        c.extend(pairs);
        c
    }

    /// Create a `Counter` initialized with the counts of the given items.
    pub fn init(items: &Vec<u64>) -> (c: Counter)
        requires
            forall|x: u64| occurrences(items@, x) <= i64::MAX,
        ensures
            c.wf(),
            c@ == counted_map(items@),
    {
        let mut c = Counter::new();
        c.update(items);
        c
    }

    /// Collect the `(item, count)` entries into a vector, in no particular
    /// order: the pairs are exactly the entries of the mapping, each item
    /// appearing once.
    pub fn entries(&self) -> (r: Vec<(u64, i64)>)
        ensures
            r@.len() == self@.dom().len(),
            forall|i: int|
                0 <= i < r@.len() ==> self@.contains_key(#[trigger] r@[i].0) && self@[r@[i].0]
                    == r@[i].1,
            forall|i: int, j: int| 0 <= i < j < r@.len() ==> r@[i].0 != r@[j].0,
            forall|k: u64| #[trigger]
                self@.contains_key(k) ==> r@.contains((k, self@[k])),
            r@.to_set() == self@.kv_pairs(),
    {
        let mut r: Vec<(u64, i64)> = Vec::new();
        let ghost all = self.map.iter().remaining();
        for (k, v) in it: self.map.iter()
            invariant
                it.seq() == all,
                r@.len() == it.index(),
                all.no_duplicates(),
                forall|j: int|
                    0 <= j < r@.len() ==> r@[j] == (*all[j].0, *all[j].1),
        {
            r.push((*k, *v));
        }
        proof {
            assert(r@.len() == all.len());
            assert(all.len() == self@.dom().len());
            assert(r@ =~= all.unref());
            assert forall|i: int|
                0 <= i < r@.len() implies self@.contains_key(#[trigger] r@[i].0) && self@[r@[i].0]
                == r@[i].1 by {
                assert(self@.contains_key(*all[i].0));
                assert(self@[*all[i].0] == *all[i].1);
            }
            assert forall|i: int, j: int| 0 <= i < j < r@.len() implies r@[i].0 != r@[j].0 by {
                if r@[i].0 == r@[j].0 {
                    assert(self@[*all[i].0] == *all[i].1);
                    assert(self@[*all[j].0] == *all[j].1);
                    assert(all[i] == all[j]);
                }
            }
            assert forall|key: u64| #[trigger]
                self@.contains_key(key) implies r@.contains((key, self@[key])) by {
                assert(all.contains((&key, &self@[key])));
                let i = choose|i: int| 0 <= i < all.len() && all[i] == (&key, &self@[key]);
                assert(r@[i] == (key, self@[key]));
            }
        }
        r
    }

    /// The sum of all the counts. Use `len` for the number of distinct
    /// items; `total` adds the counts themselves up. The accumulator is wide
    /// enough that the sum can never overflow it.
    #[verifier::loop_isolation(false)]
    pub fn total(&self) -> (t: i128)
        ensures
            t == map_total(self@),
    {
        let ghost m = self@;
        let pairs = self.entries();
        let n = pairs.len();
        let mut t: i128 = 0;
        let ghost mut rem = m;
        for i in 0..n
            invariant
                rem.dom().finite(),
                t + map_total(rem) == map_total(m),
                forall|k: u64|
                    rem.contains_key(k) <==> (#[trigger] m.contains_key(k) && !key_in_prefix(
                        pairs@,
                        i as int,
                        k,
                    )),
                forall|k: u64| #[trigger] rem.contains_key(k) ==> rem[k] == m[k],
                -(i as int) * 0x8000_0000_0000_0000 <= t <= (i as int) * 0x7fff_ffff_ffff_ffff,
        {
            let (key, c) = pairs[i];
            proof {
                assert(!key_in_prefix(pairs@, i as int, key));
                assert(rem.contains_key(key));
                lemma_map_total_remove(rem, key);
            }
            t = t + c as i128;
            proof {
                rem = rem.remove(key);
            }
        }
        proof {
            assert forall|k: u64| !rem.contains_key(k) by {
                if m.contains_key(k) {
                    assert(pairs@.contains((k, m[k])));
                    let j = choose|j: int| 0 <= j < pairs@.len() && pairs@[j] == (k, m[k]);
                    assert(key_in_prefix(pairs@, n as int, k));
                }
            }
            assert(rem.dom() =~= Set::empty());
            assert(map_total(rem) == 0);
        }
        t
    }

    /// Make sure an item has an entry, initializing a missing one with the
    /// additive identity, and return the count now stored. This is the
    /// mutable-indexing counterpart of `count_of`.
    pub fn entry_or_zero(&mut self, key: u64) -> (r: i64)
        requires
            old(self).wf(),
        ensures
            final(self).wf(),
            r == count_in(old(self)@, key),
            final(self)@ == old(self)@.insert(key, count_in(old(self)@, key)),
    {
        match self.map.get(&key) {
            Some(c) => {
                let r = *c;
                self.map.insert(key, r);
                r
            },
            None => {
                self.map.insert(key, self.zero);
                self.zero
            },
        }
    }
}

} // verus!
