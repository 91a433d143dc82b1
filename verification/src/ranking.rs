//! The ranking layer: ordering the entries from most to least common, with a
//! caller-supplied tie-break, a natural-order variant, and heap-based top-k
//! selection.
use vstd::multiset::Multiset;
use vstd::prelude::*;
use vstd::relations::{sorted_by, total_ordering};

use crate::counter::Counter;
use crate::model::{keys_distinct, rank_before, rank_le, rank_le_fn, ranked};

verus! {

broadcast use
    vstd::seq_lib::group_to_multiset_ensures,
    vstd::multiset::group_multiset_axioms,
;

/// The ranking order is a total order.
pub proof fn lemma_rank_le_total()
    ensures
        total_ordering(rank_le_fn()),
{
    let r = rank_le_fn();
    assert forall|x: (u64, i64)| #[trigger] r(x, x) by {}
    assert forall|x: (u64, i64), y: (u64, i64)| #[trigger] r(x, y) && #[trigger] r(y, x) implies x
        == y by {
        assert(x.0 == y.0 && x.1 == y.1);
    }
}

/// A finite mapping has finitely many entries, one per key.
pub proof fn lemma_kv_pairs_finite(m: Map<u64, i64>)
    requires
        m.dom().finite(),
    ensures
        m.kv_pairs().finite(),
        m.kv_pairs().len() == m.dom().len(),
    decreases m.dom().len(),
{
    broadcast use vstd::set::group_set_axioms;

    if m.dom().len() == 0 {
        assert(m.dom() =~= Set::empty());
        assert(m.kv_pairs() =~= Set::<(u64, i64)>::empty());
    } else {
        let k = m.dom().choose();
        assert(m.dom().contains(k));
        lemma_kv_pairs_finite(m.remove(k));
        assert(m.kv_pairs() =~= m.remove(k).kv_pairs().insert((k, m[k])));
        assert(!m.remove(k).kv_pairs().contains((k, m[k])));
    }
}

/// Listing a finite set keeps its size and repeats no element.
pub proof fn lemma_to_seq_props(s: Set<(u64, i64)>)
    requires
        s.finite(),
    ensures
        s.to_seq().len() == s.len(),
        s.to_seq().no_duplicates(),
        s.to_seq().to_set() == s,
    decreases s.len(),
{
    broadcast use vstd::set::group_set_axioms;
    broadcast use vstd::seq_lib::group_seq_properties;

    if s.len() == 0 {
        assert(s =~= Set::empty());
        assert(s.to_seq() =~= Seq::<(u64, i64)>::empty());
        assert(s.to_seq().to_set() =~= s);
    } else {
        let x = s.choose();
        assert(s.contains(x));
        lemma_to_seq_props(s.remove(x));
        let t = s.remove(x).to_seq();
        assert(s.to_seq() =~= Seq::empty().push(x) + t);
        assert(s.to_seq().to_set() =~= t.to_set().insert(x));
        assert(s.to_seq().to_set() =~= s);
        assert forall|i: int, j: int|
            0 <= i < j < s.to_seq().len() implies s.to_seq()[i] != s.to_seq()[j] by {
            if i == 0 {
                assert(t.to_set().contains(t[j - 1]));
            }
        }
    }
}

/// Two duplicate-free sequences over the same element set carry the same
/// multiset.
pub proof fn lemma_no_dup_same_set_multiset(x: Seq<(u64, i64)>, y: Seq<(u64, i64)>)
    requires
        x.no_duplicates(),
        y.no_duplicates(),
        x.to_set() == y.to_set(),
    ensures
        x.to_multiset() == y.to_multiset(),
{
    broadcast use vstd::seq_lib::group_seq_properties;

    x.lemma_multiset_has_no_duplicates();
    y.lemma_multiset_has_no_duplicates();
    assert forall|e: (u64, i64)| x.to_multiset().count(e) == y.to_multiset().count(e) by {
        if x.to_multiset().count(e) > 0 {
            assert(x.contains(e));
            assert(x.to_set().contains(e));
            assert(y.contains(e));
        }
        if y.to_multiset().count(e) > 0 {
            assert(y.contains(e));
            assert(y.to_set().contains(e));
            assert(x.contains(e));
        }
        if x.contains(e) {
            assert(x.to_multiset().count(e) == 1 && y.to_multiset().count(e) == 1);
        } else {
            assert(!x.to_set().contains(e));
            assert(x.to_multiset().count(e) == 0 && y.to_multiset().count(e) == 0);
        }
    }
    assert(x.to_multiset() =~= y.to_multiset());
}

/// The ranked listing of a finite mapping is sorted by the ranking order and
/// enumerates the mapping's entries exactly once each.
pub proof fn lemma_ranked_properties(m: Map<u64, i64>)
    requires
        m.dom().finite(),
    ensures
        sorted_by(ranked(m), rank_le_fn()),
        ranked(m).no_duplicates(),
        ranked(m).to_set() == m.kv_pairs(),
        ranked(m).len() == m.dom().len(),
{
    broadcast use vstd::seq_lib::group_seq_properties;

    lemma_rank_le_total();
    lemma_kv_pairs_finite(m);
    lemma_to_seq_props(m.kv_pairs());
    let t = m.kv_pairs().to_seq();
    t.lemma_sort_by_ensures(rank_le_fn());
    t.lemma_multiset_has_no_duplicates();
    ranked(m).lemma_multiset_has_no_duplicates_conv();
    assert forall|e: (u64, i64)| #[trigger]
        ranked(m).to_set().contains(e) <==> m.kv_pairs().contains(e) by {
        if ranked(m).contains(e) {
            assert(ranked(m).to_multiset().count(e) > 0);
            assert(t.contains(e));
            assert(t.to_set().contains(e));
        }
        if m.kv_pairs().contains(e) {
            assert(t.to_set().contains(e));
            assert(t.to_multiset().count(e) > 0);
            assert(ranked(m).to_multiset().count(e) > 0);
            assert(ranked(m).contains(e));
            assert(ranked(m).to_set().contains(e));
        }
    }
    assert(ranked(m).to_set() =~= m.kv_pairs());
    assert(ranked(m).to_multiset().len() == t.to_multiset().len());
}

/// Whether the tie-break function justified placing item `x` immediately
/// before item `y`: some call of it compared the two and did not order `x`
/// after `y`.
pub open spec fn tie_ok<F: Fn(&u64, &u64) -> core::cmp::Ordering>(f: F, x: u64, y: u64) -> bool {
    ||| exists|o: core::cmp::Ordering| #[trigger] call_ensures(f, (&x, &y), o) && o
        != core::cmp::Ordering::Greater
    ||| call_ensures(f, (&y, &x), core::cmp::Ordering::Greater)
}

/// Whether entry `a` may stand immediately before entry `b` in a ranking
/// that breaks count ties with `f`.
pub open spec fn pair_ok<F: Fn(&u64, &u64) -> core::cmp::Ordering>(
    f: F,
    a: (u64, i64),
    b: (u64, i64),
) -> bool {
    a.1 > b.1 || (a.1 == b.1 && tie_ok(f, a.0, b.0))
}

/// In a sequence whose adjacent counts never increase, no later count
/// exceeds an earlier one.
pub proof fn lemma_count_chain(s: Seq<(u64, i64)>, i: int, j: int)
    requires
        forall|p: int| 0 <= p < s.len() - 1 ==> s[p].1 >= #[trigger] s[p + 1].1,
        0 <= i < j < s.len(),
    ensures
        s[i].1 >= s[j].1,
    decreases j - i,
{
    if i + 1 < j {
        lemma_count_chain(s, i + 1, j);
    }
    assert(s[i].1 >= s[i + 1].1);
}

/// A sequence whose adjacent entries are rank-ordered is rank-sorted.
pub proof fn lemma_rank_chain(s: Seq<(u64, i64)>)
    requires
        forall|p: int| 0 <= p < s.len() - 1 ==> rank_le(s[p], #[trigger] s[p + 1]),
    ensures
        sorted_by(s, rank_le_fn()),
{
    assert forall|i: int, j: int| 0 <= i < j < s.len() implies #[trigger] rank_le_fn()(
        s[i],
        s[j],
    ) by {
        lemma_rank_chain_step(s, i, j);
    }
}

proof fn lemma_rank_chain_step(s: Seq<(u64, i64)>, i: int, j: int)
    requires
        forall|p: int| 0 <= p < s.len() - 1 ==> rank_le(s[p], #[trigger] s[p + 1]),
        0 <= i < j < s.len(),
    ensures
        rank_le(s[i], s[j]),
    decreases j - i,
{
    if i + 1 < j {
        lemma_rank_chain_step(s, i + 1, j);
    }
    assert(rank_le(s[i], s[i + 1]));
}

/// Sort the entries by descending count, breaking count ties with the given
/// comparison function: the result is a rearrangement whose adjacent entries
/// the counts and the tie-break justify.
#[verifier::loop_isolation(false)]
fn sort_pairs<F: Fn(&u64, &u64) -> core::cmp::Ordering>(v: Vec<(u64, i64)>, tiebreaker: F) -> (r:
    Vec<(u64, i64)>)
    requires
        forall|x: u64, y: u64| call_requires(tiebreaker, (&x, &y)),
    ensures
        r@.to_multiset() == v@.to_multiset(),
        r@.len() == v@.len(),
        forall|p: int| 0 <= p < r@.len() - 1 ==> pair_ok(tiebreaker, r@[p], #[trigger] r@[p + 1]),
{
    let mut v = v;
    let ghost orig = v@.to_multiset();
    let n = v.len();
    if n == 0 {
        return v;
    }
    for i in 1..n
        invariant
            v@.len() == n,
            v@.to_multiset() == orig,
            forall|p: int| 0 <= p < i - 1 ==> pair_ok(tiebreaker, v@[p], #[trigger] v@[p + 1]),
    {
        let mut j = i;
        let mut done = false;
        while !done && j > 0
            invariant
                0 <= j <= i,
                v@.len() == n,
                v@.to_multiset() == orig,
                forall|p: int|
                    0 <= p < i && p != j - 1 && p != j ==> pair_ok(
                        tiebreaker,
                        v@[p],
                        #[trigger] v@[p + 1],
                    ),
                j < i ==> pair_ok(tiebreaker, v@[j as int], v@[j + 1]),
                1 <= j && j < i ==> pair_ok(tiebreaker, v@[j - 1], v@[j + 1]),
                done ==> (j == 0 || pair_ok(tiebreaker, v@[j - 1], v@[j as int])),
            decreases
                    (if done {
                        0int
                    } else {
                        1int
                    }),
                    j,
        {
            let a = v[j - 1];
            let b = v[j];
            let mut needs_swap = false;
            if a.1 < b.1 {
                needs_swap = true;
            } else if a.1 == b.1 {
                let o = tiebreaker(&a.0, &b.0);
                match o {
                    core::cmp::Ordering::Greater => {
                        needs_swap = true;
                        assert(tie_ok(tiebreaker, b.0, a.0));
                    },
                    _ => {
                        assert(tie_ok(tiebreaker, a.0, b.0));
                    },
                }
            }
            if needs_swap {
                assert(pair_ok(tiebreaker, b, a));
                let ghost before = v@;
                proof {
                    if j >= 2 {
                        let p0: int = j - 2;
                        assert(pair_ok(tiebreaker, v@[p0], v@[p0 + 1]));
                        assert(pair_ok(tiebreaker, v@[j - 2], v@[j - 1]));
                    }
                }
                v.set(j - 1, b);
                v.set(j, a);
                assert(v@.to_multiset() =~= orig);
                proof {
                    assert forall|p: int|
                        0 <= p < i && p != j - 2 && p != j - 1 implies pair_ok(
                        tiebreaker,
                        v@[p],
                        #[trigger] v@[p + 1],
                    ) by {
                        if p == j && j < i {
                            assert(v@[p] == before[j - 1]);
                            assert(v@[p + 1] == before[j + 1]);
                        } else {
                            assert(v@[p] == before[p]);
                            assert(v@[p + 1] == before[p + 1]);
                            assert(pair_ok(tiebreaker, before[p], before[p + 1]));
                        }
                    }
                }
                j = j - 1;
            } else {
                assert(pair_ok(tiebreaker, a, b));
                done = true;
            }
        }
    }
    v
}

/// The items' natural order, as a comparison function.
fn natural_cmp(a: &u64, b: &u64) -> (o: core::cmp::Ordering)
    ensures
        o == core::cmp::Ordering::Less <==> *a < *b,
        o == core::cmp::Ordering::Equal <==> *a == *b,
        o == core::cmp::Ordering::Greater <==> *a > *b,
{
    if *a < *b {
        core::cmp::Ordering::Less
    } else if *a == *b {
        core::cmp::Ordering::Equal
    } else {
        core::cmp::Ordering::Greater
    }
}

impl Counter {
    /// The `(item, count)` entries, most common first; entries with equal
    /// counts are ordered as the supplied comparison function directs. The
    /// result lists every entry exactly once, its counts never increase, and
    /// each adjacent pair with equal counts stands in an order that some
    /// call of the tie-break function justified.
    #[verifier::loop_isolation(false)]
    pub fn most_common_tiebreaker<F: Fn(&u64, &u64) -> core::cmp::Ordering>(
        &self,
        tiebreaker: F,
    ) -> (r: Vec<(u64, i64)>)
        requires
            forall|x: u64, y: u64| call_requires(tiebreaker, (&x, &y)),
        ensures
            r@.len() == self@.dom().len(),
            forall|i: int|
                0 <= i < r@.len() ==> self@.contains_key(#[trigger] r@[i].0) && self@[r@[i].0]
                    == r@[i].1,
            keys_distinct(r@),
            r@.to_set() == self@.kv_pairs(),
            forall|i: int, j: int|
                0 <= i < j < r@.len() ==> (#[trigger] r@[i]).1 >= (#[trigger] r@[j]).1,
            forall|i: int|
                0 <= i < r@.len() - 1 && r@[i].1 == r@[i + 1].1 ==> tie_ok(
                    tiebreaker,
                    r@[i].0,
                    (#[trigger] r@[i + 1]).0,
                ),
    {
        let v = self.entries();
        let r = sort_pairs(v, tiebreaker);
        proof {
            assert(v@.no_duplicates()) by {
                assert forall|i: int, j: int|
                    0 <= i < j < v@.len() implies v@[i] != v@[j] by {
                    assert(v@[i].0 != v@[j].0);
                }
            }
            v@.lemma_multiset_has_no_duplicates();
            r@.lemma_multiset_has_no_duplicates_conv();
            assert forall|e: (u64, i64)| #[trigger]
                r@.to_set().contains(e) <==> v@.to_set().contains(e) by {
                if r@.contains(e) {
                    assert(r@.to_multiset().count(e) > 0);
                    assert(v@.contains(e));
                }
                if v@.contains(e) {
                    assert(v@.to_multiset().count(e) > 0);
                    assert(r@.contains(e));
                }
            }
            assert(r@.to_set() =~= self@.kv_pairs());
            assert forall|i: int|
                0 <= i < r@.len() implies self@.contains_key(#[trigger] r@[i].0) && self@[r@[i].0]
                == r@[i].1 by {
                assert(r@.to_set().contains(r@[i]));
                assert(self@.kv_pairs().contains(r@[i]));
            }
            assert forall|i: int, j: int| 0 <= i < j < r@.len() implies r@[i].0 != r@[j].0 by {
                if r@[i].0 == r@[j].0 {
                    assert(self@.kv_pairs().contains(r@[i]));
                    assert(self@.kv_pairs().contains(r@[j]));
                    assert(r@[i] == r@[j]);
                }
            }
            assert forall|i: int, j: int|
                0 <= i < j < r@.len() implies (#[trigger] r@[i]).1 >= (#[trigger] r@[j]).1 by {
                assert forall|p: int|
                    0 <= p < r@.len() - 1 implies r@[p].1 >= #[trigger] r@[p + 1].1 by {
                    assert(pair_ok(tiebreaker, r@[p], r@[p + 1]));
                }
                lemma_count_chain(r@, i, j);
            }
        }
        r
    }

    /// The `(item, count)` entries, most common first. The relative order of
    /// entries with equal counts is left unspecified.
    pub fn most_common(&self) -> (r: Vec<(u64, i64)>)
        ensures
            r@.len() == self@.dom().len(),
            forall|i: int|
                0 <= i < r@.len() ==> self@.contains_key(#[trigger] r@[i].0) && self@[r@[i].0]
                    == r@[i].1,
            keys_distinct(r@),
            r@.to_set() == self@.kv_pairs(),
            forall|i: int, j: int|
                0 <= i < j < r@.len() ==> (#[trigger] r@[i]).1 >= (#[trigger] r@[j]).1,
    {
        let flat = |_a: &u64, _b: &u64| -> (o: core::cmp::Ordering)
            ensures
                o == core::cmp::Ordering::Equal,
            { core::cmp::Ordering::Equal };
        self.most_common_tiebreaker(flat)
    }

    /// The `(item, count)` entries, most common first, entries with equal
    /// counts ordered by the items' natural order: exactly the ranked
    /// listing of the mapping.
    pub fn most_common_ordered(&self) -> (r: Vec<(u64, i64)>)
        ensures
            r@ == ranked(self@),
    {
        let r = self.most_common_tiebreaker(natural_cmp);
        proof {
            assert forall|p: int|
                0 <= p < r@.len() - 1 implies rank_le(r@[p], #[trigger] r@[p + 1]) by {
                if r@[p].1 == r@[p + 1].1 {
                    assert(tie_ok(natural_cmp, r@[p].0, r@[p + 1].0));
                    assert(r@[p].0 != r@[p + 1].0);
                }
            }
            lemma_rank_chain(r@);
            assert(r@.no_duplicates()) by {
                assert forall|i: int, j: int|
                    0 <= i < j < r@.len() implies r@[i] != r@[j] by {
                    assert(r@[i].0 != r@[j].0);
                }
            }
            lemma_sorted_entries_are_ranked(r@, self@);
        }
        r
    }

    /// The `k` most common entries in decreasing order of their counts,
    /// entries with equal counts ordered by the items' natural order:
    /// exactly the first `min(k, n)` entries of the ranked listing, computed
    /// without a full sort when `k` is small. A fixed-size heap of the first
    /// `k` entries is kept, rooted at the last-ranked retained entry; each
    /// remaining entry replaces the root when it ranks before it; the `k`
    /// retained entries are then sorted.
    #[verifier::loop_isolation(false)]
    #[verifier::rlimit(100)]
    pub fn k_most_common_ordered(&self, k: usize) -> (r: Vec<(u64, i64)>)
        ensures
            r@ == ranked(self@).take(vstd::math::min(k as int, ranked(self@).len() as int)),
    {
        let ghost m = self@;
        proof {
            lemma_ranked_properties(m);
        }
        if k == 0 {
            let r: Vec<(u64, i64)> = Vec::new();
            assert(r@ =~= ranked(m).take(0));
            return r;
        }
        let n = self.len();
        if k >= n {
            let r = self.most_common_ordered();
            assert(ranked(m).take(ranked(m).len() as int) =~= ranked(m));
            return r;
        }
        let entries = self.entries();
        proof {
            assert(entries@.no_duplicates()) by {
                assert forall|i: int, j: int|
                    0 <= i < j < entries@.len() implies entries@[i] != entries@[j] by {
                    assert(entries@[i].0 != entries@[j].0);
                }
            }
        }
        let mut heap: Vec<(u64, i64)> = Vec::new();
        assert(heap@.to_multiset() =~= entries@.take(0).to_multiset());
        for i in 0..k
            invariant
                heap@.len() == i,
                heap_ok(heap@),
                heap@.no_duplicates(),
                heap@.to_multiset() == entries@.take(i as int).to_multiset(),
        {
            let e = entries[i];
            proof {
                lemma_take_multiset_le(entries@, i as int);
                if heap@.contains(e) {
                    assert(heap@.to_multiset().count(e) > 0);
                    assert(entries@.take(i as int).to_multiset().count(e) > 0);
                    assert(entries@.take(i as int).contains(e));
                    let j = choose|j: int|
                        0 <= j < i && entries@.take(i as int)[j] == e;
                    assert(entries@[j] == entries@[i as int]);
                    assert(false);
                }
            }
            let ghost before = heap@;
            heap.push(e);
            proof {
                assert(heap@ =~= before.push(e));
                assert(heap@.no_duplicates()) by {
                    assert forall|p: int, q: int|
                        0 <= p < q < heap@.len() implies heap@[p] != heap@[q] by {
                        if q < heap@.len() - 1 {
                            assert(heap@[p] == before[p] && heap@[q] == before[q]);
                        } else {
                            assert(heap@[q] == e);
                            assert(!before.contains(e));
                        }
                    }
                }
                assert(up_wf(heap@, i as int)) by {
                    assert forall|c: int|
                        1 <= c < heap@.len() && c != i as int implies rank_before(
                        #[trigger] heap@[c],
                        heap@[(c - 1) / 2],
                    ) by {
                        assert(heap@[c] == before[c] && heap@[(c - 1) / 2] == before[(c - 1) / 2]);
                    }
                }
                assert(heap@.to_multiset() =~= entries@.take(i + 1).to_multiset()) by {
                    assert(entries@.take(i + 1) =~= entries@.take(i as int).push(e));
                }
            }
            let last = heap.len() - 1;
            heap_sift_up(&mut heap, last);
        }
        let ghost mut discarded: Multiset<(u64, i64)> = Multiset::empty();
        assert(heap@.to_multiset().add(discarded) =~= entries@.take(k as int).to_multiset());
        for i in k..n
            invariant
                heap@.len() == k,
                heap_ok(heap@),
                heap@.no_duplicates(),
                heap@.to_multiset().add(discarded) == entries@.take(i as int).to_multiset(),
                forall|x: (u64, i64), y: (u64, i64)|
                    discarded.contains(x) && heap@.to_multiset().contains(y)
                        ==> #[trigger] rank_before(y, x),
        {
            let e = entries[i];
            let root = heap[0];
            proof {
                lemma_take_multiset_le(entries@, i as int);
                assert(heap@.to_multiset().contains(root)) by {
                    assert(heap@.to_multiset().count(heap@[0]) > 0);
                }
                if e == root {
                    assert(heap@.to_multiset().count(e) > 0);
                    assert(entries@.take(i as int).to_multiset().count(e) > 0);
                    assert(entries@.take(i as int).contains(e));
                    let j = choose|j: int|
                        0 <= j < i && entries@.take(i as int)[j] == e;
                    assert(entries@[j] == entries@[i as int]);
                    assert(false);
                }
                assert forall|y: (u64, i64)|
                    heap@.to_multiset().contains(y) && y != root implies rank_before(y, root) by {
                    assert(heap@.contains(y));
                    let p = choose|p: int| 0 <= p < heap@.len() && heap@[p] == y;
                    assert(heap@[0] == root);
                    lemma_heap_root_weakest(heap@, p);
                }
            }
            if rank_before_exec(e, root) {
                let ghost before = heap@;
                heap.set(0, e);
                proof {
                    if before.contains(e) {
                        assert(before.to_multiset().count(e) > 0);
                        assert(entries@.take(i as int).to_multiset().count(e) > 0);
                        assert(entries@.take(i as int).contains(e));
                        let j = choose|j: int|
                            0 <= j < i && entries@.take(i as int)[j] == e;
                        assert(entries@[j] == entries@[i as int]);
                        assert(false);
                    }
                    assert(heap@.no_duplicates()) by {
                        assert forall|p: int, q: int|
                            0 <= p < q < heap@.len() implies heap@[p] != heap@[q] by {
                            if p == 0 {
                                assert(heap@[q] == before[q]);
                                assert(before.contains(before[q]));
                            } else {
                                assert(heap@[p] == before[p] && heap@[q] == before[q]);
                            }
                        }
                    }
                    assert(down_wf(heap@, 0)) by {
                        assert forall|c: int|
                            1 <= c < heap@.len() && (c - 1) / 2 != 0 implies rank_before(
                            #[trigger] heap@[c],
                            heap@[(c - 1) / 2],
                        ) by {
                            assert(heap@[c] == before[c] && heap@[(c - 1) / 2] == before[(c - 1)
                                / 2]);
                        }
                    }
                    assert(heap@.to_multiset() =~= before.to_multiset().insert(e).remove(root))
                        by {
                        assert(heap@ =~= before.update(0, e));
                        assert(before.update(0, e).to_multiset() == before.to_multiset().insert(
                            e,
                        ).remove(before[0]));
                    }
                    let ghost disc0 = discarded;
                    discarded = discarded.insert(root);
                    assert(heap@.to_multiset().add(discarded) =~= entries@.take(
                        i + 1,
                    ).to_multiset()) by {
                        assert(entries@.take(i + 1) =~= entries@.take(i as int).push(e));
                        assert(before.to_multiset().count(root) > 0);
                    }
                    assert forall|x: (u64, i64), y: (u64, i64)|
                        discarded.contains(x) && heap@.to_multiset().contains(y)
                            implies #[trigger] rank_before(y, x) by {
                        if y != e {
                            assert(heap@.to_multiset().count(y) > 0);
                            assert(before.to_multiset().count(y) > 0);
                            assert(before.to_multiset().contains(y));
                            if y == root {
                                assert(before.to_multiset().count(root) <= 1) by {
                                    before.lemma_multiset_has_no_duplicates();
                                }
                                assert(false);
                            }
                            assert(rank_before(y, root));
                        }
                        if x == root {
                            assert(rank_before(e, root));
                            assert(y == e || rank_before(y, root));
                        } else {
                            assert(disc0.contains(x));
                            assert(before.to_multiset().contains(root));
                            assert(rank_before(root, x));
                            if y == e {
                                assert(rank_before(e, root));
                            } else {
                                assert(before.to_multiset().contains(y));
                            }
                        }
                    }
                }
                heap_sift_down(&mut heap);
            } else {
                proof {
                    lemma_rank_total(e, root);
                    discarded = discarded.insert(e);
                    assert(heap@.to_multiset().add(discarded) =~= entries@.take(
                        i + 1,
                    ).to_multiset()) by {
                        assert(entries@.take(i + 1) =~= entries@.take(i as int).push(e));
                    }
                    assert forall|x: (u64, i64), y: (u64, i64)|
                        discarded.contains(x) && heap@.to_multiset().contains(y)
                            implies #[trigger] rank_before(y, x) by {
                        if x == e {
                            if y != root {
                                assert(rank_before(y, root));
                            }
                            assert(rank_before(root, e));
                        }
                    }
                }
            }
        }
        proof {
            assert(entries@.take(n as int) =~= entries@);
        }
        let r = sort_pairs(heap, natural_cmp);
        proof {
            heap@.lemma_multiset_has_no_duplicates();
            r@.lemma_multiset_has_no_duplicates_conv();
            assert forall|p: int|
                0 <= p < r@.len() - 1 implies rank_le(r@[p], #[trigger] r@[p + 1]) by {
                assert(pair_ok(natural_cmp, r@[p], r@[p + 1]));
            }
            lemma_rank_chain(r@);
            lemma_no_dup_same_set_multiset(entries@, ranked(m));
            assert(r@.to_multiset().add(discarded) == ranked(m).to_multiset());
            assert forall|x: (u64, i64), y: (u64, i64)|
                discarded.contains(x) && r@.to_multiset().contains(y) implies #[trigger] rank_before(
                y,
                x,
            ) by {
                assert(heap@.to_multiset().contains(y));
            }
            lemma_top_k_prefix(ranked(m), r@, discarded, k as int);
            assert(vstd::math::min(k as int, ranked(m).len() as int) == k as int);
        }
        r
    }
}

/// A prefix of a sequence contributes at most the whole sequence's
/// occurrences of each element.
pub proof fn lemma_take_multiset_le(s: Seq<(u64, i64)>, i: int)
    requires
        0 <= i <= s.len(),
    ensures
        forall|e: (u64, i64)| #[trigger]
            s.take(i).to_multiset().count(e) <= s.to_multiset().count(e),
{
    assert(s =~= s.take(i) + s.skip(i));
    vstd::seq_lib::lemma_multiset_commutative(s.take(i), s.skip(i));
}

/// The ranking order is total: two distinct entries compare strictly one way
/// or the other.
pub proof fn lemma_rank_total(a: (u64, i64), b: (u64, i64))
    requires
        a != b,
        !rank_before(a, b),
    ensures
        rank_before(b, a),
{
}

/// A rank-sorted selection that dominates everything set aside is a prefix
/// of the full rank-sorted listing: if the retained entries and the
/// discarded ones together make up the whole, and every retained entry ranks
/// strictly before every discarded one, then sorting the retained entries
/// reproduces the first `k` entries of the whole.
pub proof fn lemma_top_k_prefix(
    full: Seq<(u64, i64)>,
    s: Seq<(u64, i64)>,
    discarded: Multiset<(u64, i64)>,
    k: int,
)
    requires
        sorted_by(full, rank_le_fn()),
        sorted_by(s, rank_le_fn()),
        s.len() == k,
        0 <= k <= full.len(),
        s.to_multiset().add(discarded) == full.to_multiset(),
        forall|x: (u64, i64), y: (u64, i64)|
            discarded.contains(x) && s.to_multiset().contains(y) ==> #[trigger] rank_before(y, x),
    ensures
        s == full.take(k),
    decreases k,
{
    broadcast use vstd::multiset::group_multiset_axioms;

    if k == 0 {
        assert(s =~= full.take(0));
    } else {
        let e = s[0];
        let f = full[0];
        assert(s.to_multiset().contains(e)) by {
            assert(s.to_multiset().count(e) > 0);
        }
        assert(full.to_multiset().contains(e));
        assert(full.contains(e));
        let fi = choose|fi: int| 0 <= fi < full.len() && full[fi] == e;
        assert(rank_le_fn()(full[0], full[fi]) || fi == 0);
        assert(rank_le(f, e));
        assert(full.to_multiset().contains(f)) by {
            assert(full.to_multiset().count(f) > 0);
        }
        if discarded.contains(f) {
            assert(rank_before(e, f));
            assert(false);
        }
        assert(s.to_multiset().count(f) > 0);
        assert(s.contains(f));
        let si = choose|si: int| 0 <= si < s.len() && s[si] == f;
        assert(rank_le_fn()(s[0], s[si]) || si == 0);
        assert(rank_le(e, f));
        assert(e == f);
        let s1 = s.drop_first();
        let full1 = full.drop_first();
        assert(s1.to_multiset() =~= s.to_multiset().remove(e)) by {
            assert(s1 =~= s.remove(0));
            assert(s.remove(0).to_multiset() == s.to_multiset().remove(s[0]));
        }
        assert(full1.to_multiset() =~= full.to_multiset().remove(e)) by {
            assert(full1 =~= full.remove(0));
            assert(full.remove(0).to_multiset() == full.to_multiset().remove(full[0]));
        }
        assert(s1.to_multiset().add(discarded) =~= full1.to_multiset());
        assert forall|x: (u64, i64), y: (u64, i64)|
            discarded.contains(x) && s1.to_multiset().contains(y) implies #[trigger] rank_before(
            y,
            x,
        ) by {
            assert(s.to_multiset().count(y) >= s1.to_multiset().count(y));
            assert(s.to_multiset().contains(y));
        }
        assert(sorted_by(s1, rank_le_fn())) by {
            assert forall|i: int, j: int|
                0 <= i < j < s1.len() implies #[trigger] rank_le_fn()(s1[i], s1[j]) by {
                assert(s1[i] == s[i + 1] && s1[j] == s[j + 1]);
                assert(rank_le_fn()(s[i + 1], s[j + 1]));
            }
        }
        assert(sorted_by(full1, rank_le_fn())) by {
            assert forall|i: int, j: int|
                0 <= i < j < full1.len() implies #[trigger] rank_le_fn()(full1[i], full1[j]) by {
                assert(full1[i] == full[i + 1] && full1[j] == full[j + 1]);
                assert(rank_le_fn()(full[i + 1], full[j + 1]));
            }
        }
        lemma_top_k_prefix(full1, s1, discarded, k - 1);
        assert(s =~= full.take(k)) by {
            assert(s1 == full1.take(k - 1));
            assert forall|i: int| 0 <= i < k implies s[i] == full.take(k)[i] by {
                if i > 0 {
                    assert(s[i] == s1[i - 1]);
                    assert(full1.take(k - 1)[i - 1] == full1[i - 1]);
                    assert(full1[i - 1] == full[i]);
                }
            }
        }
    }
}

/// The shape of a binary heap whose root holds the last-ranked entry: every
/// child ranks strictly before its parent.
pub open spec fn heap_ok(h: Seq<(u64, i64)>) -> bool {
    forall|c: int| 1 <= c < h.len() ==> rank_before(#[trigger] h[c], h[(c - 1) / 2])
}

/// The heap shape, relaxed at one position whose own link up may be broken:
/// every other child-to-parent link holds, and the children of the loose
/// position link past it to its parent.
pub open spec fn up_wf(h: Seq<(u64, i64)>, j: int) -> bool {
    &&& forall|c: int|
        1 <= c < h.len() && c != j ==> rank_before(#[trigger] h[c], h[(c - 1) / 2])
    &&& (j > 0 ==> forall|c: int|
        1 <= c < h.len() && (c - 1) / 2 == j ==> rank_before(#[trigger] h[c], h[(j - 1) / 2]))
}

/// The heap shape, relaxed at one position whose links from its children may
/// be broken: every other child-to-parent link holds, and the children of
/// the loose position link past it to its parent.
pub open spec fn down_wf(h: Seq<(u64, i64)>, j: int) -> bool {
    &&& forall|c: int|
        1 <= c < h.len() && (c - 1) / 2 != j ==> rank_before(#[trigger] h[c], h[(c - 1) / 2])
    &&& (j > 0 ==> forall|c: int|
        1 <= c < h.len() && (c - 1) / 2 == j ==> rank_before(#[trigger] h[c], h[(j - 1) / 2]))
}

/// In a heap every entry but the root ranks strictly before the root: the
/// root is the last-ranked retained entry.
pub proof fn lemma_heap_root_weakest(h: Seq<(u64, i64)>, c: int)
    requires
        heap_ok(h),
        0 < c < h.len(),
    ensures
        rank_before(h[c], h[0]),
    decreases c,
{
    let p = (c - 1) / 2;
    assert(rank_before(h[c], h[p]));
    if p > 0 {
        lemma_heap_root_weakest(h, p);
    }
}

/// Whether one entry ranks strictly before another: higher count first, ties
/// by the items' natural order.
fn rank_before_exec(a: (u64, i64), b: (u64, i64)) -> (r: bool)
    ensures
        r == rank_before(a, b),
{
    a.1 > b.1 || (a.1 == b.1 && a.0 < b.0)
}

/// Two distinct positions swap preserves pairwise-distinct entries.
proof fn lemma_no_dup_swap(before: Seq<(u64, i64)>, after: Seq<(u64, i64)>, p: int, q: int)
    requires
        before.no_duplicates(),
        0 <= p < q < before.len(),
        after == before.update(p, before[q]).update(q, before[p]),
    ensures
        after.no_duplicates(),
{
    assert forall|x: int, y: int| 0 <= x < y < after.len() implies after[x] != after[y] by {
        let ox: int = if x == p {
            q
        } else if x == q {
            p
        } else {
            x
        };
        let oy: int = if y == p {
            q
        } else if y == q {
            p
        } else {
            y
        };
        assert(after[x] == before[ox] && after[y] == before[oy]);
        assert(ox != oy);
    }
}

/// Restore the heap shape by floating the loose entry at `start` up toward
/// the root while it ranks after its parent.
#[verifier::loop_isolation(false)]
fn heap_sift_up(h: &mut Vec<(u64, i64)>, start: usize)
    requires
        start < old(h)@.len(),
        up_wf(old(h)@, start as int),
        old(h)@.no_duplicates(),
    ensures
        heap_ok(final(h)@),
        final(h)@.to_multiset() == old(h)@.to_multiset(),
        final(h)@.len() == old(h)@.len(),
        final(h)@.no_duplicates(),
{
    let mut j = start;
    let mut done = false;
    while !done && j > 0
        invariant
            j < h@.len(),
            up_wf(h@, j as int),
            h@.no_duplicates(),
            h@.to_multiset() == old(h)@.to_multiset(),
            h@.len() == old(h)@.len(),
            done ==> (j == 0 || rank_before(h@[j as int], h@[((j - 1) as int) / 2])),
        decreases
                (if done {
                    0int
                } else {
                    1int
                }),
                j,
    {
        let p = (j - 1) / 2;
        let a = h[p];
        let b = h[j];
        if rank_before_exec(a, b) {
            let ghost before = h@;
            h.set(p, b);
            h.set(j, a);
            proof {
                lemma_no_dup_swap(before, h@, p as int, j as int);
                assert(h@.to_multiset() =~= before.to_multiset());
                let jj = j as int;
                let pp = p as int;
                assert forall|c: int|
                    1 <= c < h@.len() && c != pp implies rank_before(
                    #[trigger] h@[c],
                    h@[(c - 1) / 2],
                ) by {
                    if c == jj {
                        assert(h@[jj] == a && h@[pp] == b);
                    } else if (c - 1) / 2 == pp {
                        assert(h@[c] == before[c]);
                        assert(rank_before(before[c], before[pp]));
                        assert(rank_before(a, b));
                    } else if (c - 1) / 2 == jj {
                        assert(h@[c] == before[c]);
                        assert(rank_before(before[c], before[(jj - 1) / 2]));
                    } else {
                        assert(h@[c] == before[c] && h@[(c - 1) / 2] == before[(c - 1) / 2]);
                    }
                }
                if pp > 0 {
                    assert forall|c: int|
                        1 <= c < h@.len() && (c - 1) / 2 == pp implies rank_before(
                        #[trigger] h@[c],
                        h@[(pp - 1) / 2],
                    ) by {
                        assert(h@[(pp - 1) / 2] == before[(pp - 1) / 2]);
                        if c == jj {
                            assert(h@[c] == a);
                            assert(rank_before(before[pp], before[(pp - 1) / 2]));
                        } else {
                            assert(h@[c] == before[c]);
                            assert(rank_before(before[c], before[pp]));
                            assert(rank_before(before[pp], before[(pp - 1) / 2]));
                        }
                    }
                }
            }
            j = p;
        } else {
            proof {
                assert(a != b);
                lemma_rank_total(a, b);
            }
            done = true;
        }
    }
}

/// Restore the heap shape by sinking the loose root down, swapping it with
/// its last-ranked child while that child ranks after it.
#[verifier::loop_isolation(false)]
fn heap_sift_down(h: &mut Vec<(u64, i64)>)
    requires
        old(h)@.len() >= 1,
        down_wf(old(h)@, 0),
        old(h)@.no_duplicates(),
    ensures
        heap_ok(final(h)@),
        final(h)@.to_multiset() == old(h)@.to_multiset(),
        final(h)@.len() == old(h)@.len(),
        final(h)@.no_duplicates(),
{
    let n = h.len();
    let mut j: usize = 0;
    let mut done = false;
    while !done
        invariant
            0 <= j < n,
            n == h@.len(),
            down_wf(h@, j as int),
            h@.no_duplicates(),
            h@.to_multiset() == old(h)@.to_multiset(),
            done ==> heap_ok(h@),
        decreases
                (if done {
                    0int
                } else {
                    1int
                }),
                n - j,
    {
        if j >= n / 2 {
            proof {
                assert forall|c: int|
                    1 <= c < h@.len() implies rank_before(#[trigger] h@[c], h@[(c - 1) / 2]) by {
                    assert((c - 1) / 2 != j as int);
                }
            }
            done = true;
        } else {
            let left = 2 * j + 1;
            let right = left + 1;
            let weak_child = if right < n && rank_before_exec(h[left], h[right]) {
                right
            } else {
                left
            };
            proof {
                if right < n && !rank_before(h@[left as int], h@[right as int]) {
                    assert(h@[left as int] != h@[right as int]);
                    lemma_rank_total(h@[left as int], h@[right as int]);
                }
            }
            let parent_entry = h[j];
            let child_entry = h[weak_child];
            if rank_before_exec(parent_entry, child_entry) {
                let ghost before = h@;
                h.set(j, child_entry);
                h.set(weak_child, parent_entry);
                proof {
                    lemma_no_dup_swap(before, h@, j as int, weak_child as int);
                    assert(h@.to_multiset() =~= before.to_multiset());
                    let jj = j as int;
                    let cc = weak_child as int;
                    assert forall|c: int|
                        1 <= c < h@.len() && (c - 1) / 2 != cc implies rank_before(
                        #[trigger] h@[c],
                        h@[(c - 1) / 2],
                    ) by {
                        if c == cc {
                            assert(h@[cc] == parent_entry && h@[jj] == child_entry);
                        } else if (c - 1) / 2 == jj {
                            assert(h@[c] == before[c]);
                            assert(rank_before(before[c], before[cc]));
                            assert(h@[jj] == child_entry);
                        } else if c == jj {
                            assert(jj > 0 ==> rank_before(before[cc], before[(jj - 1) / 2]));
                            assert(h@[(c - 1) / 2] == before[(c - 1) / 2]);
                        } else {
                            assert(h@[c] == before[c] && h@[(c - 1) / 2] == before[(c - 1) / 2]);
                        }
                    }
                    assert forall|c: int|
                        1 <= c < h@.len() && (c - 1) / 2 == cc implies rank_before(
                        #[trigger] h@[c],
                        h@[(cc - 1) / 2],
                    ) by {
                        assert(h@[c] == before[c]);
                        assert(rank_before(before[c], before[cc]));
                        assert(h@[(cc - 1) / 2] == h@[jj] || (cc - 1) / 2 == jj);
                        assert((cc - 1) / 2 == jj);
                        assert(h@[jj] == child_entry && before[cc] == child_entry);
                    }
                }
                j = weak_child;
            } else {
                proof {
                    assert(parent_entry != child_entry);
                    lemma_rank_total(parent_entry, child_entry);
                    let jj = j as int;
                    let cc = weak_child as int;
                    assert forall|c: int|
                        1 <= c < h@.len() implies rank_before(#[trigger] h@[c], h@[(c - 1) / 2]) by {
                        if (c - 1) / 2 == jj {
                            if c != cc {
                                assert(rank_before(h@[c], h@[cc]));
                                assert(rank_before(h@[cc], h@[jj]));
                            }
                        }
                    }
                }
                done = true;
            }
        }
    }
}

/// Any duplicate-free, rank-sorted listing of a finite mapping's entries is
/// the mapping's ranked listing: the ranking pins the sequence down.
pub proof fn lemma_sorted_entries_are_ranked(s: Seq<(u64, i64)>, m: Map<u64, i64>)
    requires
        m.dom().finite(),
        sorted_by(s, rank_le_fn()),
        s.no_duplicates(),
        s.to_set() == m.kv_pairs(),
    ensures
        s == ranked(m),
{
    lemma_rank_le_total();
    lemma_ranked_properties(m);
    lemma_no_dup_same_set_multiset(s, ranked(m));
    vstd::seq_lib::lemma_sorted_unique(s, ranked(m), rank_le_fn());
}

} // verus!
