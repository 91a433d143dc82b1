//! The mathematical model: spec functions over `Map<u64, i64>` and
//! `Seq<u64>` that the executable contracts are stated against.
use vstd::prelude::*;

verus! {

/// The count a mapping associates with a key, with a missing key read as the
/// additive identity.
pub open spec fn count_in(m: Map<u64, i64>, k: u64) -> i64 {
    if m.contains_key(k) {
        m[k]
    } else {
        0
    }
}

/// How often an item occurs in a sequence.
pub open spec fn occurrences(s: Seq<u64>, x: u64) -> nat {
    s.to_multiset().count(x)
}

/// The mapping after the counts of a sequence of items have been added in:
/// every occurrence of an item raises its count by one, and an item seen at
/// least once is present afterwards.
pub open spec fn updated_map(m: Map<u64, i64>, s: Seq<u64>) -> Map<u64, i64> {
    Map::new(
        |k: u64| m.contains_key(k) || occurrences(s, k) > 0,
        |k: u64| (count_in(m, k) + occurrences(s, k)) as i64,
    )
}

/// The mapping obtained by counting a sequence of items from nothing.
pub open spec fn counted_map(s: Seq<u64>) -> Map<u64, i64> {
    updated_map(Map::empty(), s)
}

/// Whether an entry survives subtracting `o` occurrences from a count of
/// `c`: a strictly positive count is lowered by one per occurrence and the
/// entry is removed when it reaches the additive identity exactly; an entry
/// holding the identity is removed the first time its item is seen; a
/// negative count is never decremented and never removed.
pub open spec fn subtract_keeps(c: i64, o: int) -> bool {
    ||| c < 0
    ||| (c > 0 && o < c)
    ||| (c == 0 && o == 0)
}

/// The count a surviving entry holds after subtracting `o` occurrences.
pub open spec fn subtract_value(c: i64, o: int) -> i64 {
    if c > 0 {
        (c - o) as i64
    } else {
        c
    }
}

/// The mapping after the counts of a sequence of items have been subtracted
/// out. Items without an entry are ignored; no entry the sequence touches is
/// left holding the additive identity exactly.
pub open spec fn subtracted_map(m: Map<u64, i64>, s: Seq<u64>) -> Map<u64, i64> {
    Map::new(
        |k: u64| m.contains_key(k) && subtract_keeps(m[k], occurrences(s, k) as int),
        |k: u64| subtract_value(m[k], occurrences(s, k) as int),
    )
}

/// Whether some pair of the sequence carries the given key.
pub open spec fn pair_has_key(s: Seq<(u64, i64)>, k: u64) -> bool {
    exists|i: int| 0 <= i < s.len() && s[i].0 == k
}

/// The sum of the counts that a sequence of `(item, count)` pairs carries
/// for the given key.
pub open spec fn pair_total(s: Seq<(u64, i64)>, k: u64) -> int
    decreases s.len(),
{
    if s.len() == 0 {
        0
    } else {
        pair_total(s.drop_last(), k) + (if s.last().0 == k {
            s.last().1 as int
        } else {
            0
        })
    }
}

/// The mapping after a sequence of `(item, count)` pairs has been folded in:
/// the counts of pairs sharing an item are summed onto its entry, and an
/// item seen in any pair is present afterwards.
pub open spec fn extended_map(m: Map<u64, i64>, s: Seq<(u64, i64)>) -> Map<u64, i64> {
    Map::new(
        |k: u64| m.contains_key(k) || pair_has_key(s, k),
        |k: u64| (count_in(m, k) + pair_total(s, k)) as i64,
    )
}

/// The smaller of two counts.
pub open spec fn min_count(x: i64, y: i64) -> i64 {
    if x <= y {
        x
    } else {
        y
    }
}

/// The larger of two counts.
pub open spec fn max_count(x: i64, y: i64) -> i64 {
    if x >= y {
        x
    } else {
        y
    }
}

/// The sum of two counters, per key: a key present in either side is present
/// in the sum, and a missing count reads as the additive identity.
pub open spec fn sum_map(a: Map<u64, i64>, b: Map<u64, i64>) -> Map<u64, i64> {
    Map::new(
        |k: u64| a.contains_key(k) || b.contains_key(k),
        |k: u64| (count_in(a, k) + count_in(b, k)) as i64,
    )
}

/// The difference of two counters, floored at the additive identity: only
/// the keys of `b` are touched, a key whose count would fall to or below the
/// identity is dropped, and keys of `a` that `b` does not carry keep their
/// entries untouched.
pub open spec fn difference_map(a: Map<u64, i64>, b: Map<u64, i64>) -> Map<u64, i64> {
    Map::new(
        |k: u64| a.contains_key(k) && (!b.contains_key(k) || a[k] > b[k]),
        |k: u64| (a[k] - count_in(b, k)) as i64,
    )
}

/// The intersection of two counters: a key present in both sides, with the
/// smaller of the two counts; a key absent from either side is absent.
pub open spec fn intersection_map(a: Map<u64, i64>, b: Map<u64, i64>) -> Map<u64, i64> {
    Map::new(
        |k: u64| a.contains_key(k) && b.contains_key(k),
        |k: u64| min_count(a[k], b[k]),
    )
}

/// The union of two counters: a key present in either side, with the larger
/// of the two counts, a missing count reading as the additive identity.
pub open spec fn union_map(a: Map<u64, i64>, b: Map<u64, i64>) -> Map<u64, i64> {
    Map::new(
        |k: u64| a.contains_key(k) || b.contains_key(k),
        |k: u64| max_count(count_in(a, k), count_in(b, k)),
    )
}

/// The ranking order on `(item, count)` entries: higher counts rank first,
/// and entries with equal counts are ordered by the items' natural order.
/// This is a total order, and over entries with distinct items it is strict.
pub open spec fn rank_le(a: (u64, i64), b: (u64, i64)) -> bool {
    a.1 > b.1 || (a.1 == b.1 && a.0 <= b.0)
}

/// The strict part of the ranking order: `a` ranks strictly before `b`.
pub open spec fn rank_before(a: (u64, i64), b: (u64, i64)) -> bool {
    a.1 > b.1 || (a.1 == b.1 && a.0 < b.0)
}

/// The ranking order as a function value, for the sequence-sorting library.
pub open spec fn rank_le_fn() -> spec_fn((u64, i64), (u64, i64)) -> bool {
    |a: (u64, i64), b: (u64, i64)| rank_le(a, b)
}

/// The entries of a mapping, listed from most to least common, entries with
/// equal counts ordered by the items' natural order: the unique ranking that
/// the frequency-ordering operations return.
pub open spec fn ranked(m: Map<u64, i64>) -> Seq<(u64, i64)> {
    m.kv_pairs().to_sorted_seq(rank_le_fn())
}

/// Whether the entries of a sequence carry pairwise distinct items.
pub open spec fn keys_distinct(s: Seq<(u64, i64)>) -> bool {
    forall|i: int, j: int| 0 <= i < j < s.len() ==> s[i].0 != s[j].0
}

/// Whether `a` contains `b`: at every key of either counter, `a`'s count is
/// at least `b`'s, a missing count reading as the additive identity.
pub open spec fn superset_spec(a: Map<u64, i64>, b: Map<u64, i64>) -> bool {
    forall|k: u64| #[trigger] count_in(a, k) >= count_in(b, k)
}

/// Whether `a` is contained in `b`: at every key of either counter, `a`'s
/// count is at most `b`'s, a missing count reading as the additive identity.
pub open spec fn subset_spec(a: Map<u64, i64>, b: Map<u64, i64>) -> bool {
    forall|k: u64| #[trigger] count_in(a, k) <= count_in(b, k)
}

/// The sum of all the counts a mapping holds.
pub open spec fn map_total(m: Map<u64, i64>) -> int
    decreases m.dom().len(),
    when m.dom().finite()
{
    if m.dom().len() == 0 {
        0
    } else {
        let k = m.dom().choose();
        m[k] + map_total(m.remove(k))
    }
}

/// Splitting any one entry off a mapping splits its total.
pub proof fn lemma_map_total_remove(m: Map<u64, i64>, k: u64)
    requires
        m.dom().finite(),
        m.contains_key(k),
    ensures
        map_total(m) == m[k] + map_total(m.remove(k)),
    decreases m.dom().len(),
{
    broadcast use vstd::set::group_set_axioms;

    assert(m.dom().len() != 0);
    let k0 = m.dom().choose();
    assert(m.dom().contains(k0));
    if k0 != k {
        lemma_map_total_remove(m.remove(k0), k);
        lemma_map_total_remove(m.remove(k), k0);
        assert(m.remove(k0).remove(k) =~= m.remove(k).remove(k0));
    }
}

/// A key that no pair of the sequence carries contributes nothing.
pub proof fn lemma_pair_total_absent(s: Seq<(u64, i64)>, k: u64)
    requires
        !pair_has_key(s, k),
    ensures
        pair_total(s, k) == 0,
    decreases s.len(),
{
    if s.len() > 0 {
        assert(s.last() == s[s.len() - 1]);
        assert(forall|i: int| 0 <= i < s.len() - 1 ==> s.drop_last()[i] == s[i]);
        lemma_pair_total_absent(s.drop_last(), k);
    }
}

/// Taking one more element of a sequence raises the occurrence count of that
/// element by one and leaves every other count unchanged.
pub proof fn lemma_occurrences_take_step(s: Seq<u64>, i: int)
    requires
        0 <= i < s.len(),
    ensures
        forall|x: u64| #[trigger]
            occurrences(s.take(i + 1), x) == occurrences(s.take(i), x) + (if s[i] == x {
                1int
            } else {
                0int
            }),
{
    broadcast use vstd::seq_lib::group_to_multiset_ensures;

    assert(s.take(i + 1) =~= s.take(i).push(s[i]));
}

/// Occurrence counts split across a cut of the sequence.
pub proof fn lemma_occurrences_split(s: Seq<u64>, i: int)
    requires
        0 <= i <= s.len(),
    ensures
        forall|x: u64| #[trigger]
            occurrences(s, x) == occurrences(s.take(i), x) + occurrences(s.skip(i), x),
{
    broadcast use vstd::multiset::group_multiset_axioms;

    assert(s =~= s.take(i) + s.skip(i));
    vstd::seq_lib::lemma_multiset_commutative(s.take(i), s.skip(i));
}

} // verus!
