//! Laws of the counter algebra: properties that relate the operations to
//! one another, stated over the same models that the operations' contracts
//! use and proved once and for all.
use vstd::prelude::*;

use crate::model::{
    count_in, difference_map, intersection_map, occurrences, subset_spec, subtract_keeps,
    subtract_value, subtracted_map, sum_map, superset_spec, union_map, updated_map,
};

verus! {

/// After an update, every item's count has grown by exactly its number of
/// occurrences in the sequence, an absent item counting as the additive
/// identity; in particular a counter built from a sequence alone counts
/// every distinct item's occurrences exactly.
pub proof fn law_update_counts(m: Map<u64, i64>, s: Seq<u64>)
    requires
        forall|x: u64| count_in(m, x) + occurrences(s, x) <= i64::MAX,
    ensures
        forall|x: u64|
            count_in(updated_map(m, s), x) == count_in(m, x) + occurrences(s, x),
{
    assert forall|x: u64|
        count_in(updated_map(m, s), x) == count_in(m, x) + occurrences(s, x) by {
        if !updated_map(m, s).contains_key(x) {
            assert(!m.contains_key(x) && occurrences(s, x) == 0);
        }
    }
}

/// After a subtraction, no entry is left holding the additive identity
/// exactly, provided none held it beforehand; an entry the sequence touches
/// is never left at the identity in any case, and a negative count survives
/// untouched.
pub proof fn law_subtract_floor(m: Map<u64, i64>, s: Seq<u64>)
    requires
        forall|k: u64| m.contains_key(k) ==> #[trigger] m[k] != 0,
    ensures
        forall|k: u64|
            subtracted_map(m, s).contains_key(k) ==> #[trigger] subtracted_map(m, s)[k] != 0,
{
    assert forall|k: u64|
        subtracted_map(m, s).contains_key(k) implies #[trigger] subtracted_map(m, s)[k] != 0 by {
        assert(m.contains_key(k) && subtract_keeps(m[k], occurrences(s, k) as int));
        assert(subtracted_map(m, s)[k] == subtract_value(m[k], occurrences(s, k) as int));
    }
}

/// An entry that a subtraction touches is never left holding the additive
/// identity, whatever it held before: it is decremented above the identity
/// or removed.
pub proof fn law_subtract_touched_never_identity(m: Map<u64, i64>, s: Seq<u64>)
    ensures
        forall|k: u64|
            subtracted_map(m, s).contains_key(k) && occurrences(s, k) > 0
                ==> #[trigger] subtracted_map(m, s)[k] != 0,
{
    assert forall|k: u64|
        subtracted_map(m, s).contains_key(k) && occurrences(s, k) > 0 implies #[trigger]
        subtracted_map(m, s)[k] != 0 by {
        assert(m.contains_key(k) && subtract_keeps(m[k], occurrences(s, k) as int));
        assert(subtracted_map(m, s)[k] == subtract_value(m[k], occurrences(s, k) as int));
    }
}

/// The empty counter is the identity of the sum: `a + empty == a`.
pub proof fn law_sum_identity(a: Map<u64, i64>)
    ensures
        sum_map(a, Map::empty()) == a,
{
    assert(sum_map(a, Map::empty()) =~= a);
}

/// On disjoint supports the difference undoes the sum: when `a` and `b`
/// share no keys, `(a + b) - b == a`.
pub proof fn law_sum_difference_inverse(a: Map<u64, i64>, b: Map<u64, i64>)
    requires
        a.dom().disjoint(b.dom()),
    ensures
        difference_map(sum_map(a, b), b) == a,
{
    assert(difference_map(sum_map(a, b), b) =~= a);
}

/// Intersection and union are dual: at every key present in both operands,
/// the smaller and the larger count together add up to the two counts.
pub proof fn law_intersection_union_duality(a: Map<u64, i64>, b: Map<u64, i64>)
    ensures
        forall|k: u64|
            a.contains_key(k) && b.contains_key(k) ==> #[trigger] intersection_map(a, b)[k]
                + union_map(a, b)[k] == a[k] + b[k],
{
}

/// Containment is symmetric: `a` is a subset of `b` exactly when `b` is a
/// superset of `a`.
pub proof fn law_subset_superset_symmetry(a: Map<u64, i64>, b: Map<u64, i64>)
    ensures
        subset_spec(a, b) == superset_spec(b, a),
{
    if subset_spec(a, b) {
        assert forall|k: u64| #[trigger] count_in(b, k) >= count_in(a, k) by {
            assert(count_in(a, k) <= count_in(b, k));
        }
    }
    if superset_spec(b, a) {
        assert forall|k: u64| #[trigger] count_in(a, k) <= count_in(b, k) by {
            assert(count_in(b, k) >= count_in(a, k));
        }
    }
}

} // verus!
