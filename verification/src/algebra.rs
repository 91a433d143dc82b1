//! The algebra operators over two counters: sum, difference, intersection
//! and union, each in a value-returning and an in-place form.
use vstd::prelude::*;

use crate::counter::Counter;
use crate::model::{
    count_in, difference_map, intersection_map, max_count, min_count, sum_map, union_map,
};

verus! {

/// Whether one of the first `i` pairs carries the given key.
pub(crate) open spec fn key_in_prefix(s: Seq<(u64, i64)>, i: int, k: u64) -> bool {
    exists|j: int| 0 <= j < i && (#[trigger] s[j]).0 == k
}

impl Counter {
    /// Add another counter's counts onto this one, per key: a key present in
    /// either operand is present afterwards, and a missing count reads as
    /// the additive identity.
    #[verifier::loop_isolation(false)]
    pub fn sum_assign(&mut self, other: &Counter)
        requires
            old(self).wf(),
            forall|k: u64|
                i64::MIN <= #[trigger] count_in(old(self)@, k) + count_in(other@, k) <= i64::MAX,
        ensures
            final(self).wf(),
            final(self)@ == sum_map(old(self)@, other@),
    {
        let ghost a = self@;
        let ghost b = other@;
        let pairs = other.entries();
        let n = pairs.len();
        assert(self@ =~= partial_sum(a, b, pairs@, 0));
        for i in 0..n
            invariant
                self.wf(),
                self@ == partial_sum(a, b, pairs@, i as int),
        {
            let (key, bcount) = pairs[i];
            let cur = match self.map.get(&key) {
                Some(c) => *c,
                None => self.zero,
            };
            assert(!key_in_prefix(pairs@, i as int, key));
            assert(cur == count_in(a, key));
            self.map.insert(key, cur + bcount);
            assert(self@ =~= partial_sum(a, b, pairs@, i + 1));
        }
        assert forall|k: u64| #[trigger]
            b.contains_key(k) implies key_in_prefix(pairs@, n as int, k) by {
            assert(pairs@.contains((k, b[k])));
            let j = choose|j: int| 0 <= j < pairs@.len() && pairs@[j] == (k, b[k]);
            assert(pairs@[j].0 == k);
        }
        assert(self@ =~= sum_map(a, b));
    }

    /// The sum of this counter and another, as a new counter built out of
    /// the left operand.
    pub fn sum(self, other: &Counter) -> (c: Counter)
        requires
            self.wf(),
            forall|k: u64|
                i64::MIN <= #[trigger] count_in(self@, k) + count_in(other@, k) <= i64::MAX,
        ensures
            c.wf(),
            c@ == sum_map(self@, other@),
    {
        let mut c = self;
        c.sum_assign(other);
        c
    }

    /// Subtract another counter's counts from this one, floored at the
    /// additive identity: only the other counter's keys are touched, a key
    /// whose count would fall to or below the identity is dropped, and every
    /// other key keeps its entry untouched.
    #[verifier::loop_isolation(false)]
    pub fn difference_assign(&mut self, other: &Counter)
        requires
            old(self).wf(),
            forall|k: u64|
                old(self)@.contains_key(k) && other@.contains_key(k) && old(self)@[k] >= other@[k]
                    ==> #[trigger] old(self)@[k] - other@[k] <= i64::MAX,
        ensures
            final(self).wf(),
            final(self)@ == difference_map(old(self)@, other@),
    {
        let ghost a = self@;
        let ghost b = other@;
        let pairs = other.entries();
        let n = pairs.len();
        assert(self@ =~= partial_difference(a, b, pairs@, 0));
        for i in 0..n
            invariant
                self.wf(),
                self@ == partial_difference(a, b, pairs@, i as int),
        {
            let (key, bcount) = pairs[i];
            assert(!key_in_prefix(pairs@, i as int, key));
            match self.map.get(&key) {
                Some(c) => {
                    let e = *c;
                    assert(e == a[key]);
                    if e >= bcount {
                        let reduced = e - bcount;
                        if reduced == 0 {
                            self.map.remove(&key);
                        } else {
                            self.map.insert(key, reduced);
                        }
                    } else {
                        self.map.remove(&key);
                    }
                },
                None => {},
            }
            assert(self@ =~= partial_difference(a, b, pairs@, i + 1));
        }
        proof {
            lemma_prefix_covers(b, pairs@);
        }
        assert(self@ =~= difference_map(a, b));
    }

    /// The difference of this counter and another, as a new counter built
    /// out of the left operand.
    pub fn difference(self, other: &Counter) -> (c: Counter)
        requires
            self.wf(),
            forall|k: u64|
                self@.contains_key(k) && other@.contains_key(k) && self@[k] >= other@[k]
                    ==> #[trigger] self@[k] - other@[k] <= i64::MAX,
        ensures
            c.wf(),
            c@ == difference_map(self@, other@),
    {
        let mut c = self;
        c.difference_assign(other);
        c
    }

    /// The intersection of this counter and another, as a new counter: each
    /// key present in both operands, with the smaller of the two counts.
    #[verifier::loop_isolation(false)]
    pub fn intersection(&self, other: &Counter) -> (c: Counter)
        ensures
            c.wf(),
            c@ == intersection_map(self@, other@),
    {
        let ghost a = self@;
        let ghost b = other@;
        let pairs = self.entries();
        let n = pairs.len();
        let mut c = Counter::new();
        assert(c@ =~= partial_intersection(a, b, pairs@, 0));
        for i in 0..n
            invariant
                c.wf(),
                c@ == partial_intersection(a, b, pairs@, i as int),
        {
            let (key, acount) = pairs[i];
            match other.map.get(&key) {
                Some(w) => {
                    let smaller = if acount <= *w {
                        acount
                    } else {
                        *w
                    };
                    c.map.insert(key, smaller);
                },
                None => {},
            }
            assert(c@ =~= partial_intersection(a, b, pairs@, i + 1));
        }
        proof {
            lemma_prefix_covers(a, pairs@);
        }
        assert(c@ =~= intersection_map(a, b));
        c
    }

    /// Replace this counter with its intersection with another.
    pub fn intersection_assign(&mut self, other: &Counter)
        ensures
            final(self).wf(),
            final(self)@ == intersection_map(old(self)@, other@),
    {
        let c = self.intersection(other);
        *self = c;
    }

    /// The union of this counter and another, as a new counter: each key
    /// present in either operand, with the larger of the two counts, a
    /// missing count reading as the additive identity.
    #[verifier::loop_isolation(false)]
    pub fn union(&self, other: &Counter) -> (c: Counter)
        ensures
            c.wf(),
            c@ == union_map(self@, other@),
    {
        let ghost a = self@;
        let ghost b = other@;
        let self_pairs = self.entries();
        let mut c = Counter::new();
        assert(c@ =~= partial_union_left(a, b, self_pairs@, 0));
        for i in 0..self_pairs.len()
            invariant
                c.wf(),
                c@ == partial_union_left(a, b, self_pairs@, i as int),
        {
            let (key, acount) = self_pairs[i];
            let bcount = match other.map.get(&key) {
                Some(w) => *w,
                None => 0,
            };
            let larger = if acount >= bcount {
                acount
            } else {
                bcount
            };
            c.map.insert(key, larger);
            assert(c@ =~= partial_union_left(a, b, self_pairs@, i + 1));
        }
        proof {
            lemma_prefix_covers(a, self_pairs@);
        }
        let other_pairs = other.entries();
        assert(c@ =~= partial_union_right(a, b, other_pairs@, 0));
        for i in 0..other_pairs.len()
            invariant
                c.wf(),
                c@ == partial_union_right(a, b, other_pairs@, i as int),
        {
            let (key, bcount) = other_pairs[i];
            let acount = match self.map.get(&key) {
                Some(w) => *w,
                None => 0,
            };
            let larger = if acount >= bcount {
                acount
            } else {
                bcount
            };
            c.map.insert(key, larger);
            assert(c@ =~= partial_union_right(a, b, other_pairs@, i + 1));
        }
        proof {
            lemma_prefix_covers(b, other_pairs@);
        }
        assert(c@ =~= union_map(a, b));
        c
    }

    /// Replace this counter with its union with another.
    pub fn union_assign(&mut self, other: &Counter)
        ensures
            final(self).wf(),
            final(self)@ == union_map(old(self)@, other@),
    {
        let c = self.union(other);
        *self = c;
    }
}

/// Entry sequences drawn from a mapping carry exactly its keys.
pub(crate) proof fn lemma_prefix_covers(b: Map<u64, i64>, s: Seq<(u64, i64)>)
    requires
        forall|i: int| 0 <= i < s.len() ==> b.contains_key(#[trigger] s[i].0),
        forall|k: u64| #[trigger] b.contains_key(k) ==> s.contains((k, b[k])),
    ensures
        forall|k: u64| #[trigger] b.contains_key(k) <==> key_in_prefix(s, s.len() as int, k),
{
    assert forall|k: u64| #[trigger]
        b.contains_key(k) implies key_in_prefix(s, s.len() as int, k) by {
        assert(s.contains((k, b[k])));
        let j = choose|j: int| 0 <= j < s.len() && s[j] == (k, b[k]);
        assert(s[j].0 == k);
    }
}

/// The sum after the first `i` pairs of `b`'s entries have been folded in.
pub(crate) open spec fn partial_sum(
    a: Map<u64, i64>,
    b: Map<u64, i64>,
    s: Seq<(u64, i64)>,
    i: int,
) -> Map<u64, i64> {
    Map::new(
        |k: u64| a.contains_key(k) || key_in_prefix(s, i, k),
        |k: u64| (count_in(a, k) + if key_in_prefix(s, i, k) {
            count_in(b, k) as int
        } else {
            0int
        }) as i64,
    )
}

/// The difference after the first `i` pairs of `b`'s entries have been
/// subtracted out.
pub(crate) open spec fn partial_difference(
    a: Map<u64, i64>,
    b: Map<u64, i64>,
    s: Seq<(u64, i64)>,
    i: int,
) -> Map<u64, i64> {
    Map::new(
        |k: u64| a.contains_key(k) && (!key_in_prefix(s, i, k) || a[k] > b[k]),
        |k: u64| if key_in_prefix(s, i, k) {
            (a[k] - b[k]) as i64
        } else {
            a[k]
        },
    )
}

/// The intersection restricted to the keys of the first `i` pairs of `a`'s
/// entries.
pub(crate) open spec fn partial_intersection(
    a: Map<u64, i64>,
    b: Map<u64, i64>,
    s: Seq<(u64, i64)>,
    i: int,
) -> Map<u64, i64> {
    Map::new(
        |k: u64| key_in_prefix(s, i, k) && b.contains_key(k),
        |k: u64| min_count(a[k], b[k]),
    )
}

/// The union restricted to the keys of the first `i` pairs of `a`'s entries.
pub(crate) open spec fn partial_union_left(
    a: Map<u64, i64>,
    b: Map<u64, i64>,
    s: Seq<(u64, i64)>,
    i: int,
) -> Map<u64, i64> {
    Map::new(
        |k: u64| key_in_prefix(s, i, k),
        |k: u64| max_count(count_in(a, k), count_in(b, k)),
    )
}

/// The union of all of `a`'s keys with the keys of the first `i` pairs of
/// `b`'s entries.
pub(crate) open spec fn partial_union_right(
    a: Map<u64, i64>,
    b: Map<u64, i64>,
    s: Seq<(u64, i64)>,
    i: int,
) -> Map<u64, i64> {
    Map::new(
        |k: u64| a.contains_key(k) || key_in_prefix(s, i, k),
        |k: u64| max_count(count_in(a, k), count_in(b, k)),
    )
}

} // verus!
