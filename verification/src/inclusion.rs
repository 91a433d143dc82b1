//! The relational layer: subset and superset tests between two counters.
use vstd::prelude::*;

use crate::counter::Counter;
use crate::model::{count_in, subset_spec, superset_spec};

verus! {

impl Counter {
    /// Whether every count in this counter is at least the other counter's
    /// count at the same key, over the keys of both operands, a missing
    /// count reading as the additive identity.
    #[verifier::loop_isolation(false)]
    pub fn is_superset(&self, other: &Counter) -> (r: bool)
        requires
            self.wf(),
            other.wf(),
        ensures
            r == superset_spec(self@, other@),
    {
        let ghost a = self@;
        let ghost b = other@;
        let self_pairs = self.entries();
        let other_pairs = other.entries();
        let mut ok = true;
        for i in 0..self_pairs.len()
            invariant
                ok <==> (forall|j: int|
                    0 <= j < i ==> count_in(a, #[trigger] self_pairs@[j].0) >= count_in(
                        b,
                        self_pairs@[j].0,
                    )),
        {
            let (key, acount) = self_pairs[i];
            let bcount = other.count_of(key);
            ok = ok && acount >= bcount;
        }
        for i in 0..other_pairs.len()
            invariant
                ok <==> ((forall|j: int|
                    0 <= j < self_pairs@.len() ==> count_in(a, #[trigger] self_pairs@[j].0)
                        >= count_in(b, self_pairs@[j].0)) && (forall|j: int|
                    0 <= j < i ==> count_in(a, #[trigger] other_pairs@[j].0) >= count_in(
                        b,
                        other_pairs@[j].0,
                    ))),
        {
            let (key, bcount) = other_pairs[i];
            let acount = self.count_of(key);
            ok = ok && acount >= bcount;
        }
        proof {
            if ok {
                assert forall|k: u64| #[trigger] count_in(a, k) >= count_in(b, k) by {
                    if a.contains_key(k) {
                        assert(self_pairs@.contains((k, a[k])));
                        let j = choose|j: int|
                            0 <= j < self_pairs@.len() && self_pairs@[j] == (k, a[k]);
                        assert(count_in(a, self_pairs@[j].0) >= count_in(b, self_pairs@[j].0));
                    } else if b.contains_key(k) {
                        assert(other_pairs@.contains((k, b[k])));
                        let j = choose|j: int|
                            0 <= j < other_pairs@.len() && other_pairs@[j] == (k, b[k]);
                        assert(count_in(a, other_pairs@[j].0) >= count_in(b, other_pairs@[j].0));
                    }
                }
            }
        }
        ok
    }

    /// Whether every count in this counter is at most the other counter's
    /// count at the same key, over the keys of both operands, a missing
    /// count reading as the additive identity.
    pub fn is_subset(&self, other: &Counter) -> (r: bool)
        requires
            self.wf(),
            other.wf(),
        ensures
            r == subset_spec(self@, other@),
    {
        let r = other.is_superset(self);
        proof {
            if superset_spec(other@, self@) {
                assert forall|k: u64| #[trigger] count_in(self@, k) <= count_in(other@, k) by {
                    assert(count_in(other@, k) >= count_in(self@, k));
                }
            }
            if subset_spec(self@, other@) {
                assert forall|k: u64| #[trigger] count_in(other@, k) >= count_in(self@, k) by {
                    assert(count_in(self@, k) <= count_in(other@, k));
                }
            }
        }
        r
    }
}

} // verus!
