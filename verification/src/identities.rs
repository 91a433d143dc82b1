//! The identity elements of the count type, taken from `num_traits`.
use vstd::prelude::*;

verus! {

/// Relies on `num_traits::Zero::zero` for `i64`: the additive identity, `0`.
#[verifier::external_body]
pub(crate) fn count_zero() -> (r: i64)
    ensures
        r == 0,
{
    <i64 as num_traits::Zero>::zero()
}

/// Relies on `num_traits::One::one` for `i64`: the multiplicative identity, `1`.
#[verifier::external_body]
pub(crate) fn count_one() -> (r: i64)
    ensures
        r == 1,
{
    <i64 as num_traits::One>::one()
}

} // verus!
