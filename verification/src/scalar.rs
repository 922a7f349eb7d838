//! The scalar of coordinates and distances: `i64`, its two ends read as
//! minus and plus infinity.

use vstd::prelude::*;

verus! {

/// A coordinate that a point may have: any value but the two infinities.
pub open spec fn is_finite(x: i64) -> bool {
    i64::MIN < x < i64::MAX
}

/// Every coordinate of `p` is finite.
pub open spec fn all_finite(p: Seq<i64>) -> bool {
    forall|i: int| 0 <= i < p.len() ==> is_finite(#[trigger] p[i])
}

/// `num_traits::Bounded::max_value` at `i64`: the largest value of the type,
/// read here as plus infinity.
#[verifier::external_body]
pub(crate) fn max_value() -> (r: i64)
    ensures
        r == i64::MAX,
{
    num_traits::Bounded::max_value()
}

/// `num_traits::Bounded::min_value` at `i64`: the smallest value of the type,
/// read here as minus infinity.
#[verifier::external_body]
pub(crate) fn min_value() -> (r: i64)
    ensures
        r == i64::MIN,
{
    num_traits::Bounded::min_value()
}

/// `num_traits::Zero::zero` at `i64`: the additive identity, 0.
#[verifier::external_body]
pub(crate) fn zero() -> (r: i64)
    ensures
        r == 0,
{
    num_traits::Zero::zero()
}

} // verus!
