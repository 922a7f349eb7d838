//! Boxes: clamping a point into one, widening one by a point, and the distance
//! from a point to one.

use crate::distance::between;
use crate::distance::callable;
use crate::distance::may_return;
use vstd::prelude::*;

verus! {

/// `p` lies in the box from `lo` to `hi`, sides included.
pub open spec fn in_box(p: Seq<i64>, lo: Seq<i64>, hi: Seq<i64>) -> bool {
    &&& p.len() == lo.len()
    &&& p.len() == hi.len()
    &&& forall|i: int| 0 <= i < p.len() ==> lo[i] <= #[trigger] p[i] <= hi[i]
}

/// One coordinate brought into the range from `lo` to `hi`.
pub open spec fn clamped_coordinate(x: i64, lo: i64, hi: i64) -> i64 {
    if x > hi {
        hi
    } else if x < lo {
        lo
    } else {
        x
    }
}

/// `p` with every coordinate brought into the box from `lo` to `hi`.
pub open spec fn clamped(p: Seq<i64>, lo: Seq<i64>, hi: Seq<i64>) -> Seq<i64> {
    Seq::new(p.len(), |i: int| clamped_coordinate(p[i], lo[i], hi[i]))
}

/// The lower corner `lo` moved, where needed, to take `p` in.
pub open spec fn widened_low(lo: Seq<i64>, p: Seq<i64>) -> Seq<i64> {
    Seq::new(
        lo.len(),
        |i: int|
            if p[i] < lo[i] {
                p[i]
            } else {
                lo[i]
            },
    )
}

/// The upper corner `hi` moved, where needed, to take `p` in.
pub open spec fn widened_high(hi: Seq<i64>, p: Seq<i64>) -> Seq<i64> {
    Seq::new(
        hi.len(),
        |i: int|
            if p[i] > hi[i] {
                p[i]
            } else {
                hi[i]
            },
    )
}

/// Clamping `q` into a box gives a point between `q` and any point of the box.
pub proof fn lemma_clamped_between(q: Seq<i64>, lo: Seq<i64>, hi: Seq<i64>, p: Seq<i64>)
    requires
        in_box(p, lo, hi),
        q.len() == p.len(),
    ensures
        between(q, clamped(q, lo, hi), p),
{
    let c = clamped(q, lo, hi);
    assert forall|i: int| 0 <= i < q.len() implies (q[i] <= #[trigger] c[i] <= p[i]) || (p[i] <= c[i] <= q[i]) by {
        assert(lo[i] <= p[i] <= hi[i]);
    }
}

/// The distance from `p1` to the nearest point of the box from `min_bounds` to
/// `max_bounds`: what `distance` returns on `p1` and `p1` clamped into the box.
pub fn distance_to_space<F>(p1: &[i64], min_bounds: &[i64], max_bounds: &[i64], distance: &F) -> (r: i64) where
    F: Fn(&[i64], &[i64]) -> i64,

    requires
        p1@.len() == min_bounds@.len(),
        p1@.len() == max_bounds@.len(),
        callable(distance, p1@.len()),
    ensures
        may_return(distance, p1@, clamped(p1@, min_bounds@, max_bounds@), r),
{
    let mut p2: Vec<i64> = Vec::new();
    let mut i: usize = 0;
    while i < p1.len()
        invariant
            i <= p1@.len(),
            p1@.len() == min_bounds@.len(),
            p1@.len() == max_bounds@.len(),
            p2@.len() == i,
            forall|k: int| 0 <= k < i ==> #[trigger] p2@[k] == clamped_coordinate(p1@[k], min_bounds@[k], max_bounds@[k]),
        decreases p1@.len() - i,
    {
        if p1[i] > max_bounds[i] {
            p2.push(max_bounds[i]);
        } else if p1[i] < min_bounds[i] {
            p2.push(min_bounds[i]);
        } else {
            p2.push(p1[i]);
        }
        i += 1;
    }
    assert(p2@ =~= clamped(p1@, min_bounds@, max_bounds@));
    distance(p1, p2.as_slice())
}

/// Whether `p` lies in the box from `min_bounds` to `max_bounds`.
pub fn in_bounding_box(p: &[i64], min_bounds: &[i64], max_bounds: &[i64]) -> (r: bool)
    requires
        p@.len() == min_bounds@.len(),
        p@.len() == max_bounds@.len(),
    ensures
        r == in_box(p@, min_bounds@, max_bounds@),
{
    let mut i: usize = 0;
    while i < p.len()
        invariant
            i <= p@.len(),
            p@.len() == min_bounds@.len(),
            p@.len() == max_bounds@.len(),
            forall|k: int| 0 <= k < i ==> min_bounds@[k] <= #[trigger] p@[k] <= max_bounds@[k],
        decreases p@.len() - i,
    {
        if p[i] < min_bounds[i] || p[i] > max_bounds[i] {
            return false;
        }
        i += 1;
    }
    true
}

/// Moves the corners `min_bounds` and `max_bounds` of a box, where needed, to
/// take `point` in.
pub fn widen(min_bounds: &mut Vec<i64>, max_bounds: &mut Vec<i64>, point: &[i64])
    requires
        old(min_bounds)@.len() == point@.len(),
        old(max_bounds)@.len() == point@.len(),
    ensures
        final(min_bounds)@ == widened_low(old(min_bounds)@, point@),
        final(max_bounds)@ == widened_high(old(max_bounds)@, point@),
{
    let ghost lo = min_bounds@;
    let ghost hi = max_bounds@;
    let mut i: usize = 0;
    while i < point.len()
        invariant
            i <= point@.len(),
            lo.len() == point@.len(),
            hi.len() == point@.len(),
            min_bounds@.len() == point@.len(),
            max_bounds@.len() == point@.len(),
            forall|k: int| 0 <= k < i ==> #[trigger] min_bounds@[k] == widened_low(lo, point@)[k],
            forall|k: int| 0 <= k < i ==> #[trigger] max_bounds@[k] == widened_high(hi, point@)[k],
            forall|k: int| i <= k < point@.len() ==> #[trigger] min_bounds@[k] == lo[k],
            forall|k: int| i <= k < point@.len() ==> #[trigger] max_bounds@[k] == hi[k],
        decreases point@.len() - i,
    {
        let v = point[i];
        if v < min_bounds[i] {
            min_bounds[i] = v;
        }
        if v > max_bounds[i] {
            max_bounds[i] = v;
        }
        i += 1;
    }
    assert(min_bounds@ =~= widened_low(lo, point@));
    assert(max_bounds@ =~= widened_high(hi, point@));
}

} // verus!
