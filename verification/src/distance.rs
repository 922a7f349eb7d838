//! Distance functions, and what a query asks of the one it is given.

use crate::scalar::zero;
use vstd::prelude::*;

verus! {

/// A distance in the mathematical sense: a function of two coordinate vectors.
pub type Metric = spec_fn(Seq<i64>, Seq<i64>) -> i64;

/// `distance` may be called on any two vectors of `dims` coordinates.
pub open spec fn callable<F: Fn(&[i64], &[i64]) -> i64>(distance: &F, dims: nat) -> bool {
    forall|a: &[i64], b: &[i64]| a@.len() == dims && b@.len() == dims ==> call_requires(*distance, (a, b))
}

/// `distance` can return `r` on vectors that hold `a` and `b`.
pub open spec fn may_return<F: Fn(&[i64], &[i64]) -> i64>(distance: &F, a: Seq<i64>, b: Seq<i64>, r: i64) -> bool {
    exists|x: &[i64], y: &[i64]| x@ == a && y@ == b && #[trigger] call_ensures(*distance, (x, y), r)
}

/// Whatever `distance` returns is the value of `m`: the executable function
/// computes the mathematical one.
pub open spec fn measures<F: Fn(&[i64], &[i64]) -> i64>(distance: &F, m: Metric) -> bool {
    forall|a: &[i64], b: &[i64], r: i64| #[trigger] call_ensures(*distance, (a, b), r) ==> r == m(a@, b@)
}

/// Coordinate by coordinate, `c` lies between `q` and `p`, ends included.
pub open spec fn between(q: Seq<i64>, c: Seq<i64>, p: Seq<i64>) -> bool {
    &&& q.len() == c.len()
    &&& q.len() == p.len()
    &&& forall|i: int|
        0 <= i < q.len() ==> (q[i] <= #[trigger] c[i] <= p[i]) || (p[i] <= c[i] <= q[i])
}

/// What a branch-and-bound search needs of a metric: no distance is negative,
/// and a point that lies between `q` and `p` is no farther from `q` than `p` is.
pub open spec fn admissible(m: Metric) -> bool {
    &&& forall|a: Seq<i64>, b: Seq<i64>| a.len() == b.len() ==> 0 <= #[trigger] m(a, b)
    &&& forall|q: Seq<i64>, c: Seq<i64>, p: Seq<i64>| #[trigger] between(q, c, p) ==> m(q, c) <= m(q, p)
}

/// The sum of the squared differences of the first `n` coordinates.
pub open spec fn squares_up_to(a: Seq<i64>, b: Seq<i64>, n: nat) -> int
    decreases n,
{
    if n == 0 {
        0
    } else {
        squares_up_to(a, b, (n - 1) as nat) + (a[n - 1] - b[n - 1]) * (a[n - 1] - b[n - 1])
    }
}

/// `x`, or plus infinity where `x` is beyond it.
pub open spec fn capped(x: int) -> i64 {
    if x > i64::MAX {
        i64::MAX
    } else {
        x as i64
    }
}

/// The squared euclidean distance of `a` and `b`, capped at plus infinity.
pub open spec fn squared_euclidean_spec(a: Seq<i64>, b: Seq<i64>) -> i64 {
    capped(squares_up_to(a, b, a.len()))
}

proof fn lemma_squares_nonnegative(a: Seq<i64>, b: Seq<i64>, n: nat)
    ensures
        0 <= squares_up_to(a, b, n),
    decreases n,
{
    if n > 0 {
        lemma_squares_nonnegative(a, b, (n - 1) as nat);
        let d = a[n - 1] - b[n - 1];
        assert(0 <= d * d) by (nonlinear_arith);
    }
}

proof fn lemma_square_bounds(d: int)
    ensures
        -3037000499 <= d <= 3037000499 ==> 0 <= d * d <= 9223372030926249001,
        d > 3037000499 || d < -3037000499 ==> d * d >= 9223372037000250000,
{
    assert(-3037000499 <= d <= 3037000499 ==> 0 <= d * d <= 9223372030926249001) by (nonlinear_arith);
    assert(d >= 3037000500 ==> d * d >= 9223372037000250000) by (nonlinear_arith);
    assert(d <= -3037000500 ==> d * d >= 9223372037000250000) by (nonlinear_arith);
}

/// The squared euclidean distance between two points: the sum over the
/// coordinates of the squared difference. A sum beyond the largest `i64` comes
/// out as that value.
pub fn squared_euclidean(a: &[i64], b: &[i64]) -> (r: i64)
    requires
        a@.len() == b@.len(),
    ensures
        r == squared_euclidean_spec(a@, b@),
{
    let mut acc: i64 = zero();
    let mut i: usize = 0;
    while i < a.len()
        invariant
            i <= a@.len(),
            a@.len() == b@.len(),
            acc == capped(squares_up_to(a@, b@, i as nat)),
            0 <= acc,
        decreases a@.len() - i,
    {
        let d: i128 = a[i] as i128 - b[i] as i128;
        proof {
            lemma_square_bounds(d as int);
            lemma_squares_nonnegative(a@, b@, i as nat);
        }
        if d > 3037000499 || d < -3037000499 {
            acc = i64::MAX;
        } else {
            let term: i64 = (d * d) as i64;
            acc = if acc > i64::MAX - term {
                i64::MAX
            } else {
                acc + term
            };
        }
        i += 1;
    }
    acc
}

proof fn lemma_squares_monotone(q: Seq<i64>, c: Seq<i64>, p: Seq<i64>, n: nat)
    requires
        between(q, c, p),
        n <= q.len(),
    ensures
        squares_up_to(q, c, n) <= squares_up_to(q, p, n),
    decreases n,
{
    if n > 0 {
        lemma_squares_monotone(q, c, p, (n - 1) as nat);
        let x = q[n - 1] - c[n - 1];
        let y = q[n - 1] - p[n - 1];
        assert((q[n - 1] <= c[n - 1] <= p[n - 1]) || (p[n - 1] <= c[n - 1] <= q[n - 1]));
        assert((0 <= x <= y) || (y <= x <= 0));
        assert(x * x <= y * y) by (nonlinear_arith)
            requires
                (0 <= x <= y) || (y <= x <= 0),
        ;
    }
}

/// The squared euclidean distance is what `squared_euclidean` computes, and a
/// search may prune by it.
pub proof fn lemma_squared_euclidean_admissible()
    ensures
        measures(&squared_euclidean, |a: Seq<i64>, b: Seq<i64>| squared_euclidean_spec(a, b)),
        admissible(|a: Seq<i64>, b: Seq<i64>| squared_euclidean_spec(a, b)),
{
    let m = |a: Seq<i64>, b: Seq<i64>| squared_euclidean_spec(a, b);
    assert forall|a: Seq<i64>, b: Seq<i64>| a.len() == b.len() implies 0 <= #[trigger] m(a, b) by {
        lemma_squares_nonnegative(a, b, a.len());
    }
    assert forall|q: Seq<i64>, c: Seq<i64>, p: Seq<i64>| #[trigger] between(q, c, p) implies m(q, c) <= m(q, p) by {
        lemma_squares_monotone(q, c, p, q.len());
        lemma_squares_nonnegative(q, c, q.len());
    }
}

} // verus!
