//! The distance-metric abstraction, and the built-in squared-Euclidean
//! metric.
//!
//! A metric is a caller-supplied collaborator: the index only assumes that it
//! is a pure function of the two points. Its mathematical value is an
//! unbounded integer; the executable method reports a score only when that
//! value is representable as a `u64`, and refuses otherwise, which the index
//! surfaces as a distance-function error.

use vstd::prelude::*;

verus! {

/// A pluggable distance metric over integer-coordinate points.
///
/// `spec_dist` is the mathematical value of the metric; `dist` computes it.
/// Implementations must return `Some` exactly when the mathematical value
/// lies in `[0, u64::MAX]`, and then return that value.
pub trait Distance {
    /// The mathematical distance between two points of equal length.
    spec fn spec_dist(&self, a: Seq<i64>, b: Seq<i64>) -> int;

    /// Computes the distance; `None` exactly when the mathematical value is
    /// negative or too large for a `u64` score.
    fn dist(&self, a: &Vec<i64>, b: &Vec<i64>) -> (r: Option<u64>)
        requires
            a@.len() == b@.len(),
        ensures
            match r {
                Some(v) => 0 <= self.spec_dist(a@, b@) <= u64::MAX && v == self.spec_dist(a@, b@),
                None => !(0 <= self.spec_dist(a@, b@) <= u64::MAX),
            },
        ;
}

/// Squared Euclidean distance: the sum over every axis of the squared
/// coordinate difference. Using the square avoids any rooting while
/// preserving the ordering of true Euclidean distances.
pub struct SquaredEuclidean;

/// The squared Euclidean distance of two equal-length coordinate sequences,
/// as an unbounded integer.
pub open spec fn sq_euclid(a: Seq<i64>, b: Seq<i64>) -> int
    decreases a.len(),
{
    if a.len() == 0 {
        0
    } else {
        let d = a.last() - b.last();
        sq_euclid(a.drop_last(), b.drop_last()) + d * d
    }
}

/// The built-in metric is never negative.
pub proof fn lemma_sq_euclid_nonneg(a: Seq<i64>, b: Seq<i64>)
    ensures
        sq_euclid(a, b) >= 0,
    decreases a.len(),
{
    if a.len() > 0 {
        lemma_sq_euclid_nonneg(a.drop_last(), b.drop_last());
        let d = a.last() - b.last();
        assert(d * d >= 0) by (nonlinear_arith);
    }
}

/// The built-in metric is symmetric in its two points.
pub proof fn lemma_sq_euclid_symmetric(a: Seq<i64>, b: Seq<i64>)
    requires
        a.len() == b.len(),
    ensures
        sq_euclid(a, b) == sq_euclid(b, a),
    decreases a.len(),
{
    if a.len() > 0 {
        lemma_sq_euclid_symmetric(a.drop_last(), b.drop_last());
        let d = a.last() - b.last();
        assert(d * d == (-d) * (-d)) by (nonlinear_arith);
    }
}

/// With every coordinate in `[-bound, bound]` the metric stays within
/// `4 * bound^2` per axis, so a caller with bounded points can show that
/// every score is representable and the Euclidean queries must succeed.
pub proof fn lemma_sq_euclid_bound(a: Seq<i64>, b: Seq<i64>, bound: int)
    requires
        a.len() == b.len(),
        0 <= bound,
        forall|i: int| 0 <= i < a.len() ==> -bound <= #[trigger] a[i] <= bound,
        forall|i: int| 0 <= i < b.len() ==> -bound <= #[trigger] b[i] <= bound,
    ensures
        sq_euclid(a, b) <= 4 * bound * bound * a.len(),
    decreases a.len(),
{
    if a.len() > 0 {
        assert forall|i: int| 0 <= i < a.drop_last().len() implies -bound <= #[trigger] a
            .drop_last()[i] <= bound by {
            assert(a.drop_last()[i] == a[i]);
        }
        assert forall|i: int| 0 <= i < b.drop_last().len() implies -bound <= #[trigger] b
            .drop_last()[i] <= bound by {
            assert(b.drop_last()[i] == b[i]);
        }
        lemma_sq_euclid_bound(a.drop_last(), b.drop_last(), bound);
        let d = a.last() - b.last();
        assert(-2 * bound <= d <= 2 * bound);
        assert(d * d <= 4 * bound * bound) by (nonlinear_arith)
            requires
                -2 * bound <= d <= 2 * bound,
                0 <= bound,
        ;
        assert(4 * bound * bound * (a.len() - 1) + 4 * bound * bound == 4 * bound * bound
            * a.len()) by (nonlinear_arith);
    }
}

/// A prefix of the axes never contributes more than the whole sum.
proof fn lemma_sq_euclid_take_le(a: Seq<i64>, b: Seq<i64>, i: int)
    requires
        0 <= i <= a.len(),
        a.len() == b.len(),
    ensures
        sq_euclid(a.take(i), b.take(i)) <= sq_euclid(a, b),
    decreases a.len() - i,
{
    if i == a.len() {
        assert(a.take(i) =~= a);
        assert(b.take(i) =~= b);
    } else {
        lemma_sq_euclid_take_le(a, b, i + 1);
        assert(a.take(i + 1).drop_last() =~= a.take(i));
        assert(b.take(i + 1).drop_last() =~= b.take(i));
        assert(a.take(i + 1).last() == a[i]);
        assert(b.take(i + 1).last() == b[i]);
        let d = a[i] - b[i];
        assert(d * d >= 0) by (nonlinear_arith);
    }
}

impl Distance for SquaredEuclidean {
    open spec fn spec_dist(&self, a: Seq<i64>, b: Seq<i64>) -> int {
        sq_euclid(a, b)
    }

    fn dist(&self, a: &Vec<i64>, b: &Vec<i64>) -> (r: Option<u64>) {
        let mut acc: u128 = 0;
        let mut i: usize = 0;
        while i < a.len()
            invariant
                a@.len() == b@.len(),
                0 <= i <= a@.len(),
                acc == sq_euclid(a@.take(i as int), b@.take(i as int)),
            decreases a@.len() - i,
        {
            let ai: i64 = a[i];
            let bi: i64 = b[i];
            let d: i128 = ai as i128 - bi as i128;
            let m: u128 = if d < 0 {
                (-d) as u128
            } else {
                d as u128
            };
            assert(m <= u64::MAX);
            assert(m * m == (ai - bi) * (ai - bi) && m * m <= u64::MAX * u64::MAX)
                by (nonlinear_arith)
                requires
                    m <= u64::MAX,
                    m == ai - bi || m == -(ai - bi),
            ;
            let sq: u128 = m * m;
            proof {
                assert(a@.take(i + 1).drop_last() =~= a@.take(i as int));
                assert(b@.take(i + 1).drop_last() =~= b@.take(i as int));
                assert(a@.take(i + 1).last() == a@[i as int]);
                assert(b@.take(i + 1).last() == b@[i as int]);
                assert(sq_euclid(a@.take(i + 1), b@.take(i + 1)) == acc + sq);
            }
            if acc > u128::MAX - sq {
                proof {
                    lemma_sq_euclid_take_le(a@, b@, i + 1);
                }
                return None;
            }
            acc = acc + sq;
            i = i + 1;
        }
        proof {
            assert(a@.take(a@.len() as int) =~= a@);
            assert(b@.take(b@.len() as int) =~= b@);
        }
        if acc > u64::MAX as u128 {
            None
        } else {
            Some(acc as u64)
        }
    }
}

} // verus!
