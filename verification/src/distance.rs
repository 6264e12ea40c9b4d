use vstd::prelude::*;
use crate::record::{Record, wf, wf_features, feature_in_range};

verus! {

/// Largest value one squared-difference term can take when both feature
/// values are in range: `(2 * FEATURE_LIMIT)^2`.
pub const MAX_SQ_TERM: u128 = 4000000000000000000;

/// Squared Euclidean distance between two equal-length feature
/// sequences, in scaled units: the sum over all positions of the
/// squared difference.
pub open spec fn sq_dist(a: Seq<int>, b: Seq<int>) -> int
    recommends
        a.len() == b.len(),
    decreases a.len(),
{
    if a.len() == 0 || b.len() == 0 {
        0
    } else {
        sq_dist(a.drop_last(), b.drop_last()) + (a.last() - b.last()) * (a.last() - b.last())
    }
}

/// A squared distance is never negative.
pub proof fn lemma_sq_dist_nonneg(a: Seq<int>, b: Seq<int>)
    ensures
        sq_dist(a, b) >= 0,
    decreases a.len(),
{
    if a.len() == 0 || b.len() == 0 {
    } else {
        lemma_sq_dist_nonneg(a.drop_last(), b.drop_last());
        let d = a.last() - b.last();
        assert(d * d >= 0) by (nonlinear_arith);
    }
}

/// The distance does not depend on the order of its two arguments.
pub proof fn lemma_sq_dist_symmetric(a: Seq<int>, b: Seq<int>)
    requires
        a.len() == b.len(),
    ensures
        sq_dist(a, b) == sq_dist(b, a),
    decreases a.len(),
{
    if a.len() == 0 {
    } else {
        lemma_sq_dist_symmetric(a.drop_last(), b.drop_last());
        let x = a.last();
        let y = b.last();
        assert((x - y) * (x - y) == (y - x) * (y - x)) by (nonlinear_arith);
    }
}

/// The distance from a feature sequence to itself is zero.
pub proof fn lemma_sq_dist_self_zero(a: Seq<int>)
    ensures
        sq_dist(a, a) == 0,
    decreases a.len(),
{
    if a.len() == 0 {
    } else {
        lemma_sq_dist_self_zero(a.drop_last());
    }
}

/// With all feature values in range, the squared distance is bounded by
/// the length times the largest possible term, so it fits in a `u128`.
pub proof fn lemma_sq_dist_bound(a: Seq<int>, b: Seq<int>)
    requires
        a.len() == b.len(),
        wf_features(a),
        wf_features(b),
    ensures
        0 <= sq_dist(a, b) <= a.len() * (MAX_SQ_TERM as int),
    decreases a.len(),
{
    if a.len() == 0 {
    } else {
        assert(wf_features(a.drop_last())) by {
            assert(forall|i: int| 0 <= i < a.len() - 1 ==> a.drop_last()[i] == a[i]);
        }
        assert(wf_features(b.drop_last())) by {
            assert(forall|i: int| 0 <= i < b.len() - 1 ==> b.drop_last()[i] == b[i]);
        }
        lemma_sq_dist_bound(a.drop_last(), b.drop_last());
        let d = a.last() - b.last();
        assert(feature_in_range(a.last()));
        assert(feature_in_range(b.last()));
        assert(0 <= d * d <= MAX_SQ_TERM as int) by (nonlinear_arith)
            requires
                -2000000000 <= d <= 2000000000,
        ;
    }
}

/// The error returned when two records of unequal dimensionality are
/// compared. It is always surfaced to the caller, never coerced.
#[derive(Debug, Clone, Copy, PartialEq, Eq, Structural)]
pub struct DimensionMismatch;

/// Squared distance between two raw feature vectors.
pub fn sq_dist_of(a: &Vec<i64>, b: &Vec<i64>) -> (r: u128)
    requires
        a@.len() == b@.len(),
        wf_features(a@.map_values(|x: i64| x as int)),
        wf_features(b@.map_values(|x: i64| x as int)),
    ensures
        r == sq_dist(a@.map_values(|x: i64| x as int), b@.map_values(|x: i64| x as int)),
{
    let ghost av = a@.map_values(|x: i64| x as int);
    let ghost bv = b@.map_values(|x: i64| x as int);
    let n = a.len();
    let mut sum: u128 = 0;
    let mut i: usize = 0;
    while i < n
        invariant
            i <= n,
            n == a@.len() == b@.len(),
            av == a@.map_values(|x: i64| x as int),
            bv == b@.map_values(|x: i64| x as int),
            wf_features(av),
            wf_features(bv),
            sum == sq_dist(av.take(i as int), bv.take(i as int)),
            sum <= (i as int) * (MAX_SQ_TERM as int),
        decreases n - i,
    {
        assert(feature_in_range(av[i as int]));
        assert(feature_in_range(bv[i as int]));
        let d: i128 = a[i] as i128 - b[i] as i128;
        assert(0 <= d * d <= MAX_SQ_TERM as int) by (nonlinear_arith)
            requires
                -2000000000 <= d <= 2000000000,
        ;
        let sq: u128 = (d * d) as u128;
        assert((i + 1) as int * (MAX_SQ_TERM as int) <= 0x10000000000000000 * (
        MAX_SQ_TERM as int)) by (nonlinear_arith)
            requires
                i + 1 <= 0x10000000000000000,
        ;
        sum = sum + sq;
        proof {
            let at = av.take(i + 1 as int);
            let bt = bv.take(i + 1 as int);
            assert(at.drop_last() =~= av.take(i as int));
            assert(bt.drop_last() =~= bv.take(i as int));
            assert(at.last() == av[i as int]);
            assert(bt.last() == bv[i as int]);
        }
        i += 1;
    }
    proof {
        assert(av.take(n as int) =~= av);
        assert(bv.take(n as int) =~= bv);
    }
    sum
}

/// Squared Euclidean distance between two records, in scaled units.
///
/// Succeeds exactly when the two records have the same dimensionality;
/// otherwise reports `DimensionMismatch`. Deterministic, symmetric,
/// non-negative, and zero on equal inputs (see the lemmas above).
pub fn distance(a: &Record, b: &Record) -> (r: Result<u128, DimensionMismatch>)
    requires
        wf(a@),
        wf(b@),
    ensures
        r is Ok <==> a@.features.len() == b@.features.len(),
        r matches Ok(d) ==> d == sq_dist(a@.features, b@.features),
{
    if a.features.len() != b.features.len() {
        return Err(DimensionMismatch);
    }
    Ok(sq_dist_of(&a.features, &b.features))
}

} // verus!
