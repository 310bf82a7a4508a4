//! Distance kernels over equal-length vectors of binary32 bit patterns:
//! Euclidean distance, cosine distance, and raw inner product, together with
//! the sort-key normalizer that maps every metric onto a single
//! "smaller key is better" order.

use vstd::prelude::*;
use crate::binary32::{
    add32, div32, is_zero32, mul32, spec_add32, spec_div32, spec_is_finite32, spec_is_zero32,
    spec_key32, spec_mul32, spec_neg32, spec_sign32, spec_sqrt32, spec_sub32, sqrt32, sub32,
    lemma_add32_nonneg, lemma_key32_zero_least_nonneg, lemma_mul32_self_nonneg,
    lemma_sqrt32_nonneg, lemma_sub32_self_zero, ONE32, PLUS_ZERO32,
};
use crate::types::{DistanceMetric, Vector};

verus! {

/// Bits of the guard value added to the product of the norms in the cosine
/// kernel, to avoid dividing by zero (about 1e-10).
pub const COSINE_EPS32: u32 = 0x2EDB_E6FF;

/// Every component is a finite binary32 value (not an infinity, not a NaN).
pub open spec fn spec_all_finite(v: Seq<u32>) -> bool {
    forall|i: int| 0 <= i < v.len() ==> spec_is_finite32(#[trigger] v[i])
}

/// Left-to-right sum of the squared componentwise differences.
pub open spec fn spec_sum_sq_diff(a: Seq<u32>, b: Seq<u32>) -> u32
    decreases a.len(),
{
    if a.len() == 0 {
        PLUS_ZERO32
    } else {
        let d = spec_sub32(a.last(), b.last());
        spec_add32(spec_sum_sq_diff(a.drop_last(), b.drop_last()), spec_mul32(d, d))
    }
}

/// Left-to-right sum of the componentwise products.
pub open spec fn spec_dot(a: Seq<u32>, b: Seq<u32>) -> u32
    decreases a.len(),
{
    if a.len() == 0 {
        PLUS_ZERO32
    } else {
        spec_add32(spec_dot(a.drop_last(), b.drop_last()), spec_mul32(a.last(), b.last()))
    }
}

/// Left-to-right sum of the squared components.
pub open spec fn spec_sum_sq(a: Seq<u32>) -> u32
    decreases a.len(),
{
    if a.len() == 0 {
        PLUS_ZERO32
    } else {
        spec_add32(spec_sum_sq(a.drop_last()), spec_mul32(a.last(), a.last()))
    }
}

/// Euclidean distance: the square root of the sum of squared differences.
pub open spec fn spec_euclid(a: Seq<u32>, b: Seq<u32>) -> u32 {
    spec_sqrt32(spec_sum_sq_diff(a, b))
}

/// Cosine distance: `1 - dot / (norm_a * norm_b + eps)`.
pub open spec fn spec_cosine(a: Seq<u32>, b: Seq<u32>) -> u32 {
    let na = spec_sqrt32(spec_sum_sq(a));
    let nb = spec_sqrt32(spec_sum_sq(b));
    let denom = spec_add32(spec_mul32(na, nb), COSINE_EPS32);
    spec_sub32(ONE32, spec_div32(spec_dot(a, b), denom))
}

/// Raw distance of the configured metric.  For the inner-product metric this
/// is the raw dot product (larger means more similar); the sort-key
/// normalizer turns it into a "smaller is better" key.
pub open spec fn spec_distance(metric: DistanceMetric, a: Seq<u32>, b: Seq<u32>) -> u32 {
    match metric {
        DistanceMetric::Cosine => spec_cosine(a, b),
        DistanceMetric::Dot => spec_dot(a, b),
        DistanceMetric::Euclidean => spec_euclid(a, b),
    }
}

/// The score normalizer: identity for Euclidean and cosine, negation for the
/// inner product, so that a smaller normalized score is always better.
pub open spec fn spec_normalize_score(metric: DistanceMetric, raw: u32) -> u32 {
    match metric {
        DistanceMetric::Dot => spec_neg32(raw),
        _ => raw,
    }
}

/// The sort key of a raw score: the total-order key of the normalized score.
/// All ranking and beam operations compare these keys.
pub open spec fn spec_sort_key(metric: DistanceMetric, raw: u32) -> u32 {
    spec_key32(spec_normalize_score(metric, raw))
}

fn sum_sq_diff(a: &[u32], b: &[u32]) -> (r: u32)
    requires
        a@.len() == b@.len(),
    ensures
        r == spec_sum_sq_diff(a@, b@),
{
    let mut acc: u32 = PLUS_ZERO32;
    let n = a.len();
    for i in 0..n
        invariant
            n == a@.len() == b@.len(),
            acc == spec_sum_sq_diff(a@.subrange(0, i as int), b@.subrange(0, i as int)),
    {
        let d = sub32(a[i], b[i]);
        acc = add32(acc, mul32(d, d));
        proof {
            assert(a@.subrange(0, i + 1).drop_last() =~= a@.subrange(0, i as int));
            assert(b@.subrange(0, i + 1).drop_last() =~= b@.subrange(0, i as int));
            assert(a@.subrange(0, i + 1).last() == a@[i as int]);
        }
    }
    proof {
        assert(a@.subrange(0, n as int) =~= a@);
        assert(b@.subrange(0, n as int) =~= b@);
    }
    acc
}

fn dot_sum(a: &[u32], b: &[u32]) -> (r: u32)
    requires
        a@.len() == b@.len(),
    ensures
        r == spec_dot(a@, b@),
{
    let mut acc: u32 = PLUS_ZERO32;
    let n = a.len();
    for i in 0..n
        invariant
            n == a@.len() == b@.len(),
            acc == spec_dot(a@.subrange(0, i as int), b@.subrange(0, i as int)),
    {
        acc = add32(acc, mul32(a[i], b[i]));
        proof {
            assert(a@.subrange(0, i + 1).drop_last() =~= a@.subrange(0, i as int));
            assert(b@.subrange(0, i + 1).drop_last() =~= b@.subrange(0, i as int));
            assert(a@.subrange(0, i + 1).last() == a@[i as int]);
        }
    }
    proof {
        assert(a@.subrange(0, n as int) =~= a@);
        assert(b@.subrange(0, n as int) =~= b@);
    }
    acc
}

fn sum_sq(a: &[u32]) -> (r: u32)
    ensures
        r == spec_sum_sq(a@),
{
    let mut acc: u32 = PLUS_ZERO32;
    let n = a.len();
    for i in 0..n
        invariant
            n == a@.len(),
            acc == spec_sum_sq(a@.subrange(0, i as int)),
    {
        acc = add32(acc, mul32(a[i], a[i]));
        proof {
            assert(a@.subrange(0, i + 1).drop_last() =~= a@.subrange(0, i as int));
            assert(a@.subrange(0, i + 1).last() == a@[i as int]);
        }
    }
    proof {
        assert(a@.subrange(0, n as int) =~= a@);
    }
    acc
}

/// Main distance dispatcher over two equal-length vectors.
pub fn distance(a: &Vector, b: &Vector, metric: DistanceMetric) -> (r: u32)
    requires
        a@.len() == b@.len(),
    ensures
        r == spec_distance(metric, a@, b@),
{
    match metric {
        DistanceMetric::Cosine => {
            let na = sqrt32(sum_sq(a.as_slice()));
            let nb = sqrt32(sum_sq(b.as_slice()));
            let denom = add32(mul32(na, nb), COSINE_EPS32);
            sub32(ONE32, div32(dot_sum(a.as_slice(), b.as_slice()), denom))
        },
        DistanceMetric::Dot => dot_sum(a.as_slice(), b.as_slice()),
        DistanceMetric::Euclidean => sqrt32(sum_sq_diff(a.as_slice(), b.as_slice())),
    }
}

/// The L2-normalized form a vector is stored in under the cosine metric: the
/// vector unchanged when its norm is zero, otherwise each component divided
/// by the norm.  Other metrics store vectors unchanged.
pub open spec fn spec_maybe_normalize(metric: DistanceMetric, v: Seq<u32>) -> Seq<u32> {
    if metric == DistanceMetric::Cosine {
        let n = spec_sqrt32(spec_sum_sq(v));
        if spec_is_zero32(n) {
            v
        } else {
            Seq::new(v.len(), |i: int| spec_div32(v[i], n))
        }
    } else {
        v
    }
}

/// L2-normalize under the cosine metric; other metrics pass through.
pub fn maybe_normalize(metric: DistanceMetric, v: &Vector) -> (r: Vector)
    ensures
        r@ == spec_maybe_normalize(metric, v@),
        r@.len() == v@.len(),
{
    match metric {
        DistanceMetric::Cosine => {
            let n = sqrt32(sum_sq(v.as_slice()));
            if is_zero32(n) {
                v.clone()
            } else {
                let mut out: Vector = Vec::new();
                let len = v.len();
                for i in 0..len
                    invariant
                        len == v@.len(),
                        n == spec_sqrt32(spec_sum_sq(v@)),
                        !spec_is_zero32(n),
                        out@.len() == i,
                        forall|j: int| 0 <= j < i ==> out@[j] == spec_div32(v@[j], n),
                {
                    out.push(div32(v[i], n));
                }
                proof {
                    assert(out@ =~= spec_maybe_normalize(metric, v@));
                }
                out
            }
        },
        _ => v.clone(),
    }
}

// ---------------------------------------------------------------------------
// Laws about the Euclidean kernel.
// ---------------------------------------------------------------------------

proof fn lemma_sum_sq_diff_nonneg(a: Seq<u32>, b: Seq<u32>)
    ensures
        !spec_sign32(spec_sum_sq_diff(a, b)),
    decreases a.len(),
{
    if a.len() == 0 {
    } else {
        let d = spec_sub32(a.last(), b.last());
        lemma_sum_sq_diff_nonneg(a.drop_last(), b.drop_last());
        lemma_mul32_self_nonneg(d);
        lemma_add32_nonneg(spec_sum_sq_diff(a.drop_last(), b.drop_last()), spec_mul32(d, d));
    }
}

/// A Euclidean distance never has its sign bit set.
pub proof fn lemma_euclid_nonneg(a: Seq<u32>, b: Seq<u32>)
    ensures
        !spec_sign32(spec_euclid(a, b)),
{
    lemma_sum_sq_diff_nonneg(a, b);
    lemma_sqrt32_nonneg(spec_sum_sq_diff(a, b));
}

proof fn lemma_sum_sq_diff_self_zero(a: Seq<u32>)
    requires
        spec_all_finite(a),
    ensures
        spec_sum_sq_diff(a, a) == PLUS_ZERO32,
    decreases a.len(),
{
    if a.len() == 0 {
    } else {
        assert(spec_all_finite(a.drop_last())) by {
            assert(forall|i: int|
                0 <= i < a.drop_last().len() ==> a.drop_last()[i] == a[i]);
        }
        lemma_sum_sq_diff_self_zero(a.drop_last());
        lemma_sub32_self_zero(a.last());
    }
}

/// The Euclidean distance of a finite vector to itself is exactly +0.
pub proof fn lemma_euclid_self_zero(a: Seq<u32>)
    requires
        spec_all_finite(a),
    ensures
        spec_euclid(a, a) == PLUS_ZERO32,
{
    lemma_sum_sq_diff_self_zero(a);
}

/// Exact-match law for the Euclidean kernel: the sort key of a finite vector
/// against itself is the least possible sort key against any vector at all.
pub proof fn lemma_euclid_self_key_least(a: Seq<u32>, b: Seq<u32>)
    requires
        spec_all_finite(a),
    ensures
        spec_sort_key(DistanceMetric::Euclidean, spec_distance(DistanceMetric::Euclidean, a, a))
            <= spec_sort_key(
            DistanceMetric::Euclidean,
            spec_distance(DistanceMetric::Euclidean, a, b),
        ),
{
    lemma_euclid_self_zero(a);
    lemma_euclid_nonneg(a, b);
    lemma_key32_zero_least_nonneg(spec_euclid(a, b));
}

} // verus!
