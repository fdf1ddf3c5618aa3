//! Weighted means of embeddings.

use vstd::prelude::*;
use crate::aggregate::count::{all_finite, is_all_finite};
use crate::cluster::centroid::error::{Error, NonFiniteField, ShapeError};
use crate::float::sums::added;
use crate::float::Double;
use crate::matrix::{DoubleMatrix, Grid};

verus! {

/// The bit pattern of `1e-7`, the prior above which a cluster is alive.
pub const SP_ALIVE_THRESHOLD: u64 = 0x3e7a_d7f2_9abc_af48;

/// Half of a number.
pub open spec fn halved(x: Double) -> Double {
    x.times(Double { bits: 0x3fe0_0000_0000_0000 })
}

/// Twice a number.
pub open spec fn doubled(x: Double) -> Double {
    x.times(Double { bits: 0x4000_0000_0000_0000 })
}

/// A prior too close to the threshold to tell on which side of it it lies: strictly
/// between half of it and twice it.
pub open spec fn is_ambiguous(value: Double, threshold: Double) -> bool {
    halved(threshold).below(value) && value.below(doubled(threshold))
}

/// The error for the first ambiguous prior from position `k` on.
pub open spec fn ambiguity(sp: Seq<Double>, threshold: Double, k: nat) -> Option<Error>
    decreases sp.len() - k,
{
    if k >= sp.len() {
        None
    } else if is_ambiguous(sp[k as int], threshold) {
        Some(
            Error::AmbiguousAliveCluster {
                cluster: k as usize,
                value: sp[k as int],
                threshold,
                lo: halved(threshold),
                hi: doubled(threshold),
            },
        )
    } else {
        ambiguity(sp, threshold, k + 1)
    }
}

/// The clusters among the first `n` whose prior is above the threshold.
pub open spec fn alive(sp: Seq<Double>, threshold: Double, n: nat) -> Seq<usize>
    decreases n,
{
    if n == 0 {
        Seq::empty()
    } else {
        let before = alive(sp, threshold, (n - 1) as nat);
        if threshold.below(sp[n - 1]) {
            before.push((n - 1) as usize)
        } else {
            before
        }
    }
}

/// The responsibilities of cluster `k`.
pub open spec fn weights_of(q: Grid, k: int) -> Seq<Double> {
    Seq::new(q.height, |t: int| q.at(t, k))
}

/// The total weight of cluster `k`, added up from zero.
pub open spec fn total_weight(q: Grid, k: int) -> Double {
    added(Double::zero_spec(), weights_of(q, k), q.height)
}

/// Coordinate `d` of all embeddings, each times its responsibility for cluster `k`.
pub open spec fn weighted_terms(
    q: Grid,
    embeddings: Seq<Double>,
    dim: int,
    k: int,
    d: int,
) -> Seq<Double> {
    Seq::new(q.height, |t: int| q.at(t, k).times(embeddings[t * dim + d]))
}

/// Coordinate `d` of the weighted mean of cluster `k`.
pub open spec fn weighted_mean(
    q: Grid,
    embeddings: Seq<Double>,
    dim: int,
    k: int,
    d: int,
) -> Double {
    added(Double::zero_spec(), weighted_terms(q, embeddings, dim, k, d), q.height).over(
        total_weight(q, k),
    )
}

/// The weighted means of the alive clusters, a row each.
pub open spec fn centroids_of(
    q: Grid,
    embeddings: Seq<Double>,
    dim: nat,
    clusters: Seq<usize>,
) -> Grid {
    Grid::tabulate(
        clusters.len(),
        dim,
        |i: int, d: int| weighted_mean(q, embeddings, dim as int, clusters[i] as int, d),
    )
}

/// Some alive cluster has no positive total weight.
pub open spec fn has_weightless(q: Grid, clusters: Seq<usize>) -> bool {
    exists|i: int|
        0 <= i < clusters.len() && !Double::zero_spec().below(
            total_weight(q, #[trigger] clusters[i] as int),
        )
}

/// The first check that an input fails, if any.
pub open spec fn centroid_error(
    q: Grid,
    sp: Seq<Double>,
    embeddings: Seq<Double>,
    n: nat,
    dim: nat,
    threshold: Double,
) -> Option<Error> {
    if q.height == 0 {
        Some(Error::Shape(ShapeError::EmptyQ))
    } else if q.width == 0 {
        Some(Error::Shape(ShapeError::ZeroQClusters))
    } else if sp.len() != q.width {
        Some(Error::Shape(ShapeError::SpQClusterMismatch))
    } else if n != q.height {
        Some(Error::Shape(ShapeError::EmbeddingsQRowMismatch))
    } else if dim == 0 {
        Some(Error::Shape(ShapeError::ZeroEmbeddingDim))
    } else if n * dim > usize::MAX {
        Some(Error::Shape(ShapeError::EmbeddingsLenOverflow))
    } else if embeddings.len() != n * dim {
        Some(Error::Shape(ShapeError::EmbeddingsLenMismatch))
    } else if !threshold.finite() {
        Some(Error::Shape(ShapeError::NonFiniteSpThreshold))
    } else if !all_finite(q.cells) {
        Some(Error::NonFinite(NonFiniteField::Q))
    } else if !all_finite(sp) {
        Some(Error::NonFinite(NonFiniteField::Sp))
    } else if !all_finite(embeddings) {
        Some(Error::NonFinite(NonFiniteField::Embeddings))
    } else if ambiguity(sp, threshold, 0) is Some {
        ambiguity(sp, threshold, 0)
    } else if alive(sp, threshold, sp.len()).len() == 0 {
        Some(Error::Shape(ShapeError::NoSurvivingClusters))
    } else if has_weightless(q, alive(sp, threshold, sp.len())) {
        Some(Error::Shape(ShapeError::NonPositiveTotalWeight))
    } else {
        None
    }
}

proof fn lemma_alive(sp: Seq<Double>, threshold: Double, n: nat)
    requires
        n <= sp.len() <= usize::MAX,
    ensures
        alive(sp, threshold, n).len() <= n,
        forall|i: int|
            0 <= i < alive(sp, threshold, n).len() ==> #[trigger] alive(sp, threshold, n)[i] < n,
    decreases n,
{
    if n > 0 {
        let before = alive(sp, threshold, (n - 1) as nat);
        lemma_alive(sp, threshold, (n - 1) as nat);
        assert forall|i: int| 0 <= i < alive(sp, threshold, n).len() implies #[trigger] alive(
            sp,
            threshold,
            n,
        )[i] < n by {
            if i < before.len() {
                assert(alive(sp, threshold, n)[i] == before[i]);
            }
        }
    }
}

/// Checks shapes, numbers and priors.
pub fn check_input(
    q: &DoubleMatrix,
    sp: &[Double],
    embeddings: &[Double],
    n: usize,
    dim: usize,
    threshold: Double,
) -> (r: Result<Vec<usize>, Error>)
    ensures
        match r {
            Err(e) => centroid_error(q@, sp@, embeddings@, n as nat, dim as nat, threshold)
                == Some(e),
            Ok(clusters) => {
                &&& clusters@ == alive(sp@, threshold, sp@.len())
                &&& clusters@.len() > 0
                &&& sp@.len() == q.width()
                &&& n == q.height()
                &&& embeddings@.len() == n * dim
                &&& centroid_error(q@, sp@, embeddings@, n as nat, dim as nat, threshold)
                    == if has_weightless(q@, clusters@) {
                    Some(Error::Shape(ShapeError::NonPositiveTotalWeight))
                } else {
                    None
                }
            },
        },
{
    let (rows, columns) = q.shape();
    if rows == 0 {
        return Err(Error::Shape(ShapeError::EmptyQ));
    }
    if columns == 0 {
        return Err(Error::Shape(ShapeError::ZeroQClusters));
    }
    if sp.len() != columns {
        return Err(Error::Shape(ShapeError::SpQClusterMismatch));
    }
    if n != rows {
        return Err(Error::Shape(ShapeError::EmbeddingsQRowMismatch));
    }
    if dim == 0 {
        return Err(Error::Shape(ShapeError::ZeroEmbeddingDim));
    }
    match n.checked_mul(dim) {
        None => {
            return Err(Error::Shape(ShapeError::EmbeddingsLenOverflow));
        },
        Some(size) => {
            if embeddings.len() != size {
                return Err(Error::Shape(ShapeError::EmbeddingsLenMismatch));
            }
        },
    }
    if !threshold.is_finite() {
        return Err(Error::Shape(ShapeError::NonFiniteSpThreshold));
    }
    if !is_all_finite(q.cells()) {
        return Err(Error::NonFinite(NonFiniteField::Q));
    }
    if !is_all_finite(sp) {
        return Err(Error::NonFinite(NonFiniteField::Sp));
    }
    if !is_all_finite(embeddings) {
        return Err(Error::NonFinite(NonFiniteField::Embeddings));
    }
    let lo: Double = threshold.mul(Double::from_bits(0x3fe0_0000_0000_0000));
    let hi: Double = threshold.mul(Double::from_bits(0x4000_0000_0000_0000));
    let mut clusters: Vec<usize> = Vec::new();
    let mut k: usize = 0;
    while k < sp.len()
        invariant
            k <= sp.len(),
            lo == halved(threshold),
            hi == doubled(threshold),
            ambiguity(sp@, threshold, 0) == ambiguity(sp@, threshold, k as nat),
            clusters@ == alive(sp@, threshold, k as nat),
            rows == q.height(),
            columns == q.width(),
            rows > 0,
            columns > 0,
            sp.len() == columns,
            n == rows,
            dim > 0,
            n * dim <= usize::MAX,
            embeddings.len() == n * dim,
            threshold.finite(),
            all_finite(q.row_major()),
            all_finite(sp@),
            all_finite(embeddings@),
        decreases sp.len() - k,
    {
        let value: Double = sp[k];
        if lo.lt(value) && value.lt(hi) {
            return Err(Error::AmbiguousAliveCluster { cluster: k, value, threshold, lo, hi });
        }
        if value.gt(threshold) {
            clusters.push(k);
        }
        k = k + 1;
    }
    if clusters.len() == 0 {
        return Err(Error::Shape(ShapeError::NoSurvivingClusters));
    }
    Ok(clusters)
}

/// The total weight of cluster `k`.
fn sum_weights(q: &DoubleMatrix, k: usize) -> (r: Double)
    requires
        k < q.width(),
    ensures
        r == total_weight(q@, k as int),
{
    let (rows, _) = q.shape();
    let mut total: Double = Double::zero();
    let mut t: usize = 0;
    while t < rows
        invariant
            rows == q.height(),
            k < q.width(),
            t <= rows,
            total == added(Double::zero_spec(), weights_of(q@, k as int), t as nat),
        decreases rows - t,
    {
        total = total.add(q.get(t, k));
        t = t + 1;
    }
    total
}

/// The mean embedding of each cluster whose prior is above the threshold, weighted by
/// the responsibilities `q`, a row per embedding. Priors that lie too close to the
/// threshold are refused.
pub fn weighted_centroids(
    q: &DoubleMatrix,
    sp: &[Double],
    embeddings: &[Double],
    num_train_embeddings: usize,
    embed_dim: usize,
    sp_threshold: Double,
) -> (r: Result<DoubleMatrix, Error>)
    requires
        centroid_error(
            q@,
            sp@,
            embeddings@,
            num_train_embeddings as nat,
            embed_dim as nat,
            sp_threshold,
        ) is None ==> q.width() * embed_dim <= usize::MAX,
    ensures
        match centroid_error(
            q@,
            sp@,
            embeddings@,
            num_train_embeddings as nat,
            embed_dim as nat,
            sp_threshold,
        ) {
            Some(e) => r == Err::<DoubleMatrix, Error>(e),
            None => r is Ok && r->Ok_0@ == centroids_of(
                q@,
                embeddings@,
                embed_dim as nat,
                alive(sp@, sp_threshold, sp@.len()),
            ),
        },
{
    let clusters: Vec<usize> = match check_input(
        q,
        sp,
        embeddings,
        num_train_embeddings,
        embed_dim,
        sp_threshold,
    ) {
        Ok(clusters) => clusters,
        Err(e) => {
            return Err(e);
        },
    };
    let n: usize = num_train_embeddings;
    let dim: usize = embed_dim;
    let priors: usize = sp.len();
    proof {
        lemma_alive(sp@, sp_threshold, priors as nat);
    }
    let mut totals: Vec<Double> = Vec::with_capacity(clusters.len());
    while totals.len() < clusters.len()
        invariant
            forall|i: int| 0 <= i < clusters.len() ==> #[trigger] clusters@[i] < q.width(),
            totals.len() <= clusters.len(),
            clusters@ == alive(sp@, sp_threshold, sp@.len()),
            n == num_train_embeddings,
            dim == embed_dim,
            centroid_error(q@, sp@, embeddings@, n as nat, dim as nat, sp_threshold)
                == if has_weightless(q@, clusters@) {
                Some(Error::Shape(ShapeError::NonPositiveTotalWeight))
            } else {
                None
            },
            forall|i: int|
                0 <= i < totals.len() ==> #[trigger] totals@[i] == total_weight(
                    q@,
                    clusters@[i] as int,
                ) && Double::zero_spec().below(totals@[i]),
        decreases clusters.len() - totals.len(),
    {
        let k: usize = clusters[totals.len()];
        let total: Double = sum_weights(q, k);
        if !total.gt(Double::zero()) {
            proof {
                assert(clusters@[totals.len() as int] == k);
                assert(has_weightless(q@, clusters@));
            }
            return Err(Error::Shape(ShapeError::NonPositiveTotalWeight));
        }
        totals.push(total);
    }
    proof {
        assert(!has_weightless(q@, clusters@)) by {
            if has_weightless(q@, clusters@) {
                let i = choose|i: int|
                    0 <= i < clusters@.len() && !Double::zero_spec().below(
                        total_weight(q@, #[trigger] clusters@[i] as int),
                    );
                assert(totals@[i] == total_weight(q@, clusters@[i] as int));
            }
        }
        assert(clusters.len() * dim <= q.width() * dim) by (nonlinear_arith)
            requires
                clusters.len() <= q.width(),
                0 <= dim,
        ;
    }
    let alive_clusters: &[usize] = clusters.as_slice();
    let sums: &[Double] = totals.as_slice();
    let cell = |i: usize, d: usize| -> (r: Double)
        requires
            i < alive_clusters@.len(),
            sums@.len() == alive_clusters@.len(),
            d < dim,
            embeddings@.len() == n * dim,
            n == q.height(),
            forall|i: int|
                0 <= i < alive_clusters@.len() ==> #[trigger] alive_clusters@[i] < q.width(),
            forall|i: int|
                0 <= i < sums@.len() ==> #[trigger] sums@[i] == total_weight(
                    q@,
                    alive_clusters@[i] as int,
                ),
        ensures
            r == weighted_mean(q@, embeddings@, dim as int, alive_clusters@[i as int] as int, d as int),
        { mean_coordinate(q, embeddings, n, dim, alive_clusters[i], d, sums[i]) };
    let centroids: DoubleMatrix = DoubleMatrix::tabulate(
        clusters.len(),
        dim,
        cell,
        Ghost(
            |i: int, d: int|
                weighted_mean(q@, embeddings@, dim as int, clusters@[i] as int, d),
        ),
    );
    Ok(centroids)
}

/// Coordinate `d` of the weighted mean of cluster `k`.
fn mean_coordinate(
    q: &DoubleMatrix,
    embeddings: &[Double],
    n: usize,
    dim: usize,
    k: usize,
    d: usize,
    total: Double,
) -> (r: Double)
    requires
        k < q.width(),
        d < dim,
        embeddings@.len() == n * dim,
        n == q.height(),
        total == total_weight(q@, k as int),
    ensures
        r == weighted_mean(q@, embeddings@, dim as int, k as int, d as int),
{
    let size: usize = embeddings.len();
    let mut sum: Double = Double::zero();
    let mut t: usize = 0;
    while t < n
        invariant
            k < q.width(),
            d < dim,
            size == n * dim,
            embeddings@.len() == n * dim,
            n == q.height(),
            t <= n,
            sum == added(
                Double::zero_spec(),
                weighted_terms(q@, embeddings@, dim as int, k as int, d as int),
                t as nat,
            ),
        decreases n - t,
    {
        proof {
            assert(0 <= t * dim && t * dim + dim <= n * dim) by (nonlinear_arith)
                requires
                    0 <= t < n,
                    0 <= dim,
            ;
        }
        sum = sum.add(q.get(t, k).mul(embeddings[t * dim + d]));
        t = t + 1;
    }
    sum.div(total)
}

/// Where no prior is ambiguous, the prior of every alive cluster is at least twice the
/// threshold.
pub proof fn law_alive_clusters_are_clearly_alive(sp: Seq<Double>, threshold: Double, n: nat)
    requires
        n <= sp.len(),
        sp.len() <= usize::MAX,
        ambiguity(sp, threshold, 0) is None,
        halved(threshold).at_most(threshold),
    ensures
        forall|i: int|
            0 <= i < alive(sp, threshold, n).len() ==> !sp[#[trigger] alive(sp, threshold, n)[i]
                as int].below(doubled(threshold)),
    decreases n,
{
    if n > 0 {
        let k = (n - 1) as nat;
        let before = alive(sp, threshold, k);
        law_alive_clusters_are_clearly_alive(sp, threshold, k);
        lemma_unambiguous(sp, threshold, 0, k as int);
        assert forall|i: int| 0 <= i < alive(sp, threshold, n).len() implies !sp[#[trigger] alive(
            sp,
            threshold,
            n,
        )[i] as int].below(doubled(threshold)) by {
            if i < before.len() {
                assert(alive(sp, threshold, n)[i] == before[i]);
            }
        }
    }
}

proof fn lemma_unambiguous(sp: Seq<Double>, threshold: Double, from: nat, k: int)
    requires
        ambiguity(sp, threshold, from) is None,
        from <= k < sp.len(),
    ensures
        !is_ambiguous(sp[k], threshold),
    decreases sp.len() - from,
{
    if from < k {
        lemma_unambiguous(sp, threshold, from + 1, k);
    }
}

} // verus!
