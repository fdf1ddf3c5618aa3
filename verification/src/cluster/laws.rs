//! What holds of every offline clustering.

use vstd::prelude::*;
use crate::cluster::error::Error;
use crate::cluster::kmeans::{all_moved, assigned, chosen_rows, first_above, nearest, picks, settled, unlabelled, MAX_ROUNDS};
use crate::cluster::offline::is_batch_answer;
use crate::cluster::options::{OfflineClusterOptions, OfflineMethod, MAX_AUTO_SPEAKERS};
use crate::cluster::spectral::{affinities, eigen_labels, has_isolated, is_cluster_count, is_decomposition, is_eigen_answer, law_cluster_count_is_bounded, lemma_ascending_exists, lemma_cluster_count, row_labels, sorted_values, sorted_vectors, unit_rows, Eigen};
use crate::embed::types::Embedding;
use crate::float::double::{binary64, lemma_double_format, Double};
use crate::float::laws::{law_sum_covers_its_terms, lemma_sum_with_zero, plain};
use crate::float::order::lemma_of_num;
use crate::float::sums::added;
use crate::matrix::{DoubleMatrix, Grid};

verus! {

/// Weights that are numbers without a negative sign add up to such a number.
proof fn lemma_added_plain(weights: Seq<Double>, n: nat)
    requires
        n <= weights.len(),
        forall|i: int| 0 <= i < weights.len() ==> plain(binary64(), (#[trigger] weights[i]).num()),
    ensures
        plain(binary64(), added(Double::zero_spec(), weights, n).num()),
    decreases n,
{
    lemma_double_format();
    if n > 0 {
        lemma_added_plain(weights, (n - 1) as nat);
        let x = added(Double::zero_spec(), weights, (n - 1) as nat).num();
        let y = weights[n - 1].num();
        assert(plain(binary64(), y));
        law_sum_covers_its_terms(binary64(), x, y);
        lemma_of_num(binary64().plus(x, y));
    }
}

/// The search ends where the sum exceeds `t`, which it does not before.
proof fn lemma_first_above(weights: Seq<Double>, t: Double, j: nat)
    requires
        j <= weights.len(),
    ensures
        ({
            let r = first_above(weights, t, j);
            &&& j <= r < weights.len() || r == weights.len() - 1
            &&& forall|i: int|
                j <= i < r ==> !t.below(#[trigger] added(Double::zero_spec(), weights, (i + 1) as nat))
        }),
    decreases weights.len() - j,
{
    if j < weights.len() && !t.below(added(Double::zero_spec(), weights, j + 1)) {
        lemma_first_above(weights, t, j + 1);
        let r = first_above(weights, t, j);
        assert forall|i: int| j <= i < r implies !t.below(
            #[trigger] added(Double::zero_spec(), weights, (i + 1) as nat),
        ) by {
            if i == j {
                assert((i + 1) as nat == j + 1);
            }
        }
    }
}

/// The row that the running sum of the weights picks has a weight of its own: a row
/// of weight zero, such as one that was chosen before, is never picked so.
pub proof fn law_picked_row_has_weight(weights: Seq<Double>, t: Double)
    requires
        weights.len() > 0,
        forall|i: int| 0 <= i < weights.len() ==> plain(binary64(), (#[trigger] weights[i]).num()),
        plain(binary64(), t.num()),
        ({
            let r = first_above(weights, t, 0);
            t.below(added(Double::zero_spec(), weights, (r + 1) as nat))
        }),
    ensures
        ({
            let r = first_above(weights, t, 0);
            0 <= r < weights.len() && Double::zero_spec().below(weights[r])
        }),
{
    lemma_double_format();
    let r = first_above(weights, t, 0);
    lemma_first_above(weights, t, 0);
    let f = binary64();
    let before = added(Double::zero_spec(), weights, r as nat);
    let w = weights[r].num();
    assert(plain(f, w));
    lemma_added_plain(weights, r as nat);
    if w.magnitude == 0 {
        lemma_sum_with_zero(f, before.num(), w);
        lemma_of_num(f.plus(before.num(), w));
        assert(added(Double::zero_spec(), weights, (r + 1) as nat) == before.plus(weights[r]));
        if r > 0 {
            assert(!t.below(added(Double::zero_spec(), weights, ((r - 1) + 1) as nat)));
        }
    }
}

proof fn lemma_nearest_in_range(m: Grid, j: int, points: Seq<Seq<Double>>, k: nat)
    requires
        k <= points.len(),
    ensures
        0 <= nearest(m, j, points, k).0,
        k > 0 ==> nearest(m, j, points, k).0 < k,
    decreases k,
{
    if k > 0 {
        lemma_nearest_in_range(m, j, points, (k - 1) as nat);
    }
}

/// Labels are positions of points.
proof fn lemma_settled_in_range(
    m: Grid,
    points: Seq<Seq<Double>>,
    labels: Seq<usize>,
    rounds: nat,
    j: int,
)
    requires
        0 < points.len() <= usize::MAX,
        rounds > 0,
        0 <= j < m.height,
    ensures
        settled(m, points, labels, rounds).len() == m.height,
        settled(m, points, labels, rounds)[j] < points.len(),
    decreases rounds,
{
    lemma_nearest_in_range(m, j, points, points.len());
    let next = assigned(m, points);
    if next != labels && rounds > 1 {
        lemma_settled_in_range(m, all_moved(m, next, points), next, (rounds - 1) as nat, j);
    } else if next != labels {
        assert(settled(m, all_moved(m, next, points), next, 0) == next);
    }
}

proof fn lemma_picks_count(m: Grid, k: nat, seed: u64)
    requires
        k >= 1,
    ensures
        picks(m, k, seed).chosen.len() == k,
    decreases k,
{
    if k > 1 {
        lemma_picks_count(m, (k - 1) as nat, seed);
    }
}

/// Spectral labels run below the number of clusters, which is the target or at most
/// [`MAX_AUTO_SPEAKERS`]. There is one label per eigenvalue.
pub proof fn law_spectral_labels_are_bounded(
    eigen: Eigen,
    target: Option<u32>,
    seed: u64,
    k: int,
)
    requires
        eigen.values@.len() >= 1,
        eigen.values@.len() <= usize::MAX,
        eigen.has_size(eigen.values@.len()),
        is_cluster_count(sorted_values(eigen), target, k),
        target is Some ==> 1 <= target->0 <= eigen.values@.len(),
    ensures
        eigen_labels(eigen, target, seed).len() == eigen.values@.len(),
        forall|i: int|
            0 <= i < eigen_labels(eigen, target, seed).len() ==> #[trigger] eigen_labels(
                eigen,
                target,
                seed,
            )[i] < k,
        target is None ==> k <= MAX_AUTO_SPEAKERS,
        target is Some ==> k == target->0,
{
    lemma_ascending_exists(eigen.values@);
    lemma_cluster_count(sorted_values(eigen), target, k);
    law_cluster_count_is_bounded(sorted_values(eigen), target, k);
    let u = unit_rows(sorted_vectors(eigen), k as nat);
    let points = chosen_rows(u, picks(u, k as nat, seed).chosen);
    lemma_picks_count(u, k as nat, seed);
    let labels = row_labels(u, k as nat, seed);
    assert(u.height == eigen.values@.len());
    lemma_settled_in_range(u, points, unlabelled(u.height), MAX_ROUNDS as nat, 0);
    assert forall|i: int| 0 <= i < eigen_labels(eigen, target, seed).len() implies
        #[trigger] eigen_labels(eigen, target, seed)[i] < k by {
        lemma_settled_in_range(u, points, unlabelled(u.height), MAX_ROUNDS as nat, i);
    }
}

/// Where every embedding is similar to some other, spectral clustering of three or
/// more gives the same answers whatever the similarity threshold.
pub proof fn law_spectral_ignores_the_threshold<F: Fn(&DoubleMatrix) -> Eigen>(
    r: Result<Vec<u64>, Error>,
    embeddings: Seq<Embedding>,
    a: OfflineClusterOptions,
    b: OfflineClusterOptions,
    decompose: F,
)
    requires
        a.how() == OfflineMethod::Spectral,
        b.how() == OfflineMethod::Spectral,
        a.target() == b.target(),
        a.chosen_seed() == b.chosen_seed(),
        !has_isolated(affinities(embeddings)),
    ensures
        is_batch_answer(r, embeddings, a, decompose) == is_batch_answer(
            r,
            embeddings,
            b,
            decompose,
        ),
{
    lemma_same_answers(r, embeddings, a, b, decompose);
    lemma_same_answers(r, embeddings, b, a, decompose);
}

proof fn lemma_same_answers<F: Fn(&DoubleMatrix) -> Eigen>(
    r: Result<Vec<u64>, Error>,
    embeddings: Seq<Embedding>,
    a: OfflineClusterOptions,
    b: OfflineClusterOptions,
    decompose: F,
)
    requires
        a.how() == OfflineMethod::Spectral,
        b.how() == OfflineMethod::Spectral,
        a.target() == b.target(),
        a.chosen_seed() == b.chosen_seed(),
        !has_isolated(affinities(embeddings)),
    ensures
        is_batch_answer(r, embeddings, a, decompose) ==> is_batch_answer(
            r,
            embeddings,
            b,
            decompose,
        ),
{
    if is_batch_answer(r, embeddings, a, decompose) {
        let eigen = choose|eigen: Eigen| #[trigger]
            is_decomposition(decompose, embeddings, eigen)
                && is_eigen_answer(r, eigen, a);
        assert(is_eigen_answer(r, eigen, b));
    }
}

} // verus!
