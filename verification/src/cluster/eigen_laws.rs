//! How eigenvalues are ordered, and where the clusters end.

use vstd::arithmetic::power2::{lemma_pow2_adds, lemma_pow2_strictly_increases, pow2};
use vstd::prelude::*;
use crate::cluster::options::MAX_AUTO_SPEAKERS;
use crate::cluster::spectral::{ascending, gap, is_ascending_order, is_cluster_count, lemma_ascending_exists, lemma_order_covers, precedes, sorted_values, sorted_vectors, total_rank, Eigen};
use crate::float::about::is_within;
use crate::float::arith::{abs, law_rank_orders_values};
use crate::float::double::{binary64, lemma_double_format};
use crate::float::error::law_difference_is_close;
use crate::float::grid::distance;
use crate::float::Double;
use crate::matrix::lemma_tabulated_cell;

verus! {

/// The total order goes by value.
proof fn lemma_total_order(x: Double, y: Double)
    requires
        total_rank(x) <= total_rank(y),
    ensures
        x.units() <= y.units(),
{
    lemma_double_format();
    law_rank_orders_values(binary64(), x.num(), y.num());
}

/// The sorted eigenvalues ascend.
pub proof fn law_sorted_eigenvalues_ascend(eigen: Eigen, p: int, q: int)
    requires
        0 <= p < q < eigen.values@.len(),
    ensures
        sorted_values(eigen).len() == eigen.values@.len(),
        sorted_values(eigen)[p].units() <= sorted_values(eigen)[q].units(),
{
    let values = eigen.values@;
    assert(eigen.values.len() == values.len());
    lemma_ascending_exists(values);
    let order = ascending(values);
    assert(is_ascending_order(values, order));
    assert(precedes(values, order[p] as int, order[q] as int));
    lemma_total_order(values[order[p] as int], values[order[q] as int]);
}

/// Sorting moves every eigenvalue to some place, and its vector to the column of that
/// place.
pub proof fn law_vectors_move_with_their_values(eigen: Eigen, i: int) -> (p: int)
    requires
        eigen.has_size(eigen.values@.len()),
        0 <= i < eigen.values@.len(),
    ensures
        0 <= p < sorted_values(eigen).len(),
        sorted_values(eigen)[p] == eigen.values@[i],
        forall|r: int|
            0 <= r < eigen.values@.len() ==> #[trigger] sorted_vectors(eigen).at(r, p)
                == eigen.vectors.at(r, i),
{
    let values = eigen.values@;
    assert(eigen.values.len() == values.len());
    lemma_ascending_exists(values);
    let order = ascending(values);
    assert(is_ascending_order(values, order));
    lemma_order_covers(values, order, i);
    let p = choose|p: int| 0 <= p < order.len() && #[trigger] order[p] == i;
    assert forall|r: int| 0 <= r < values.len() implies #[trigger] sorted_vectors(eigen).at(r, p)
        == eigen.vectors.at(r, i) by {
        lemma_tabulated_cell(
            eigen.vectors.height(),
            order.len(),
            |i: int, j: int| eigen.vectors.at(i, order[j] as int),
            r,
            p,
        );
    }
    p
}

/// Without a target the clusters end at the largest gap among the first eigenvalues: no
/// gap up to [`MAX_AUTO_SPEAKERS`] is larger, up to rounding.
pub proof fn law_clusters_end_at_the_largest_gap(values: Seq<Double>, k: int, i: int)
    requires
        is_cluster_count(values, None, k),
        forall|j: int| 0 <= j < values.len() ==> is_within(#[trigger] values[j], 1174),
        0 <= i < values.len() - 1,
        i < MAX_AUTO_SPEAKERS,
    ensures
        1 <= k < values.len(),
        k <= MAX_AUTO_SPEAKERS,
        ({
            let other = values[i + 1].units() - values[i].units();
            let own = values[k].units() - values[k - 1].units();
            0x10_0000_0000_0000 * (other - own) <= abs(other) + abs(own)
        }),
{
    lemma_gap_is_close(values, i);
    lemma_gap_is_close(values, k - 1);
    let (a, b) = (gap(values, i), gap(values, k - 1));
    assert(total_rank(a) <= total_rank(b));
    lemma_total_order(a, b);
}

/// A gap is the difference, up to rounding.
proof fn lemma_gap_is_close(values: Seq<Double>, i: int)
    requires
        0 <= i < values.len() - 1,
        forall|j: int| 0 <= j < values.len() ==> is_within(#[trigger] values[j], 1174),
    ensures
        0x10_0000_0000_0000 * distance(
            gap(values, i).units(),
            values[i + 1].units() - values[i].units(),
        ) <= abs(values[i + 1].units() - values[i].units()),
{
    lemma_pow2_adds(1, 1174);
    lemma_pow2_strictly_increases(1175, 2045);
    vstd::arithmetic::power2::lemma2_to64();
    assert(is_within(values[i], 1174) && is_within(values[i + 1], 1174));
    assert(pow2(1175) == 2 * pow2(1174)) by (nonlinear_arith)
        requires
            pow2(1175) == pow2(1) * pow2(1174),
            pow2(1) == 2,
    ;
    law_difference_is_close(values[i + 1], values[i]);
}

} // verus!
