//! What holds of every assignment.

use vstd::prelude::*;
use crate::aggregate::count::all_finite;
use crate::cluster::hungarian::algo::{chosen_partners, exact_units, is_best_labelling, is_chosen_labelling, is_labelling, UNMATCHED};
use crate::cluster::hungarian::assignment::{iota, is_assignment, is_best, positions, total};
use crate::cluster::hungarian::lsap::{assignment_error, lemma_solved, solved, working_matrix};
use crate::cluster::hungarian::optimal::{is_exact_run, lemma_exact_solution};
use crate::cluster::hungarian::orientation::{is_ascending, is_listing, lemma_ascending_rows, lemma_best_listed, lemma_best_reoriented, lemma_source, other_count, pair_count, paired_rows, source};
use crate::cluster::hungarian::sums::{is_selection, lemma_picked_all, lemma_selection_is_full, picked, sum};
use crate::cluster::hungarian::weight::values;
use crate::cluster::hungarian::whole::{is_limited, lemma_step_negated, lemma_step_run, on_step};
use crate::float::arith::abs;
use crate::float::double::lemma_double_format;
use crate::float::Double;

verus! {

/// No sum that the search forms for an assignment problem is rounded.
pub open spec fn is_unrounded(cost: Seq<Double>, nr: int, nc: int, maximize: bool) -> bool {
    is_exact_run::<Double>(
        working_matrix(cost, nr, nc, maximize),
        pair_count(nr, nc),
        other_count(nr, nc),
        pair_count(nr, nc) as nat,
    )
}

/// Negating a finite number negates its value.
proof fn lemma_negated_units(x: Double)
    requires
        x.finite(),
    ensures
        x.negated().finite(),
        x.negated().units() == -x.units(),
{
    lemma_double_format();
    crate::float::order::lemma_of_num(x.num());
}

/// An assignment problem of finite costs is never refused, however large the costs and
/// whatever sums are rounded: each row of the matrix that is solved gets a column of
/// its own.
pub proof fn law_finite_costs_are_assigned(cost: Seq<Double>, nr: int, nc: int, maximize: bool)
    requires
        0 < nr <= usize::MAX,
        0 < nc <= usize::MAX,
        cost.len() == nr * nc,
        all_finite(cost),
    ensures
        assignment_error(cost, nr, nc) is None,
        solved(cost, nr, nc, maximize) is Some,
        solved(cost, nr, nc, maximize)->0.len() == pair_count(nr, nc),
        is_selection(positions(solved(cost, nr, nc, maximize)->0), other_count(nr, nc)),
{
    lemma_solved(cost, nr, nc, maximize);
}

/// Where no sum that the search forms is rounded, an assignment problem of finite
/// costs is solved, and its pairs have the least total cost, or the greatest if
/// `maximize`, of all assignments, in exact arithmetic.
pub proof fn law_assignment_is_best(
    cost: Seq<Double>,
    nr: int,
    nc: int,
    maximize: bool,
    rows: Seq<usize>,
    cols: Seq<usize>,
)
    requires
        0 < nr <= usize::MAX,
        0 < nc <= usize::MAX,
        cost.len() == nr * nc,
        all_finite(cost),
        is_unrounded(cost, nr, nc, maximize),
    ensures
        solved(cost, nr, nc, maximize) is Some,
        is_listing(solved(cost, nr, nc, maximize)->0, nr, nc, rows, cols) ==> is_best(
            exact_units(cost),
            nr,
            nc,
            maximize,
            positions(rows),
            positions(cols),
        ),
{
    let w = working_matrix(cost, nr, nc, maximize);
    let n = pair_count(nr, nc);
    let m = other_count(nr, nc);
    assert(nc * nr == nr * nc) by (nonlinear_arith);
    lemma_exact_solution::<Double>(w, n, m);
    let partner = solved(cost, nr, nc, maximize)->0;
    let costs = values::<Double>(w);
    let weights = exact_units(cost);
    assert(is_selection(iota(n), n));
    assert(is_best(costs, n, m, false, iota(n), positions(partner)));
    assert forall|t: int| 0 <= t < costs.len() implies #[trigger] costs[t] == (if maximize {
        -1int
    } else {
        1int
    }) * weights[source(t, nr, nc)] by {
        lemma_source(t, nr, nc);
        let x = cost[source(t, nr, nc)];
        assert(x.finite());
        lemma_negated_units(x);
        assert(weights[source(t, nr, nc)] == x.units());
        assert(-1 * x.units() == -x.units());
        assert(1 * x.units() == x.units());
        assert(costs[t] == w[t].units());
        assert(w[t] == if maximize { x.negated() } else { x });
    }
    lemma_best_reoriented(weights, nr, nc, maximize, maximize, costs, partner);
    if is_listing(partner, nr, nc, rows, cols) {
        lemma_best_listed(weights, nr, nc, maximize, partner, rows, cols);
    }
}

/// Costs that are whole multiples of a power of two, none so large that eight of them
/// have more than 53 digits, are added up without rounding: integers below `2^50`, for
/// example. Their assignment is best.
pub proof fn law_whole_costs_get_a_best_assignment(
    cost: Seq<Double>,
    nr: int,
    nc: int,
    maximize: bool,
    e: nat,
    limit: int,
    rows: Seq<usize>,
    cols: Seq<usize>,
)
    requires
        0 < nr <= usize::MAX,
        0 < nc <= usize::MAX,
        cost.len() == nr * nc,
        is_limited(cost, e, limit),
    ensures
        is_unrounded(cost, nr, nc, maximize),
        solved(cost, nr, nc, maximize) is Some,
        is_listing(solved(cost, nr, nc, maximize)->0, nr, nc, rows, cols) ==> is_best(
            exact_units(cost),
            nr,
            nc,
            maximize,
            positions(rows),
            positions(cols),
        ),
{
    let w = working_matrix(cost, nr, nc, maximize);
    assert(nc * nr == nr * nc) by (nonlinear_arith);
    assert forall|t: int| 0 <= t < w.len() implies on_step(#[trigger] w[t], e) && abs(w[t].units())
        <= limit by {
        lemma_source(t, nr, nc);
        let x = cost[source(t, nr, nc)];
        assert(on_step(x, e) && abs(x.units()) <= limit);
        lemma_step_negated(x, e);
    }
    let n = pair_count(nr, nc);
    lemma_step_run(w, n, other_count(nr, nc), e, limit, n as nat);
    assert forall|t: int| 0 <= t < cost.len() implies (#[trigger] cost[t]).finite() by {
        assert(on_step(cost[t], e));
    }
    law_assignment_is_best(cost, nr, nc, maximize, rows, cols);
}

/// In a best labelling every label is a cluster or [`UNMATCHED`], and no cluster
/// is given to two speakers.
pub proof fn law_labels_are_distinct(
    labels: Seq<i32>,
    cells: Seq<Double>,
    speakers: int,
    clusters: int,
    s: int,
    t: int,
)
    requires
        is_best_labelling(labels, cells, speakers, clusters),
        0 <= s < speakers,
        0 <= t < speakers,
        s != t,
    ensures
        labels[s] == UNMATCHED || 0 <= labels[s] < clusters,
        labels[s] == labels[t] ==> labels[s] == UNMATCHED,
{
    let weights = exact_units(cells);
    let (rows, cols) = choose|rows: Seq<int>, cols: Seq<int>| #[trigger]
        is_best(weights, speakers, clusters, true, rows, cols) && is_labelling(labels, rows, cols);
    if rows.contains(s) {
        let a = choose|a: int| 0 <= a < rows.len() && rows[a] == s;
        assert(labels[rows[a]] == cols[a]);
        if rows.contains(t) {
            let b = choose|b: int| 0 <= b < rows.len() && rows[b] == t;
            assert(labels[rows[b]] == cols[b]);
            assert(cols[a] != cols[b]);
        }
    }
}

/// With enough clusters every speaker gets one.
pub proof fn law_all_speakers_matched(
    labels: Seq<i32>,
    cells: Seq<Double>,
    speakers: int,
    clusters: int,
    s: int,
)
    requires
        is_best_labelling(labels, cells, speakers, clusters),
        speakers <= clusters,
        0 <= s < speakers,
    ensures
        0 <= labels[s] < clusters,
{
    let weights = exact_units(cells);
    let (rows, cols) = choose|rows: Seq<int>, cols: Seq<int>| #[trigger]
        is_best(weights, speakers, clusters, true, rows, cols) && is_labelling(labels, rows, cols);
    lemma_selection_is_full(rows, speakers);
    assert(rows.contains(s));
    let a = choose|a: int| 0 <= a < rows.len() && rows[a] == s;
    assert(labels[rows[a]] == cols[a]);
}

/// With no more clusters than speakers every cluster is used.
pub proof fn law_all_clusters_used(
    labels: Seq<i32>,
    cells: Seq<Double>,
    speakers: int,
    clusters: int,
    k: int,
) -> (s: int)
    requires
        is_best_labelling(labels, cells, speakers, clusters),
        clusters <= speakers,
        0 <= k < clusters,
    ensures
        0 <= s < speakers,
        labels[s] == k,
{
    let weights = exact_units(cells);
    let (rows, cols) = choose|rows: Seq<int>, cols: Seq<int>| #[trigger]
        is_best(weights, speakers, clusters, true, rows, cols) && is_labelling(labels, rows, cols);
    lemma_selection_is_full(cols, clusters);
    assert(cols.contains(k));
    let a = choose|a: int| 0 <= a < cols.len() && cols[a] == k;
    assert(labels[rows[a]] == cols[a]);
    rows[a]
}

/// The exact weight of each speaker's label, zero for a speaker left over.
pub open spec fn label_weights(labels: Seq<i32>, cells: Seq<Double>, clusters: int) -> Seq<int> {
    Seq::new(
        labels.len(),
        |s: int|
            if labels[s] == UNMATCHED {
                0
            } else {
                exact_units(cells)[s * clusters + labels[s]]
            },
    )
}

/// One for each speaker with a cluster.
pub open spec fn matched_marks(labels: Seq<i32>) -> Seq<int> {
    Seq::new(labels.len(), |s: int| if labels[s] == UNMATCHED { 0int } else { 1int })
}

/// What a labelling takes from the pairs that it comes from.
proof fn lemma_labelling_picked(
    labels: Seq<i32>,
    cells: Seq<Double>,
    speakers: int,
    clusters: int,
    rows: Seq<int>,
    cols: Seq<int>,
)
    requires
        labels.len() == speakers,
        rows.len() == cols.len(),
        forall|k: int| 0 <= k < rows.len() ==> 0 <= #[trigger] rows[k] < speakers,
        forall|k: int| 0 <= k < cols.len() ==> 0 <= #[trigger] cols[k] < clusters,
        forall|k: int| 0 <= k < rows.len() ==> labels[#[trigger] rows[k]] == cols[k],
    ensures
        total(exact_units(cells), clusters, rows, cols) == picked(
            label_weights(labels, cells, clusters),
            rows,
        ),
        picked(matched_marks(labels), rows) == rows.len(),
    decreases rows.len(),
{
    if rows.len() > 0 {
        let r = rows.drop_last();
        let c = cols.drop_last();
        assert(forall|k: int| 0 <= k < r.len() ==> r[k] == #[trigger] rows[k]);
        assert(forall|k: int| 0 <= k < c.len() ==> c[k] == #[trigger] cols[k]);
        lemma_labelling_picked(labels, cells, speakers, clusters, r, c);
        let n = rows.len() - 1;
        assert(rows.last() == rows[n] && cols.last() == cols[n]);
        assert(labels[rows[n]] == cols[n]);
        assert(0 <= cols[n] < clusters);
    }
}

/// A best labelling gives clusters to as many speakers as there are speakers or
/// clusters, whichever are fewer, and no matching of so many pairs outweighs its labels
/// in exact arithmetic.
pub proof fn law_labels_weigh_most(
    labels: Seq<i32>,
    cells: Seq<Double>,
    speakers: int,
    clusters: int,
    other_rows: Seq<int>,
    other_cols: Seq<int>,
)
    requires
        is_best_labelling(labels, cells, speakers, clusters),
        is_assignment(other_rows, other_cols, speakers, clusters),
    ensures
        sum(matched_marks(labels)) == pair_count(speakers, clusters),
        total(exact_units(cells), clusters, other_rows, other_cols) <= sum(
            label_weights(labels, cells, clusters),
        ),
{
    let weights = exact_units(cells);
    let (rows, cols) = choose|rows: Seq<int>, cols: Seq<int>| #[trigger]
        is_best(weights, speakers, clusters, true, rows, cols) && is_labelling(labels, rows, cols);
    lemma_labelling_picked(labels, cells, speakers, clusters, rows, cols);
    let f = label_weights(labels, cells, clusters);
    let g = matched_marks(labels);
    assert forall|s: int| 0 <= s < f.len() && !rows.contains(s) implies #[trigger] f[s] == 0 by {
        assert(labels[s] == UNMATCHED);
    }
    assert forall|s: int| 0 <= s < g.len() && !rows.contains(s) implies #[trigger] g[s] == 0 by {
        assert(labels[s] == UNMATCHED);
    }
    lemma_picked_all(f, rows);
    lemma_picked_all(g, rows);
    assert(total(weights, clusters, other_rows, other_cols) <= total(weights, clusters, rows, cols));
}

/// The labels of a chunk are determined by its costs: repeated calls agree.
pub proof fn law_labels_are_determined(
    a: Seq<i32>,
    b: Seq<i32>,
    cells: Seq<Double>,
    speakers: int,
    clusters: int,
)
    requires
        is_chosen_labelling(a, cells, speakers, clusters),
        is_chosen_labelling(b, cells, speakers, clusters),
        a.len() == speakers,
        b.len() == speakers,
    ensures
        a == b,
{
    let rows = paired_rows(chosen_partners(cells, speakers, clusters), speakers, clusters);
    assert forall|s: int| 0 <= s < speakers implies a[s] == b[s] by {
        if rows.contains(s) {
            let k = choose|k: int| 0 <= k < rows.len() && rows[k] == s;
            assert(a[rows[k]] == b[rows[k]]);
        } else {
            assert(a[s] == UNMATCHED && b[s] == UNMATCHED);
        }
    }
    assert(a =~= b);
}

/// Of two listings of the same pairs by ascending rows, the first `p` rows agree.
proof fn lemma_rows_agree(
    partner: Seq<usize>,
    rows: Seq<usize>,
    cols: Seq<usize>,
    rows2: Seq<usize>,
    cols2: Seq<usize>,
    n: int,
    p: int,
)
    requires
        rows.len() == n,
        rows2.len() == n,
        is_ascending(rows),
        is_ascending(rows2),
        cols.len() == n,
        cols2.len() == n,
        is_selection(positions(cols), n),
        is_selection(positions(cols2), n),
        forall|k: int| 0 <= k < n ==> #[trigger] rows[k] == partner[cols[k] as int],
        forall|k: int| 0 <= k < n ==> #[trigger] rows2[k] == partner[cols2[k] as int],
        0 <= p <= n,
    ensures
        forall|k: int| 0 <= k < p ==> #[trigger] rows[k] == rows2[k],
    decreases p,
{
    if p > 0 {
        let q = p - 1;
        lemma_rows_agree(partner, rows, cols, rows2, cols2, n, q);
        lemma_selection_is_full(positions(cols), n);
        lemma_selection_is_full(positions(cols2), n);
        assert(positions(cols)[q] == cols[q] && positions(cols2)[q] == cols2[q]);
        assert(0 <= positions(cols)[q] < n && 0 <= positions(cols2)[q] < n);
        assert(positions(cols2).contains(cols[q] as int));
        assert(positions(cols).contains(cols2[q] as int));
        let i = choose|i: int| 0 <= i < n && positions(cols2)[i] == cols[q];
        let j = choose|j: int| 0 <= j < n && positions(cols)[j] == cols2[q];
        assert(rows2[i] == rows[q]);
        assert(rows[j] == rows2[q]);
        if rows[q] < rows2[q] {
            if i < q {
                assert(rows[i] == rows2[i]);
            } else if i > q {
                assert(rows2[q] < rows2[i]);
            }
        } else if rows2[q] < rows[q] {
            if j < q {
                assert(rows[j] == rows2[j]);
            } else if j > q {
                assert(rows[q] < rows[j]);
            }
        }
    }
}

/// The pairs of an assignment problem are determined by its costs, ties included:
/// repeated calls agree.
pub proof fn law_assignment_is_determined(
    cost: Seq<Double>,
    nr: int,
    nc: int,
    maximize: bool,
    rows: Seq<usize>,
    cols: Seq<usize>,
    rows2: Seq<usize>,
    cols2: Seq<usize>,
)
    requires
        is_listing(solved(cost, nr, nc, maximize)->0, nr, nc, rows, cols),
        is_listing(solved(cost, nr, nc, maximize)->0, nr, nc, rows2, cols2),
    ensures
        rows == rows2,
        cols == cols2,
{
    let n = rows.len() as int;
    let partner = solved(cost, nr, nc, maximize)->0;
    if nc < nr {
        lemma_rows_agree(partner, rows, cols, rows2, cols2, n, n);
        lemma_selection_is_full(positions(cols2), n);
        assert forall|k: int| 0 <= k < n implies cols[k] == cols2[k] by {
            assert(positions(cols)[k] == cols[k]);
            assert(0 <= positions(cols)[k] < n);
            assert(positions(cols2).contains(cols[k] as int));
            let i = choose|i: int| 0 <= i < n && positions(cols2)[i] == cols[k];
            assert(rows2[i] == rows[k]);
            assert(rows[k] == rows2[k]);
            if i < k {
                assert(rows2[i] < rows2[k]);
            } else if k < i {
                assert(rows2[k] < rows2[i]);
            }
        }
        assert(cols =~= cols2);
    } else {
        lemma_ascending_rows(rows, nr);
        lemma_ascending_rows(rows2, nr);
    }
    assert(rows =~= rows2);
}

} // verus!
