//! Assignments, their totals, and when they are optimal.

use vstd::prelude::*;
use crate::cluster::hungarian::sums::{is_selection, lemma_index, lemma_picked_all, lemma_picked_full, lemma_picked_nonpositive, picked};

verus! {

/// The total weight of the pairs `(rows[k], cols[k])` of a row-major matrix with
/// `nc` columns.
pub open spec fn total(weights: Seq<int>, nc: int, rows: Seq<int>, cols: Seq<int>) -> int
    decreases rows.len(),
{
    if rows.len() == 0 {
        0
    } else {
        total(weights, nc, rows.drop_last(), cols.drop_last()) + weights[rows.last() * nc
            + cols.last()]
    }
}

/// As many pairs as fit, no row and no column twice.
pub open spec fn is_assignment(rows: Seq<int>, cols: Seq<int>, nr: int, nc: int) -> bool {
    &&& rows.len() == cols.len() == if nr <= nc { nr } else { nc }
    &&& is_selection(rows, nr)
    &&& is_selection(cols, nc)
}

/// `(rows[k], cols[k])` is an assignment whose total is least, or greatest if
/// `maximize`.
pub open spec fn is_best(
    weights: Seq<int>,
    nr: int,
    nc: int,
    maximize: bool,
    rows: Seq<int>,
    cols: Seq<int>,
) -> bool {
    &&& is_assignment(rows, cols, nr, nc)
    &&& forall|rows2: Seq<int>, cols2: Seq<int>|
        is_assignment(rows2, cols2, nr, nc) ==> if maximize {
            #[trigger] total(weights, nc, rows2, cols2) <= total(weights, nc, rows, cols)
        } else {
            total(weights, nc, rows, cols) <= total(weights, nc, rows2, cols2)
        }
}

/// `0, 1, .., n - 1`.
pub open spec fn iota(n: int) -> Seq<int> {
    Seq::new(n as nat, |i: int| i)
}

/// The entries as mathematical integers.
pub open spec fn ints(s: Seq<i128>) -> Seq<int> {
    Seq::new(s.len(), |i: int| s[i] as int)
}

/// Cost of row `i` in column `j`.
pub open spec fn cell(cost: Seq<int>, nc: int, i: int, j: int) -> int {
    cost[i * nc + j]
}

/// Cost of row `i` in column `j`, less the dual variables.
pub open spec fn reduced(cost: Seq<int>, nc: int, u: Seq<int>, v: Seq<int>, i: int, j: int) -> int {
    cell(cost, nc, i, j) - u[i] - v[j]
}

/// The positions as mathematical integers.
pub open spec fn positions(s: Seq<usize>) -> Seq<int> {
    Seq::new(s.len(), |i: int| s[i] as int)
}

/// Feasible dual variables bound every total from below.
pub proof fn lemma_weak_duality(
    cost: Seq<int>,
    nr: int,
    nc: int,
    u: Seq<int>,
    v: Seq<int>,
    rows: Seq<int>,
    cols: Seq<int>,
)
    requires
        cost.len() == nr * nc,
        u.len() == nr,
        v.len() == nc,
        rows.len() == cols.len(),
        forall|k: int| 0 <= k < rows.len() ==> 0 <= #[trigger] rows[k] < nr,
        forall|k: int| 0 <= k < cols.len() ==> 0 <= #[trigger] cols[k] < nc,
        forall|i: int, j: int|
            0 <= i < nr && 0 <= j < nc ==> #[trigger] reduced(cost, nc, u, v, i, j) >= 0,
    ensures
        total(cost, nc, rows, cols) >= picked(u, rows) + picked(v, cols),
        (forall|k: int|
            0 <= k < rows.len() ==> #[trigger] reduced(cost, nc, u, v, rows[k], cols[k]) == 0)
            ==> total(cost, nc, rows, cols) == picked(u, rows) + picked(v, cols),
    decreases rows.len(),
{
    if rows.len() > 0 {
        let r = rows.drop_last();
        let c = cols.drop_last();
        assert(forall|k: int| 0 <= k < r.len() ==> r[k] == #[trigger] rows[k]);
        assert(forall|k: int| 0 <= k < c.len() ==> c[k] == #[trigger] cols[k]);
        lemma_weak_duality(cost, nr, nc, u, v, r, c);
        let n = rows.len() - 1;
        let i = rows[n];
        let j = cols[n];
        lemma_index(nr, nc, i, j);
        assert(reduced(cost, nc, u, v, i, j) >= 0);
        assert(cost[i * nc + j] == cell(cost, nc, i, j));
        assert(rows.last() == i && cols.last() == j);
        if forall|k: int|
            0 <= k < rows.len() ==> #[trigger] reduced(cost, nc, u, v, rows[k], cols[k]) == 0 {
            assert forall|k: int| 0 <= k < r.len() implies #[trigger] reduced(
                cost,
                nc,
                u,
                v,
                r[k],
                c[k],
            ) == 0 by {
                assert(reduced(cost, nc, u, v, rows[k], cols[k]) == 0);
            }
            assert(reduced(cost, nc, u, v, rows[n], cols[n]) == 0);
        }
    }
}

/// A matching whose pairs are tight under feasible dual variables, with no price
/// on the columns left free, is of least total weight.
pub proof fn lemma_optimal(
    cost: Seq<int>,
    nr: int,
    nc: int,
    u: Seq<int>,
    v: Seq<int>,
    cols: Seq<int>,
    other_rows: Seq<int>,
    other_cols: Seq<int>,
)
    requires
        0 < nr <= nc,
        cost.len() == nr * nc,
        u.len() == nr,
        v.len() == nc,
        cols.len() == nr,
        is_selection(cols, nc),
        forall|i: int, j: int|
            0 <= i < nr && 0 <= j < nc ==> #[trigger] reduced(cost, nc, u, v, i, j) >= 0,
        forall|i: int| 0 <= i < nr ==> reduced(cost, nc, u, v, i, #[trigger] cols[i]) == 0,
        forall|j: int| 0 <= j < nc ==> #[trigger] v[j] <= 0,
        forall|j: int| 0 <= j < nc && !cols.contains(j) ==> #[trigger] v[j] == 0,
        is_assignment(other_rows, other_cols, nr, nc),
    ensures
        total(cost, nc, iota(nr), cols) <= total(cost, nc, other_rows, other_cols),
{
    let rows = iota(nr);
    lemma_weak_duality(cost, nr, nc, u, v, other_rows, other_cols);
    lemma_weak_duality(cost, nr, nc, u, v, rows, cols);
    assert forall|k: int| 0 <= k < rows.len() implies #[trigger] reduced(
        cost,
        nc,
        u,
        v,
        rows[k],
        cols[k],
    ) == 0 by {
        assert(rows[k] == k);
    }
    let fu = u;
    let fv = v;
    assert(is_selection(rows, nr));
    assert forall|i: int| 0 <= i < nr implies rows.contains(i) by {
        assert(rows[i] == i);
    }
    lemma_picked_all(fu, rows);
    assert forall|j: int| 0 <= j < fv.len() && !cols.contains(j) implies #[trigger] fv[j] == 0 by {
        assert(v[j] == 0);
    }
    lemma_picked_all(fv, cols);
    lemma_picked_full(fu, other_rows);
    assert forall|j: int| 0 <= j < fv.len() implies #[trigger] fv[j] <= 0 by {
        assert(v[j] <= 0);
    }
    lemma_picked_nonpositive(fv, other_cols);
}

/// The order in which the pairs are listed does not matter.
pub proof fn lemma_total_reordered(
    weights: Seq<int>,
    nr: int,
    nc: int,
    cols: Seq<int>,
    rows2: Seq<int>,
    cols2: Seq<int>,
)
    requires
        cols.len() == nr,
        rows2.len() == cols2.len(),
        is_selection(rows2, nr),
        forall|i: int| 0 <= i < nr ==> rows2.contains(i),
        forall|k: int| 0 <= k < rows2.len() ==> #[trigger] cols2[k] == cols[rows2[k]],
    ensures
        total(weights, nc, rows2, cols2) == total(weights, nc, iota(nr), cols),
{
    let g = Seq::new(nr as nat, |i: int| weights[i * nc + cols[i]]);
    lemma_total_picked(weights, nr, nc, cols, rows2, cols2);
    lemma_total_picked(weights, nr, nc, cols, iota(nr), cols);
    assert forall|i: int| 0 <= i < nr implies iota(nr).contains(i) by {
        assert(iota(nr)[i] == i);
    }
    lemma_picked_all(g, rows2);
    lemma_picked_all(g, iota(nr));
}

proof fn lemma_total_picked(
    weights: Seq<int>,
    nr: int,
    nc: int,
    cols: Seq<int>,
    rows2: Seq<int>,
    cols2: Seq<int>,
)
    requires
        cols.len() == nr,
        rows2.len() == cols2.len(),
        forall|k: int| 0 <= k < rows2.len() ==> 0 <= #[trigger] rows2[k] < nr,
        forall|k: int| 0 <= k < rows2.len() ==> #[trigger] cols2[k] == cols[rows2[k]],
    ensures
        total(weights, nc, rows2, cols2) == picked(
            Seq::new(nr as nat, |i: int| weights[i * nc + cols[i]]),
            rows2,
        ),
    decreases rows2.len(),
{
    if rows2.len() > 0 {
        let r = rows2.drop_last();
        let c = cols2.drop_last();
        assert(forall|k: int| 0 <= k < r.len() ==> r[k] == #[trigger] rows2[k]);
        assert(forall|k: int| 0 <= k < c.len() ==> c[k] == #[trigger] cols2[k]);
        lemma_total_picked(weights, nr, nc, cols, r, c);
        let n = rows2.len() - 1;
        assert(rows2.last() == rows2[n] && cols2.last() == cols2[n]);
    }
}

/// The totals of a matrix and of its transpose, up to a common factor, agree on
/// pairs turned over.
pub proof fn lemma_total_transposed(
    weights: Seq<int>,
    nr: int,
    nc: int,
    turned: Seq<int>,
    sign: int,
    rows: Seq<int>,
    cols: Seq<int>,
)
    requires
        rows.len() == cols.len(),
        forall|k: int| 0 <= k < rows.len() ==> 0 <= #[trigger] rows[k] < nr,
        forall|k: int| 0 <= k < cols.len() ==> 0 <= #[trigger] cols[k] < nc,
        forall|i: int, j: int|
            0 <= i < nr && 0 <= j < nc ==> turned[j * nr + i] == sign * #[trigger] weights[i * nc
                + j],
    ensures
        total(turned, nr, cols, rows) == sign * total(weights, nc, rows, cols),
    decreases rows.len(),
{
    if rows.len() > 0 {
        let r = rows.drop_last();
        let c = cols.drop_last();
        assert(forall|k: int| 0 <= k < r.len() ==> r[k] == #[trigger] rows[k]);
        assert(forall|k: int| 0 <= k < c.len() ==> c[k] == #[trigger] cols[k]);
        lemma_total_transposed(weights, nr, nc, turned, sign, r, c);
        let n = rows.len() - 1;
        let i = rows[n];
        let j = cols[n];
        assert(turned[j * nr + i] == sign * weights[i * nc + j]);
        let x = total(weights, nc, r, c);
        let y = weights[i * nc + j];
        assert(sign * (x + y) == sign * x + sign * y) by (nonlinear_arith);
    } else {
        assert(sign * 0 == 0) by (nonlinear_arith);
    }
}

/// The totals of a matrix and of a multiple agree.
pub proof fn lemma_total_scaled(
    weights: Seq<int>,
    nr: int,
    nc: int,
    scaled: Seq<int>,
    sign: int,
    rows: Seq<int>,
    cols: Seq<int>,
)
    requires
        rows.len() == cols.len(),
        forall|k: int| 0 <= k < rows.len() ==> 0 <= #[trigger] rows[k] < nr,
        forall|k: int| 0 <= k < cols.len() ==> 0 <= #[trigger] cols[k] < nc,
        forall|i: int, j: int|
            0 <= i < nr && 0 <= j < nc ==> scaled[i * nc + j] == sign * #[trigger] weights[i * nc
                + j],
    ensures
        total(scaled, nc, rows, cols) == sign * total(weights, nc, rows, cols),
    decreases rows.len(),
{
    if rows.len() > 0 {
        let r = rows.drop_last();
        let c = cols.drop_last();
        assert(forall|k: int| 0 <= k < r.len() ==> r[k] == #[trigger] rows[k]);
        assert(forall|k: int| 0 <= k < c.len() ==> c[k] == #[trigger] cols[k]);
        lemma_total_scaled(weights, nr, nc, scaled, sign, r, c);
        let n = rows.len() - 1;
        let i = rows[n];
        let j = cols[n];
        assert(scaled[i * nc + j] == sign * weights[i * nc + j]);
        let x = total(weights, nc, r, c);
        let y = weights[i * nc + j];
        assert(sign * (x + y) == sign * x + sign * y) by (nonlinear_arith);
    } else {
        assert(sign * 0 == 0) by (nonlinear_arith);
    }
}

} // verus!
