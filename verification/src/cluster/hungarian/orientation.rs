//! Problems with more rows than columns are solved turned over.

use vstd::prelude::*;
use crate::cluster::hungarian::assignment::{iota, is_assignment, is_best, lemma_total_reordered, lemma_total_scaled, lemma_total_transposed, positions, total};
use crate::cluster::hungarian::sums::{is_selection, lemma_index, lemma_selection_is_full};

verus! {

/// Where cell `t` of the matrix that is solved stands in the given one: a matrix with
/// more rows than columns is transposed.
pub open spec fn source(t: int, nr: int, nc: int) -> int {
    if nc < nr {
        (t % nr) * nc + t / nr
    } else {
        t
    }
}

/// Such a place is inside the matrix.
pub proof fn lemma_source(t: int, nr: int, nc: int)
    requires
        0 <= t < nr * nc,
        0 < nr,
        0 < nc,
    ensures
        0 <= source(t, nr, nc) < nr * nc,
        nc < nr ==> 0 <= t % nr < nr && 0 <= t / nr < nc && t == (t / nr) * nr + t % nr,
{
    if nc < nr {
        vstd::arithmetic::div_mod::lemma_fundamental_div_mod(t, nr);
        let a = t / nr;
        let b = t % nr;
        assert(nr * a == a * nr) by (nonlinear_arith);
        assert(0 <= a < nc) by (nonlinear_arith)
            requires
                t == a * nr + b,
                0 <= b < nr,
                0 <= t < nr * nc,
        ;
        assert(0 <= b * nc + a < nr * nc) by (nonlinear_arith)
            requires
                0 <= a < nc,
                0 <= b < nr,
        ;
    }
}

/// Where cell `t` of the matrix that is solved stands in the given one.
pub fn source_of(t: usize, nr: usize, nc: usize) -> (r: usize)
    requires
        t < nr * nc <= usize::MAX,
        0 < nr,
        0 < nc,
    ensures
        r == source(t as int, nr as int, nc as int),
        r < nr * nc,
{
    proof {
        lemma_source(t as int, nr as int, nc as int);
    }
    if nc < nr {
        proof {
            let b = t as int % nr as int;
            assert(0 <= b * nc && b * nc <= nr * nc) by (nonlinear_arith)
                requires
                    0 <= b < nr,
                    0 <= nc,
            ;
        }
        (t % nr) * nc + t / nr
    } else {
        t
    }
}

/// The entries of a matrix in the order in which they are solved.
pub open spec fn reoriented<T>(entries: Seq<T>, nr: int, nc: int) -> Seq<T> {
    Seq::new(entries.len(), |t: int| entries[source(t, nr, nc)])
}

/// The number of pairs of a full assignment.
pub open spec fn pair_count(nr: int, nc: int) -> int {
    if nc < nr { nc } else { nr }
}

/// The number of places for each of them.
pub open spec fn other_count(nr: int, nc: int) -> int {
    if nc < nr { nr } else { nc }
}

/// The rows of the pairs of a solution.
pub open spec fn paired_rows(partner: Seq<usize>, nr: int, nc: int) -> Seq<int> {
    if nc < nr { positions(partner) } else { iota(nr) }
}

/// Their columns.
pub open spec fn paired_columns(partner: Seq<usize>, nr: int, nc: int) -> Seq<int> {
    if nc < nr { iota(nc) } else { positions(partner) }
}

/// Where entry `(i, j)` comes from.
proof fn lemma_source_of_pair(nr: int, nc: int, i: int, j: int)
    requires
        0 <= i < nr,
        0 <= j < nc,
    ensures
        nc < nr ==> 0 <= j * nr + i < nr * nc && source(j * nr + i, nr, nc) == i * nc + j,
        nc >= nr ==> 0 <= i * nc + j < nr * nc && source(i * nc + j, nr, nc) == i * nc + j,
{
    lemma_index(nr, nc, i, j);
    if nc < nr {
        lemma_index(nc, nr, j, i);
        assert(nc * nr == nr * nc) by (nonlinear_arith);
        vstd::arithmetic::div_mod::lemma_fundamental_div_mod_converse(j * nr + i, nr, j, i);
    }
}

/// The total of pairs of the given matrix and that of the matrix that is solved.
proof fn lemma_total_reoriented(
    weights: Seq<int>,
    nr: int,
    nc: int,
    sign: int,
    solved: Seq<int>,
    rows: Seq<int>,
    cols: Seq<int>,
)
    requires
        weights.len() == nr * nc,
        solved.len() == nr * nc,
        forall|t: int|
            0 <= t < solved.len() ==> #[trigger] solved[t] == sign * weights[source(t, nr, nc)],
        rows.len() == cols.len(),
        forall|k: int| 0 <= k < rows.len() ==> 0 <= #[trigger] rows[k] < nr,
        forall|k: int| 0 <= k < cols.len() ==> 0 <= #[trigger] cols[k] < nc,
    ensures
        nc < nr ==> total(solved, nr, cols, rows) == sign * total(weights, nc, rows, cols),
        nc >= nr ==> total(solved, nc, rows, cols) == sign * total(weights, nc, rows, cols),
{
    if nc < nr {
        assert forall|i: int, j: int| 0 <= i < nr && 0 <= j < nc implies solved[j * nr + i] == sign
            * #[trigger] weights[i * nc + j] by {
            lemma_source_of_pair(nr, nc, i, j);
            assert(solved[j * nr + i] == sign * weights[source(j * nr + i, nr, nc)]);
        }
        lemma_total_transposed(weights, nr, nc, solved, sign, rows, cols);
    } else {
        assert forall|i: int, j: int| 0 <= i < nr && 0 <= j < nc implies solved[i * nc + j] == sign
            * #[trigger] weights[i * nc + j] by {
            lemma_source_of_pair(nr, nc, i, j);
            assert(solved[i * nc + j] == sign * weights[source(i * nc + j, nr, nc)]);
        }
        lemma_total_scaled(weights, nr, nc, solved, sign, rows, cols);
    }
}

/// A best solution of the matrix that is solved is one of the given matrix, turned
/// from least to greatest if the sign was.
pub proof fn lemma_best_reoriented(
    weights: Seq<int>,
    nr: int,
    nc: int,
    maximize: bool,
    flip: bool,
    solved: Seq<int>,
    partner: Seq<usize>,
)
    requires
        0 < nr,
        0 < nc,
        weights.len() == nr * nc,
        solved.len() == nr * nc,
        forall|t: int|
            0 <= t < solved.len() ==> #[trigger] solved[t] == (if flip { -1int } else { 1int })
                * weights[source(t, nr, nc)],
        is_best(
            solved,
            pair_count(nr, nc),
            other_count(nr, nc),
            maximize != flip,
            iota(pair_count(nr, nc)),
            positions(partner),
        ),
    ensures
        is_best(
            weights,
            nr,
            nc,
            maximize,
            paired_rows(partner, nr, nc),
            paired_columns(partner, nr, nc),
        ),
{
    let sign = if flip { -1int } else { 1int };
    let rows = paired_rows(partner, nr, nc);
    let cols = paired_columns(partner, nr, nc);
    let n = pair_count(nr, nc);
    let m = other_count(nr, nc);
    assert(is_selection(iota(n), n));
    lemma_total_reoriented(weights, nr, nc, sign, solved, rows, cols);
    assert forall|rows2: Seq<int>, cols2: Seq<int>| is_assignment(rows2, cols2, nr, nc) implies (
    if maximize {
        #[trigger] total(weights, nc, rows2, cols2) <= total(weights, nc, rows, cols)
    } else {
        total(weights, nc, rows, cols) <= total(weights, nc, rows2, cols2)
    }) by {
        lemma_total_reoriented(weights, nr, nc, sign, solved, rows2, cols2);
        if nc < nr {
            assert(is_assignment(cols2, rows2, n, m));
            assert(total(solved, m, cols2, rows2) == total(solved, m, cols2, rows2));
        } else {
            assert(is_assignment(rows2, cols2, n, m));
            assert(total(solved, m, rows2, cols2) == total(solved, m, rows2, cols2));
        }
    }
}

/// Listing the pairs by row does not change what they add up to.
pub proof fn lemma_best_listed(
    weights: Seq<int>,
    nr: int,
    nc: int,
    maximize: bool,
    partner: Seq<usize>,
    rows: Seq<usize>,
    cols: Seq<usize>,
)
    requires
        0 < nr,
        0 < nc,
        weights.len() == nr * nc,
        is_best(
            weights,
            nr,
            nc,
            maximize,
            paired_rows(partner, nr, nc),
            paired_columns(partner, nr, nc),
        ),
        is_listing(partner, nr, nc, rows, cols),
    ensures
        is_best(weights, nr, nc, maximize, positions(rows), positions(cols)),
{
    let r = positions(rows);
    let c = positions(cols);
    let p = positions(partner);
    if nc < nr {
        let solved = reoriented(weights, nr, nc);
        assert forall|t: int| 0 <= t < solved.len() implies #[trigger] solved[t] == 1 * weights[source(
            t,
            nr,
            nc,
        )] by {}
        lemma_selection_is_full(c, nc);
        assert forall|k: int| 0 <= k < c.len() implies #[trigger] r[k] == p[c[k]] by {
            assert(rows[k] == partner[cols[k] as int]);
            assert(0 <= c[k] < nc);
        }
        lemma_total_reordered(solved, nc, nr, p, c, r);
        lemma_total_reoriented(weights, nr, nc, 1, solved, r, c);
        lemma_total_reoriented(weights, nr, nc, 1, solved, p, iota(nc));
    } else {
        lemma_ascending_rows(rows, nr);
        assert(r =~= iota(nr));
    }
}

/// As many ascending rows as there are are all rows in order.
pub proof fn lemma_ascending_rows(rows: Seq<usize>, n: int)
    requires
        is_ascending(rows),
        rows.len() == n,
        is_selection(positions(rows), n),
    ensures
        forall|k: int| 0 <= k < n ==> #[trigger] rows[k] == k,
{
    assert forall|k: int| 0 <= k < n implies #[trigger] rows[k] == k by {
        lemma_ascending_low(rows, k);
        lemma_ascending_high(rows, n, k);
    }
}

proof fn lemma_ascending_low(rows: Seq<usize>, k: int)
    requires
        is_ascending(rows),
        0 <= k < rows.len(),
    ensures
        rows[k] >= k,
    decreases k,
{
    if k > 0 {
        lemma_ascending_low(rows, k - 1);
        assert(rows[k - 1] < rows[k]);
    }
}

proof fn lemma_ascending_high(rows: Seq<usize>, n: int, k: int)
    requires
        is_ascending(rows),
        rows.len() == n,
        is_selection(positions(rows), n),
        0 <= k < n,
    ensures
        rows[k] <= k,
    decreases n - k,
{
    assert(0 <= positions(rows)[k] < n);
    if k < n - 1 {
        lemma_ascending_high(rows, n, k + 1);
        assert(rows[k] < rows[k + 1]);
    }
}

/// `k` is an entry of `r`.
spec fn is_listed(r: Seq<usize>, k: int) -> bool {
    exists|a: int| 0 <= a < r.len() && #[trigger] r[a] == k
}

/// The positions of `v` in ascending order of their entries, equal entries in
/// their own order.
pub fn argsort(v: &[usize]) -> (r: Vec<usize>)
    ensures
        r.len() == v.len(),
        is_selection(positions(r@), v.len() as int),
        forall|i: int| 0 <= i < v.len() ==> #[trigger] positions(r@).contains(i),
        forall|a: int, b: int|
            0 <= a < b < r.len() ==> {
                let x = v@[#[trigger] r@[a] as int];
                let y = v@[#[trigger] r@[b] as int];
                x < y || (x == y && r@[a] < r@[b])
            },
{
    let mut r: Vec<usize> = Vec::with_capacity(v.len());
    let mut i: usize = 0;
    while i < v.len()
        invariant
            i <= v.len(),
            r.len() == i,
            forall|a: int| 0 <= a < i ==> #[trigger] r@[a] < i,
            forall|k: int| 0 <= k < i ==> #[trigger] is_listed(r@, k),
            forall|a: int, b: int|
                0 <= a < b < i ==> {
                    let x = v@[#[trigger] r@[a] as int];
                    let y = v@[#[trigger] r@[b] as int];
                    x < y || (x == y && r@[a] < r@[b])
                },
        decreases v.len() - i,
    {
        let mut at: usize = i;
        while at > 0 && v[r[at - 1]] > v[i]
            invariant
                at <= i,
                i < v.len(),
                r.len() == i,
                forall|a: int| 0 <= a < i ==> #[trigger] r@[a] < i,
                forall|b: int| at <= b < i ==> v@[#[trigger] r@[b] as int] > v@[i as int],
            decreases at,
        {
            at = at - 1;
        }
        let ghost r0 = r@;
        r.insert(at, i);
        proof {
            assert(forall|a: int| 0 <= a < at ==> r@[a] == #[trigger] r0[a]);
            assert(r@[at as int] == i);
            assert(forall|a: int| at < a <= i ==> #[trigger] r@[a] == r0[a - 1]);
            assert forall|k: int| 0 <= k < i + 1 implies #[trigger] is_listed(r@, k) by {
                if k < i {
                    assert(is_listed(r0, k));
                    let a = choose|a: int| 0 <= a < r0.len() && #[trigger] r0[a] == k;
                    if a < at {
                        assert(r@[a] == k);
                    } else {
                        assert(r@[a + 1] == k);
                    }
                } else {
                    assert(r@[at as int] == k);
                }
            }
            assert forall|a: int, b: int| 0 <= a < b < i + 1 implies {
                let x = v@[#[trigger] r@[a] as int];
                let y = v@[#[trigger] r@[b] as int];
                x < y || (x == y && r@[a] < r@[b])
            } by {
                let a0 = if a > at { a - 1 } else { a };
                let b0 = if b > at { b - 1 } else { b };
                if a != at && b != at {
                    assert(r0[a0] == r@[a] && r0[b0] == r@[b]);
                } else if b == at {
                    assert(r0[a0] == r@[a]);
                    if a < at - 1 {
                        assert(v@[r0[a] as int] <= v@[r0[at - 1] as int]);
                    }
                } else {
                    assert(r0[b0] == r@[b]);
                }
            }
        }
        i = i + 1;
    }
    proof {
        let p = positions(r@);
        assert forall|i: int| 0 <= i < v.len() implies #[trigger] p.contains(i) by {
            assert(is_listed(r@, i));
            let a = choose|a: int| 0 <= a < r@.len() && #[trigger] r@[a] == i;
            assert(p[a] == i);
        }
        assert forall|a: int, b: int| 0 <= a < p.len() && 0 <= b < p.len() && a != b implies p[a]
            != p[b] by {
            if a < b {
                assert(r@[a] != r@[b]);
            } else {
                assert(r@[b] != r@[a]);
            }
        }
    }
    r
}

/// The pairs of a solution, listed by row.
pub open spec fn is_listing(
    partner: Seq<usize>,
    nr: int,
    nc: int,
    rows: Seq<usize>,
    cols: Seq<usize>,
) -> bool {
    &&& is_assignment(positions(rows), positions(cols), nr, nc)
    &&& is_ascending(rows)
    &&& nc < nr ==> forall|k: int|
        0 <= k < rows.len() ==> #[trigger] rows[k] == partner[cols[k] as int]
    &&& nc >= nr ==> cols == partner
}

/// Rows in ascending order.
pub open spec fn is_ascending(rows: Seq<usize>) -> bool {
    forall|a: int, b: int| 0 <= a < b < rows.len() ==> #[trigger] rows[a] < #[trigger] rows[b]
}

/// Lists the pairs of a solution by row.
pub fn list_pairs(partner: Vec<usize>, nr: usize, nc: usize) -> (r: (Vec<usize>, Vec<usize>))
    requires
        0 < nr,
        0 < nc,
        nc < nr ==> partner.len() == nc && is_selection(positions(partner@), nr as int),
        nc >= nr ==> partner.len() == nr && is_selection(positions(partner@), nc as int),
    ensures
        is_listing(partner@, nr as int, nc as int, r.0@, r.1@),
{
    if nc < nr {
        let order: Vec<usize> = argsort(&partner);
        let mut rows: Vec<usize> = Vec::with_capacity(nc);
        while rows.len() < nc
            invariant
                rows.len() <= nc,
                partner.len() == nc,
                order.len() == nc,
                is_selection(positions(order@), nc as int),
                forall|k: int|
                    0 <= k < rows.len() ==> #[trigger] rows@[k] == partner@[order@[k] as int],
            decreases nc - rows.len(),
        {
            let k: usize = order[rows.len()];
            proof {
                assert(positions(order@)[rows.len() as int] == k);
            }
            rows.push(partner[k]);
        }
        proof {
            let p = positions(partner@);
            let o = positions(order@);
            let r = positions(rows@);
            assert forall|a: int, b: int| 0 <= a < r.len() && 0 <= b < r.len() && a != b implies r[a]
                != r[b] by {
                assert(o[a] != o[b]);
                assert(p[o[a]] != p[o[b]]);
            }
            assert forall|k: int| 0 <= k < r.len() implies 0 <= #[trigger] r[k] < nr by {
                assert(0 <= o[k] < nc);
                assert(0 <= p[o[k]] < nr);
            }
            assert forall|a: int, b: int| 0 <= a < b < rows.len() implies #[trigger] rows@[a]
                < #[trigger] rows@[b] by {
                assert(o[a] != o[b]);
                assert(order@[a] == o[a] && order@[b] == o[b]);
                assert(p[o[a]] != p[o[b]]);
            }
        }
        (rows, order)
    } else {
        let mut rows: Vec<usize> = Vec::with_capacity(nr);
        while rows.len() < nr
            invariant
                rows.len() <= nr,
                forall|k: int| 0 <= k < rows.len() ==> #[trigger] rows@[k] == k,
            decreases nr - rows.len(),
        {
            let i: usize = rows.len();
            rows.push(i);
        }
        (rows, partner)
    }
}

} // verus!
