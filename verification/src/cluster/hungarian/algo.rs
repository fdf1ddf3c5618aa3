//! Constrained assignment of speakers to clusters, chunk by chunk.

use pathfinding::kuhn_munkres::kuhn_munkres;
use pathfinding::matrix::Matrix;
use vstd::arithmetic::power2::{lemma_pow2_adds, lemma_pow2_pos, lemma_pow2_strictly_increases, pow2};
use vstd::prelude::*;
use crate::aggregate::count::all_finite;
use crate::cluster::hungarian::assignment::{ints, iota, is_assignment, is_best, lemma_total_reordered, positions, total};
use crate::cluster::hungarian::error::{Error, NonFiniteError, ShapeError};
use crate::cluster::hungarian::fixed::{fixed_points, is_on_quantum, is_quantised, is_whole, quantise, quantum};
use crate::cluster::hungarian::optimal::{lemma_always_exact, lemma_exact_solution};
use crate::cluster::hungarian::orientation::{lemma_best_reoriented, lemma_source, other_count, pair_count, paired_columns, paired_rows, source, source_of};
use crate::cluster::hungarian::rule::solution;
use crate::cluster::hungarian::solver::solve;
use crate::cluster::hungarian::sums::{is_selection, lemma_index, lemma_selection_is_full};
use crate::cluster::hungarian::weight::{values, views, Weight};
use crate::cluster::hungarian::wide::{widened, Wide};
use crate::float::arith::abs;
use crate::float::rounding::{digit_count, digits, lemma_digits};
use crate::float::Double;
use crate::matrix::DoubleMatrix;

verus! {

/// The label of a speaker without a cluster.
pub const UNMATCHED: i32 = -2;

/// The bit pattern of the largest magnitude accepted for a finite cost, `1e15`.
pub const MAX_COST_MAGNITUDE: u64 = 0x430c_6bf5_2634_0000;

/// The largest magnitude accepted for a finite cost, `1e15`.
pub open spec fn max_cost() -> Double {
    Double { bits: MAX_COST_MAGNITUDE }
}

/// A chunk's cells, column by column.
pub open spec fn column_major(m: DoubleMatrix) -> Seq<Double> {
    Seq::new(
        m.height() * m.width(),
        |i: int| m.row_major()[(i % m.height() as int) * m.width() + i / m.height() as int],
    )
}

/// The cells of all chunks, one chunk after the other, each column by column.
pub open spec fn all_cells(chunks: Seq<DoubleMatrix>) -> Seq<Double>
    decreases chunks.len(),
{
    if chunks.len() == 0 {
        Seq::empty()
    } else {
        all_cells(chunks.drop_last()) + column_major(chunks.last())
    }
}

/// What is wrong with a cost, if anything. NaN is in order.
pub open spec fn cost_fault(x: Double) -> Option<NonFiniteError> {
    if x.nan() {
        None
    } else if !x.finite() {
        Some(NonFiniteError::InfInSoftClusters)
    } else if max_cost().below(x.absolute()) {
        Some(NonFiniteError::WeightOutOfBounds { value: x, max: max_cost() })
    } else {
        None
    }
}

/// What is wrong with the first faulty cost, if any.
pub open spec fn first_fault(cells: Seq<Double>) -> Option<NonFiniteError>
    decreases cells.len(),
{
    if cells.len() == 0 {
        None
    } else {
        match first_fault(cells.drop_last()) {
            Some(e) => Some(e),
            None => cost_fault(cells.last()),
        }
    }
}

/// The least finite cost; of several equal ones, the first.
pub open spec fn least_finite(cells: Seq<Double>) -> Option<Double>
    decreases cells.len(),
{
    if cells.len() == 0 {
        None
    } else {
        let before = least_finite(cells.drop_last());
        let x = cells.last();
        match before {
            Some(y) => if x.finite() && x.below(y) { Some(x) } else { before },
            None => if x.finite() { Some(x) } else { None },
        }
    }
}

/// The cells with every NaN replaced.
pub open spec fn cleaned(cells: Seq<Double>, stand_in: Double) -> Seq<Double> {
    Seq::new(cells.len(), |i: int| if cells[i].nan() { stand_in } else { cells[i] })
}

/// Why a stack of chunks is refused, if it is.
pub open spec fn argmax_error(chunks: Seq<DoubleMatrix>) -> Option<Error> {
    if chunks.len() == 0 {
        Some(Error::Shape(ShapeError::EmptyChunks))
    } else if chunks[0].height() == 0 {
        Some(Error::Shape(ShapeError::ZeroSpeakers))
    } else if chunks[0].width() == 0 {
        Some(Error::Shape(ShapeError::ZeroClusters))
    } else if !same_shape(chunks, chunks[0].height(), chunks[0].width()) {
        Some(Error::Shape(ShapeError::InconsistentChunkShape))
    } else {
        match first_fault(all_cells(chunks)) {
            Some(e) => Some(Error::NonFinite(e)),
            None => match least_finite(all_cells(chunks)) {
                Some(_) => None,
                None => Some(Error::NonFinite(NonFiniteError::NoFiniteEntries)),
            },
        }
    }
}

/// All chunks have the same sides.
pub open spec fn same_shape(chunks: Seq<DoubleMatrix>, speakers: nat, clusters: nat) -> bool {
    forall|c: int|
        0 <= c < chunks.len() ==> (#[trigger] chunks[c]).height() == speakers && chunks[c].width()
            == clusters
}

/// Binary digits kept of the weights of a problem with that many pairs.
pub open spec fn weight_bits(pairs: nat) -> nat {
    (122 - digits(pairs)) as nat
}

/// `labels` names, for each speaker, its cluster in the matching `(rows, cols)`.
pub open spec fn is_labelling(labels: Seq<i32>, rows: Seq<int>, cols: Seq<int>) -> bool {
    &&& forall|k: int| 0 <= k < rows.len() ==> labels[#[trigger] rows[k]] == cols[k]
    &&& forall|s: int|
        0 <= s < labels.len() && !rows.contains(s) ==> #[trigger] labels[s] == UNMATCHED
}

/// The exact values of a sequence of numbers, in units.
pub open spec fn exact_units(cells: Seq<Double>) -> Seq<int> {
    Seq::new(cells.len(), |i: int| cells[i].units())
}

/// `labels` comes from a matching of greatest total weight.
pub open spec fn is_best_labelling(
    labels: Seq<i32>,
    cells: Seq<Double>,
    speakers: int,
    clusters: int,
) -> bool {
    &&& labels.len() == speakers
    &&& exists|rows: Seq<int>, cols: Seq<int>| #[trigger]
        is_best(exact_units(cells), speakers, clusters, true, rows, cols) && is_labelling(
            labels,
            rows,
            cols,
        )
}

/// The columns that [`heaviest_columns`] returns.
pub uninterp spec fn kuhn_munkres_columns(
    rows: usize,
    columns: usize,
    weights: Seq<i128>,
) -> Seq<usize>;

/// The weights as machine integers, in whole quanta, in the order in which they are
/// solved.
pub open spec fn fixed_weights(cells: Seq<Double>, speakers: int, clusters: int) -> Seq<i128> {
    let bits = weight_bits(pair_count(speakers, clusters) as nat);
    Seq::new(
        cells.len(),
        |t: int| fixed_points(cells, bits)[source(t, speakers, clusters)] as i128,
    )
}

/// The exact weights as costs to be minimised, in the order in which they are solved.
pub open spec fn exact_costs(cells: Seq<Double>, speakers: int, clusters: int) -> Seq<int> {
    Seq::new(cells.len(), |t: int| -cells[source(t, speakers, clusters)].units())
}

/// The partners of the smaller side: those that `pathfinding` chooses where machine
/// integers hold the weights exactly, and else those that the rule of the search names.
pub open spec fn chosen_partners(cells: Seq<Double>, speakers: int, clusters: int) -> Seq<usize> {
    let n = pair_count(speakers, clusters);
    let m = other_count(speakers, clusters);
    if is_on_quantum(cells, weight_bits(n as nat)) {
        kuhn_munkres_columns(n as usize, m as usize, fixed_weights(cells, speakers, clusters))
    } else {
        solution::<Wide>(exact_costs(cells, speakers, clusters), n, m)->0
    }
}

/// `labels` names the clusters of the chosen partners.
pub open spec fn is_chosen_labelling(
    labels: Seq<i32>,
    cells: Seq<Double>,
    speakers: int,
    clusters: int,
) -> bool {
    let partner = chosen_partners(cells, speakers, clusters);
    is_labelling(
        labels,
        paired_rows(partner, speakers, clusters),
        paired_columns(partner, speakers, clusters),
    )
}

/// The columns of a matching of greatest total weight, one for each row, by
/// `pathfinding::kuhn_munkres` on a `Matrix` made by `Matrix::from_vec`: distinct
/// columns, and no other choice of distinct columns weighs more in total. Of
/// several such matchings it returns one that the arguments alone determine; which
/// one is not stated. The labels and sums that the algorithm computes stay within
/// four times the largest weight per row, which must fit.
#[verifier::external_body]
fn heaviest_columns(rows: usize, columns: usize, weights: Vec<i128>) -> (r: Vec<usize>)
    requires
        0 < rows <= columns,
        weights.len() == rows * columns,
        forall|k: int|
            0 <= k < weights.len() ==> 4 * rows * abs(#[trigger] weights@[k] as int) <= i128::MAX,
    ensures
        r.len() == rows,
        is_selection(positions(r@), columns as int),
        forall|cols: Seq<int>|
            cols.len() == rows && is_selection(cols, columns as int) ==> #[trigger] total(
                ints(weights@),
                columns as int,
                iota(rows as int),
                cols,
            ) <= total(ints(weights@), columns as int, iota(rows as int), positions(r@)),
        r@ == kuhn_munkres_columns(rows, columns, weights@),
{
    kuhn_munkres(&Matrix::from_vec(rows, columns, weights).unwrap()).1
}

/// Columns that outweigh all other columns make up a best assignment.
proof fn lemma_best_columns(weights: Seq<int>, nr: int, nc: int, cols: Seq<int>)
    requires
        0 < nr <= nc,
        cols.len() == nr,
        is_selection(cols, nc),
        forall|other: Seq<int>|
            other.len() == nr && is_selection(other, nc) ==> #[trigger] total(
                weights,
                nc,
                iota(nr),
                other,
            ) <= total(weights, nc, iota(nr), cols),
    ensures
        is_best(weights, nr, nc, true, iota(nr), cols),
{
    assert forall|rows2: Seq<int>, cols2: Seq<int>| is_assignment(rows2, cols2, nr, nc) implies
        #[trigger] total(weights, nc, rows2, cols2) <= total(weights, nc, iota(nr), cols) by {
        lemma_selection_is_full(rows2, nr);
        let at = |i: int| choose|k: int| 0 <= k < rows2.len() && rows2[k] == i;
        let other = Seq::new(nr as nat, |i: int| cols2[at(i)]);
        assert forall|i: int| 0 <= i < nr implies 0 <= #[trigger] at(i) < nr && rows2[at(i)] == i by {
            assert(rows2.contains(i));
        }
        assert(is_selection(other, nc)) by {
            assert forall|a: int, b: int|
                0 <= a < other.len() && 0 <= b < other.len() && a != b implies other[a] != other[b] by {
                assert(rows2[at(a)] == a && rows2[at(b)] == b);
                assert(at(a) != at(b));
            }
            assert forall|k: int| 0 <= k < other.len() implies 0 <= #[trigger] other[k] < nc by {
                assert(0 <= at(k) < nr);
            }
        }
        assert forall|k: int| 0 <= k < rows2.len() implies #[trigger] cols2[k] == other[rows2[k]] by {
            let i = rows2[k];
            assert(0 <= at(i) < nr && rows2[at(i)] == i);
        }
        lemma_total_reordered(weights, nr, nc, other, rows2, cols2);
        assert(total(weights, nc, iota(nr), other) <= total(weights, nc, iota(nr), cols));
    }
}

/// The total of whole quanta is the exact total.
proof fn lemma_total_whole(
    cells: Seq<Double>,
    bits: nat,
    nr: int,
    nc: int,
    rows: Seq<int>,
    cols: Seq<int>,
)
    requires
        cells.len() == nr * nc,
        is_on_quantum(cells, bits),
        rows.len() == cols.len(),
        forall|k: int| 0 <= k < rows.len() ==> 0 <= #[trigger] rows[k] < nr,
        forall|k: int| 0 <= k < cols.len() ==> 0 <= #[trigger] cols[k] < nc,
    ensures
        total(exact_units(cells), nc, rows, cols) == total(fixed_points(cells, bits), nc, rows, cols)
            * pow2(quantum(cells, bits)),
    decreases rows.len(),
{
    let q = pow2(quantum(cells, bits)) as int;
    if rows.len() == 0 {
        assert(0 * q == 0);
    } else {
        let r = rows.drop_last();
        let c = cols.drop_last();
        assert(forall|k: int| 0 <= k < r.len() ==> r[k] == #[trigger] rows[k]);
        assert(forall|k: int| 0 <= k < c.len() ==> c[k] == #[trigger] cols[k]);
        lemma_total_whole(cells, bits, nr, nc, r, c);
        let n = rows.len() - 1;
        let i = rows[n];
        let j = cols[n];
        lemma_index(nr, nc, i, j);
        let at = i * nc + j;
        assert(is_whole(cells[at].units(), quantum(cells, bits)));
        let f = fixed_points(cells, bits)[at];
        let x = total(fixed_points(cells, bits), nc, r, c);
        assert((x + f) * q == x * q + f * q) by (nonlinear_arith);
        assert(rows.last() == i && cols.last() == j);
    }
}

/// Of weights on the quantum a best matching of whole quanta is one of the weights.
proof fn lemma_best_whole(
    cells: Seq<Double>,
    bits: nat,
    nr: int,
    nc: int,
    rows: Seq<int>,
    cols: Seq<int>,
)
    requires
        cells.len() == nr * nc,
        is_on_quantum(cells, bits),
        is_best(fixed_points(cells, bits), nr, nc, true, rows, cols),
    ensures
        is_best(exact_units(cells), nr, nc, true, rows, cols),
{
    let q = pow2(quantum(cells, bits)) as int;
    lemma_pow2_pos(quantum(cells, bits));
    let f = fixed_points(cells, bits);
    lemma_total_whole(cells, bits, nr, nc, rows, cols);
    assert forall|rows2: Seq<int>, cols2: Seq<int>| is_assignment(rows2, cols2, nr, nc) implies
        #[trigger] total(exact_units(cells), nc, rows2, cols2) <= total(
        exact_units(cells),
        nc,
        rows,
        cols,
    ) by {
        lemma_total_whole(cells, bits, nr, nc, rows2, cols2);
        let x = total(f, nc, rows2, cols2);
        let y = total(f, nc, rows, cols);
        assert(x <= y);
        assert(x * q <= y * q) by (nonlinear_arith)
            requires
                x <= y,
                q > 0,
        ;
    }
}

/// Copies the cells of all chunks, column by column.
fn collect_cells(chunks: &[DoubleMatrix]) -> (all: Vec<Double>)
    ensures
        all@ == all_cells(chunks@),
{
    let mut all: Vec<Double> = Vec::new();
    let mut c: usize = 0;
    while c < chunks.len()
        invariant
            c <= chunks.len(),
            all@ == all_cells(chunks@.take(c as int)),
        decreases chunks.len() - c,
    {
        let chunk: &DoubleMatrix = &chunks[c];
        let (rows, columns) = chunk.shape();
        let cells: &[Double] = chunk.cells();
        let size: usize = cells.len();
        let ghost before = all@;
        let mut j: usize = 0;
        proof {
            assert(0 * rows == 0);
            assert(all@ =~= before + column_major(*chunk).take(0));
        }
        while j < columns
            invariant
                j <= columns,
                rows == chunk.height(),
                columns == chunk.width(),
                cells@ == chunk.row_major(),
                cells@.len() == rows * columns == size,
                column_major(*chunk).len() == rows * columns,
                0 <= j * rows <= rows * columns,
                all@ == before + column_major(*chunk).take(j * rows),
            decreases columns - j,
        {
            let mut i: usize = 0;
            proof {
                assert(j * rows + rows <= rows * columns) by (nonlinear_arith)
                    requires
                        0 <= rows,
                        j + 1 <= columns,
                ;
            }
            while i < rows
                invariant
                    i <= rows,
                    j < columns,
                    rows == chunk.height(),
                    columns == chunk.width(),
                    cells@ == chunk.row_major(),
                    cells@.len() == rows * columns == size,
                    column_major(*chunk).len() == rows * columns,
                    0 <= j * rows,
                    j * rows + rows <= rows * columns,
                    all@ == before + column_major(*chunk).take(j * rows + i),
                decreases rows - i,
            {
                proof {
                    lemma_index(
                        rows as int,
                        columns as int,
                        i as int,
                        j as int,
                    );
                    let at = j * rows + i;
                    vstd::arithmetic::div_mod::lemma_fundamental_div_mod_converse(
                        at,
                        rows as int,
                        j as int,
                        i as int,
                    );
                    assert(column_major(*chunk)[at] == cells@[i * columns + j]);
                    assert(column_major(*chunk).take(at + 1) =~= column_major(*chunk).take(at).push(
                        cells@[i * columns + j],
                    ));
                }
                all.push(cells[i * columns + j]);
                proof {
                    assert(all@ =~= before + column_major(*chunk).take(j * rows + i + 1));
                }
                i = i + 1;
            }
            proof {
                assert((j + 1) * rows == j * rows + rows) by (nonlinear_arith);
                assert((j + 1) * rows <= rows * columns) by (nonlinear_arith)
                    requires
                        0 <= rows,
                        j + 1 <= columns,
                ;
            }
            j = j + 1;
        }
        proof {
            assert(columns * rows == rows * columns) by (nonlinear_arith);
            assert(column_major(*chunk).take(columns * rows) =~= column_major(*chunk));
            let next = chunks@.take(c + 1);
            assert(next.drop_last() =~= chunks@.take(c as int));
            assert(next.last() == *chunk);
        }
        c = c + 1;
    }
    proof {
        assert(chunks@.take(c as int) =~= chunks@);
    }
    all
}

/// The first faulty cost's error.
fn find_fault(cells: &Vec<Double>) -> (r: Option<NonFiniteError>)
    ensures
        r == first_fault(cells@),
{
    let mut i: usize = 0;
    while i < cells.len()
        invariant
            i <= cells.len(),
            first_fault(cells@.take(i as int)) is None,
        decreases cells.len() - i,
    {
        let x: Double = cells[i];
        proof {
            assert(cells@.take(i + 1).drop_last() =~= cells@.take(i as int));
            assert(cells@.take(i + 1).last() == x);
        }
        if !x.is_nan() {
            let max: Double = Double::from_bits(MAX_COST_MAGNITUDE);
            if !x.is_finite() {
                proof {
                    lemma_fault_stays(cells@, i + 1);
                }
                return Some(NonFiniteError::InfInSoftClusters);
            }
            if x.abs().gt(max) {
                proof {
                    lemma_fault_stays(cells@, i + 1);
                }
                return Some(NonFiniteError::WeightOutOfBounds { value: x, max });
            }
        }
        i = i + 1;
    }
    proof {
        assert(cells@.take(i as int) =~= cells@);
    }
    None
}

/// A fault among the first cells is the fault of all.
proof fn lemma_fault_stays(cells: Seq<Double>, n: int)
    requires
        0 <= n <= cells.len(),
        first_fault(cells.take(n)) is Some,
    ensures
        first_fault(cells) == first_fault(cells.take(n)),
    decreases cells.len() - n,
{
    if n == cells.len() {
        assert(cells.take(n) =~= cells);
    } else {
        assert(cells.take(n + 1).drop_last() =~= cells.take(n));
        lemma_fault_stays(cells, n + 1);
    }
}

/// The least finite cost.
fn find_least(cells: &Vec<Double>) -> (r: Option<Double>)
    ensures
        r == least_finite(cells@),
        r matches Some(x) ==> x.finite(),
{
    let mut least: Option<Double> = None;
    let mut i: usize = 0;
    while i < cells.len()
        invariant
            i <= cells.len(),
            least == least_finite(cells@.take(i as int)),
            least matches Some(x) ==> x.finite(),
        decreases cells.len() - i,
    {
        let x: Double = cells[i];
        proof {
            assert(cells@.take(i + 1).drop_last() =~= cells@.take(i as int));
            assert(cells@.take(i + 1).last() == x);
        }
        if x.is_finite() {
            least = match least {
                Some(y) => if x.lt(y) {
                    Some(x)
                } else {
                    Some(y)
                },
                None => Some(x),
            };
        }
        i = i + 1;
    }
    proof {
        assert(cells@.take(i as int) =~= cells@);
    }
    least
}

/// The label of each speaker, from the partners of the smaller side: clusters of
/// speakers or, where there are more speakers than clusters, speakers of clusters.
pub fn label_pairs(partner: &[usize], num_speakers: usize, num_clusters: usize) -> (labels: Vec<i32>)
    requires
        0 < num_clusters <= 0x8000_0000,
        partner.len() == pair_count(num_speakers as int, num_clusters as int),
        is_selection(
            positions(partner@),
            other_count(num_speakers as int, num_clusters as int),
        ),
    ensures
        labels.len() == num_speakers,
        is_labelling(
            labels@,
            paired_rows(partner@, num_speakers as int, num_clusters as int),
            paired_columns(partner@, num_speakers as int, num_clusters as int),
        ),
{
    let transpose: bool = num_speakers > num_clusters;
    let (pairs, others) = if transpose {
        (num_clusters, num_speakers)
    } else {
        (num_speakers, num_clusters)
    };
    let ghost p = positions(partner@);
    let mut labels: Vec<i32> = vec![UNMATCHED; num_speakers];
    let mut k: usize = 0;
    while k < pairs
        invariant
            k <= pairs,
            0 < num_clusters <= 0x8000_0000,
            labels.len() == num_speakers,
            partner.len() == pairs,
            p == positions(partner@),
            is_selection(p, others as int),
            transpose ==> pairs == num_clusters && others == num_speakers,
            !transpose ==> pairs == num_speakers && others == num_clusters,
            transpose ==> {
                &&& forall|a: int| 0 <= a < k ==> labels@[#[trigger] p[a]] == a
                &&& forall|s: int|
                    0 <= s < num_speakers && !p.take(k as int).contains(s) ==> #[trigger] labels@[s]
                        == UNMATCHED
            },
            !transpose ==> forall|s: int| 0 <= s < k ==> #[trigger] labels@[s] == p[s],
        decreases pairs - k,
    {
        let other: usize = partner[k];
        proof {
            assert(p[k as int] == other);
        }
        let ghost labels0 = labels@;
        if transpose {
            labels[other] = k as i32;
            proof {
                assert forall|a: int| 0 <= a < k implies labels@[#[trigger] p[a]] == a by {
                    assert(p[a] != p[k as int]);
                    assert(labels0[p[a]] == a);
                }
                assert forall|s: int| 0 <= s < num_speakers && !p.take(k + 1).contains(s) implies
                    #[trigger] labels@[s] == UNMATCHED by {
                    assert(p.take(k + 1)[k as int] == other);
                    assert(!p.take(k as int).contains(s)) by {
                        if p.take(k as int).contains(s) {
                            let a = choose|a: int| 0 <= a < k && p.take(k as int)[a] == s;
                            assert(p.take(k + 1)[a] == s);
                        }
                    }
                    assert(labels0[s] == UNMATCHED);
                }
            }
        } else {
            labels[k] = other as i32;
        }
        k = k + 1;
    }
    proof {
        assert(p.take(pairs as int) =~= p);
        let all = iota(pairs as int);
        if transpose {
            assert forall|a: int| 0 <= a < p.len() implies labels@[#[trigger] p[a]] == all[a] by {}
        } else {
            assert forall|a: int| 0 <= a < all.len() implies labels@[#[trigger] all[a]] == p[a] by {
                assert(labels@[a] == p[a]);
            }
            assert forall|s: int| 0 <= s < labels@.len() && !all.contains(s) implies #[trigger] labels@[s]
                == UNMATCHED by {
                assert(all[s] == s);
            }
        }
    }
    labels
}

/// The digits kept leave room for every sum.
proof fn lemma_room(pairs: nat, bits: nat)
    requires
        0 < pairs <= usize::MAX,
        bits == weight_bits(pairs),
    ensures
        digits(pairs) <= 64,
        4 * pairs * pow2(bits) <= i128::MAX,
        pow2(bits) <= i128::MAX,
{
    vstd::arithmetic::power2::lemma2_to64();
    vstd::arithmetic::power2::lemma2_to64_rest();
    lemma_digits(pairs);
    if digits(pairs) > 64 {
        if digits(pairs) > 65 {
            lemma_pow2_strictly_increases(64, (digits(pairs) - 1) as nat);
        }
    }
    lemma_pow2_adds(64, 58);
    lemma_pow2_adds(digits(pairs), bits);
    lemma_pow2_pos(bits);
    let limit = pow2(bits) as int;
    assert(4 * pairs * limit <= 4 * pow2(122)) by (nonlinear_arith)
        requires
            pairs <= pow2(digits(pairs)),
            limit > 0,
            pow2(122) == pow2(digits(pairs)) * limit,
    ;
    assert(limit <= 4 * pairs * limit) by (nonlinear_arith)
        requires
            pairs >= 1,
            limit > 0,
    ;
}

/// The partners of weights that machine integers hold.
fn choose_by_quanta(
    cells: &Vec<Double>,
    num_speakers: usize,
    num_clusters: usize,
    bits: u32,
) -> (partner: Vec<usize>)
    requires
        0 < num_speakers,
        0 < num_clusters,
        cells.len() == num_speakers * num_clusters,
        all_finite(cells@),
        bits == weight_bits(pair_count(num_speakers as int, num_clusters as int) as nat),
        is_on_quantum(cells@, bits as nat),
    ensures
        partner@ == chosen_partners(cells@, num_speakers as int, num_clusters as int),
        partner.len() == pair_count(num_speakers as int, num_clusters as int),
        is_best(
            exact_units(cells@),
            num_speakers as int,
            num_clusters as int,
            true,
            paired_rows(partner@, num_speakers as int, num_clusters as int),
            paired_columns(partner@, num_speakers as int, num_clusters as int),
        ),
{
    let transpose: bool = num_speakers > num_clusters;
    let (pairs, others) = if transpose {
        (num_clusters, num_speakers)
    } else {
        (num_speakers, num_clusters)
    };
    proof {
        lemma_room(pairs as nat, bits as nat);
    }
    let fixed: Vec<i128> = quantise(cells, bits);
    let ghost weights = fixed_points(cells@, bits as nat);
    let mut ordered: Vec<i128> = Vec::with_capacity(fixed.len());
    while ordered.len() < fixed.len()
        invariant
            0 < num_speakers,
            0 < num_clusters,
            ordered.len() <= fixed.len(),
            fixed.len() == num_speakers * num_clusters,
            forall|t: int|
                0 <= t < ordered.len() ==> #[trigger] ordered@[t] == fixed@[source(
                    t,
                    num_speakers as int,
                    num_clusters as int,
                )],
        decreases fixed.len() - ordered.len(),
    {
        ordered.push(fixed[source_of(ordered.len(), num_speakers, num_clusters)]);
    }
    let ghost solved = ints(ordered@);
    proof {
        let nr = num_speakers as int;
        let nc = num_clusters as int;
        assert(nc * nr == nr * nc) by (nonlinear_arith);
        assert forall|t: int| 0 <= t < ordered.len() implies {
            &&& #[trigger] ordered@[t] == weights[source(t, nr, nc)]
            &&& 4 * pairs * abs(ordered@[t] as int) <= i128::MAX
        } by {
            lemma_source(t, nr, nc);
            let k = source(t, nr, nc);
            assert(fixed@[k] == weights[k]);
            let limit = pow2(bits as nat) as int;
            assert(4 * pairs * abs(ordered@[t] as int) <= 4 * pairs * limit) by (nonlinear_arith)
                requires
                    abs(ordered@[t] as int) <= limit,
                    pairs >= 0,
            ;
        }
        assert(ordered@ =~= fixed_weights(cells@, nr, nc));
    }
    let partner: Vec<usize> = heaviest_columns(pairs, others, ordered);
    proof {
        let nr = num_speakers as int;
        let nc = num_clusters as int;
        lemma_best_columns(solved, pairs as int, others as int, positions(partner@));
        assert forall|t: int| 0 <= t < solved.len() implies #[trigger] solved[t] == 1
            * weights[source(t, nr, nc)] by {
            assert(ordered@[t] == weights[source(t, nr, nc)]);
        }
        lemma_best_reoriented(weights, nr, nc, true, false, solved, partner@);
        lemma_best_whole(
            cells@,
            bits as nat,
            nr,
            nc,
            paired_rows(partner@, nr, nc),
            paired_columns(partner@, nr, nc),
        );
    }
    partner
}

/// The partners of weights that machine integers do not hold.
fn choose_exactly(cells: &Vec<Double>, num_speakers: usize, num_clusters: usize) -> (partner: Vec<
    usize,
>)
    requires
        0 < num_speakers,
        0 < num_clusters,
        cells.len() == num_speakers * num_clusters,
        all_finite(cells@),
        !is_on_quantum(
            cells@,
            weight_bits(pair_count(num_speakers as int, num_clusters as int) as nat),
        ),
    ensures
        partner@ == chosen_partners(cells@, num_speakers as int, num_clusters as int),
        partner.len() == pair_count(num_speakers as int, num_clusters as int),
        is_best(
            exact_units(cells@),
            num_speakers as int,
            num_clusters as int,
            true,
            paired_rows(partner@, num_speakers as int, num_clusters as int),
            paired_columns(partner@, num_speakers as int, num_clusters as int),
        ),
{
    let transpose: bool = num_speakers > num_clusters;
    let (pairs, others) = if transpose {
        (num_clusters, num_speakers)
    } else {
        (num_speakers, num_clusters)
    };
    let nothing: Wide = Wide::make_nothing();
    let mut costs: Vec<Wide> = Vec::with_capacity(cells.len());
    let ghost wanted = exact_costs(cells@, num_speakers as int, num_clusters as int);
    while costs.len() < cells.len()
        invariant
            0 < num_speakers,
            0 < num_clusters,
            costs.len() <= cells.len(),
            cells.len() == num_speakers * num_clusters,
            all_finite(cells@),
            nothing@ == 0,
            wanted == exact_costs(cells@, num_speakers as int, num_clusters as int),
            forall|t: int| 0 <= t < costs.len() ==> (#[trigger] costs@[t])@ == wanted[t],
        decreases cells.len() - costs.len(),
    {
        let x: Double = cells[source_of(costs.len(), num_speakers, num_clusters)];
        costs.push(nothing.minus(&widened(x)));
    }
    proof {
        let nr = num_speakers as int;
        let nc = num_clusters as int;
        assert(nc * nr == nr * nc) by (nonlinear_arith);
        assert(views(costs@) =~= wanted);
        assert(values::<Wide>(wanted) =~= wanted);
        lemma_always_exact(wanted, pairs as int, others as int, pairs as nat);
        lemma_exact_solution::<Wide>(wanted, pairs as int, others as int);
    }
    let partner: Vec<usize> = match solve(pairs, others, &costs) {
        Some(p) => p,
        None => {
            proof {
                assert(false);
            }
            Vec::new()
        },
    };
    proof {
        let nr = num_speakers as int;
        let nc = num_clusters as int;
        let n = pairs as int;
        assert(is_selection(iota(n), n));
        assert(is_best(wanted, n, others as int, false, iota(n), positions(partner@)));
        let weights = exact_units(cells@);
        assert forall|t: int| 0 <= t < wanted.len() implies #[trigger] wanted[t] == -1
            * weights[source(t, nr, nc)] by {
            lemma_source(t, nr, nc);
        }
        lemma_best_reoriented(weights, nr, nc, true, true, wanted, partner@);
    }
    partner
}

/// The best labels of one chunk whose cells are finite.
fn assign_cells(cells: &Vec<Double>, num_speakers: usize, num_clusters: usize) -> (labels: Vec<i32>)
    requires
        0 < num_speakers,
        0 < num_clusters <= 0x8000_0000,
        cells.len() == num_speakers * num_clusters,
        all_finite(cells@),
    ensures
        is_best_labelling(labels@, cells@, num_speakers as int, num_clusters as int),
        is_chosen_labelling(labels@, cells@, num_speakers as int, num_clusters as int),
{
    let pairs: usize = if num_speakers > num_clusters {
        num_clusters
    } else {
        num_speakers
    };
    proof {
        lemma_room(pairs as nat, weight_bits(pairs as nat));
    }
    let bits: u32 = 122 - digit_count(pairs as u128);
    let partner: Vec<usize> = if is_quantised(cells, bits) {
        choose_by_quanta(cells, num_speakers, num_clusters, bits)
    } else {
        choose_exactly(cells, num_speakers, num_clusters)
    };
    label_pairs(partner.as_slice(), num_speakers, num_clusters)
}

/// Finite cells and NaN alone become finite cells.
fn clean(cells: &[Double], stand_in: Double) -> (r: Vec<Double>)
    requires
        stand_in.finite(),
        forall|i: int|
            0 <= i < cells@.len() ==> (#[trigger] cells@[i]).nan() || cells@[i].finite(),
    ensures
        r@ == cleaned(cells@, stand_in),
        all_finite(r@),
{
    let mut r: Vec<Double> = Vec::with_capacity(cells.len());
    while r.len() < cells.len()
        invariant
            r.len() <= cells.len(),
            stand_in.finite(),
            forall|i: int|
                0 <= i < cells@.len() ==> (#[trigger] cells@[i]).nan() || cells@[i].finite(),
            forall|i: int| 0 <= i < r.len() ==> #[trigger] r@[i] == cleaned(cells@, stand_in)[i],
            forall|i: int| 0 <= i < r.len() ==> (#[trigger] r@[i]).finite(),
        decreases cells.len() - r.len(),
    {
        let x: Double = cells[r.len()];
        if x.is_nan() {
            r.push(stand_in);
        } else {
            r.push(x);
        }
    }
    proof {
        assert(r@ =~= cleaned(cells@, stand_in));
    }
    r
}

/// Without a fault every cell of every chunk is finite or NaN.
proof fn lemma_no_fault(chunks: Seq<DoubleMatrix>, c: int, i: int)
    requires
        first_fault(all_cells(chunks)) is None,
        0 <= c < chunks.len(),
        0 <= i < chunks[c].row_major().len(),
        chunks[c].row_major().len() == chunks[c].height() * chunks[c].width(),
        chunks[c].width() > 0,
    ensures
        chunks[c].row_major()[i].nan() || chunks[c].row_major()[i].finite(),
    decreases chunks.len(),
{
    let last = chunks.last();
    let before = all_cells(chunks.drop_last());
    let cells = before + column_major(last);
    if c == chunks.len() - 1 {
        let nr = last.height() as int;
        let nc = last.width() as int;
        vstd::arithmetic::div_mod::lemma_fundamental_div_mod(i, nc);
        let a = i / nc;
        let b = i % nc;
        assert(0 <= a < nr) by (nonlinear_arith)
            requires
                a == i / nc,
                0 <= i < nr * nc,
                nc > 0,
        ;
        assert(a * nc == nc * a) by (nonlinear_arith);
        lemma_index(nc, nr, b, a);
        assert(nc * nr == nr * nc) by (nonlinear_arith);
        let k = b * nr + a;
        vstd::arithmetic::div_mod::lemma_fundamental_div_mod_converse(k, nr, b, a);
        assert(column_major(last)[k] == last.row_major()[a * nc + b]);
        lemma_no_fault_at(cells, before.len() + k);
    } else {
        lemma_prefix_no_fault(before, column_major(last));
        assert(chunks.drop_last()[c] == chunks[c]);
        lemma_no_fault(chunks.drop_last(), c, i);
    }
}

proof fn lemma_no_fault_at(cells: Seq<Double>, k: int)
    requires
        first_fault(cells) is None,
        0 <= k < cells.len(),
    ensures
        cost_fault(cells[k]) is None,
    decreases cells.len(),
{
    if k < cells.len() - 1 {
        lemma_no_fault_at(cells.drop_last(), k);
    }
}

proof fn lemma_prefix_no_fault(a: Seq<Double>, b: Seq<Double>)
    requires
        first_fault(a + b) is None,
    ensures
        first_fault(a) is None,
    decreases b.len(),
{
    if b.len() == 0 {
        assert(a + b =~= a);
    } else {
        assert((a + b).drop_last() =~= a + b.drop_last());
        lemma_prefix_no_fault(a, b.drop_last());
    }
}

/// Refuses a stack of chunks, or finds its least finite cost.
pub fn check_chunks(chunks: &[DoubleMatrix]) -> (r: Result<Double, Error>)
    ensures
        match argmax_error(chunks@) {
            Some(e) => r == Err::<Double, Error>(e),
            None => r is Ok && least_finite(all_cells(chunks@)) == Some(r->Ok_0) && r->Ok_0.finite(),
        },
{
    if chunks.len() == 0 {
        return Err(Error::Shape(ShapeError::EmptyChunks));
    }
    let (num_speakers, num_clusters) = chunks[0].shape();
    if num_speakers == 0 {
        return Err(Error::Shape(ShapeError::ZeroSpeakers));
    }
    if num_clusters == 0 {
        return Err(Error::Shape(ShapeError::ZeroClusters));
    }
    let mut c: usize = 0;
    while c < chunks.len()
        invariant
            c <= chunks.len(),
            num_speakers > 0,
            num_clusters > 0,
            num_speakers == chunks@[0].height(),
            num_clusters == chunks@[0].width(),
            forall|i: int|
                0 <= i < c ==> (#[trigger] chunks@[i]).height() == num_speakers && chunks@[i].width()
                    == num_clusters,
        decreases chunks.len() - c,
    {
        let (rows, columns) = chunks[c].shape();
        if rows != num_speakers || columns != num_clusters {
            proof {
                assert(!same_shape(chunks@, num_speakers as nat, num_clusters as nat)) by {
                    assert(!(chunks@[c as int].height() == num_speakers && chunks@[c as int].width()
                        == num_clusters));
                }
            }
            return Err(Error::Shape(ShapeError::InconsistentChunkShape));
        }
        c = c + 1;
    }
    let all: Vec<Double> = collect_cells(chunks);
    match find_fault(&all) {
        Some(e) => {
            return Err(Error::NonFinite(e));
        },
        None => {},
    }
    match find_least(&all) {
        Some(x) => Ok(x),
        None => Err(Error::NonFinite(NonFiniteError::NoFiniteEntries)),
    }
}

/// For each chunk, the cluster of every speaker in a matching of greatest total
/// cost; [`UNMATCHED`] for speakers left over when there are fewer clusters.
///
/// NaN costs count as the least finite cost of all chunks. Totals are compared exactly.
pub fn constrained_argmax(chunks: &[DoubleMatrix]) -> (r: Result<Vec<Vec<i32>>, Error>)
    requires
        argmax_error(chunks@) is None ==> chunks@[0].width() <= 0x8000_0000,
    ensures
        match argmax_error(chunks@) {
            Some(e) => r == Err::<Vec<Vec<i32>>, Error>(e),
            None => {
                &&& r is Ok
                &&& r->Ok_0.len() == chunks.len()
                &&& forall|c: int|
                    0 <= c < chunks.len() ==> is_best_labelling(
                        (#[trigger] r->Ok_0@[c])@,
                        cleaned(chunks@[c].row_major(), least_finite(all_cells(chunks@))->0),
                        chunks@[0].height() as int,
                        chunks@[0].width() as int,
                    )
                &&& forall|c: int|
                    0 <= c < chunks.len() ==> is_chosen_labelling(
                        (#[trigger] r->Ok_0@[c])@,
                        cleaned(chunks@[c].row_major(), least_finite(all_cells(chunks@))->0),
                        chunks@[0].height() as int,
                        chunks@[0].width() as int,
                    )
            },
        },
{
    let least: Double = match check_chunks(chunks) {
        Ok(x) => x,
        Err(e) => {
            return Err(e);
        },
    };
    let (num_speakers, num_clusters) = chunks[0].shape();
    let mut out: Vec<Vec<i32>> = Vec::with_capacity(chunks.len());
    while out.len() < chunks.len()
        invariant
            out.len() <= chunks.len(),
            0 < num_speakers,
            0 < num_clusters <= 0x8000_0000,
            num_speakers == chunks@[0].height(),
            num_clusters == chunks@[0].width(),
            same_shape(chunks@, num_speakers as nat, num_clusters as nat),
            first_fault(all_cells(chunks@)) is None,
            least_finite(all_cells(chunks@)) == Some(least),
            least.finite(),
            forall|c: int|
                0 <= c < out.len() ==> is_best_labelling(
                    (#[trigger] out@[c])@,
                    cleaned(chunks@[c].row_major(), least),
                    num_speakers as int,
                    num_clusters as int,
                ),
            forall|c: int|
                0 <= c < out.len() ==> is_chosen_labelling(
                    (#[trigger] out@[c])@,
                    cleaned(chunks@[c].row_major(), least),
                    num_speakers as int,
                    num_clusters as int,
                ),
        decreases chunks.len() - out.len(),
    {
        let k: usize = out.len();
        let cells: &[Double] = chunks[k].cells();
        proof {
            assert forall|i: int| 0 <= i < cells@.len() implies (#[trigger] cells@[i]).nan()
                || cells@[i].finite() by {
                lemma_no_fault(chunks@, k as int, i);
            }
        }
        let finite: Vec<Double> = clean(cells, least);
        out.push(assign_cells(&finite, num_speakers, num_clusters));
    }
    Ok(out)
}

} // verus!
