//! Spectral clustering.

use vstd::prelude::*;
use crate::cluster::agglomerative::affinity;
use crate::cluster::error::Error;
use crate::cluster::kmeans::{chosen_rows, contents, kmeans_lloyd, kmeans_pp_seed, picks, settled, unlabelled, MAX_ROUNDS};
use crate::cluster::options::{OfflineClusterOptions, MAX_AUTO_SPEAKERS};
use crate::embed::options::NORM_EPSILON;
use crate::embed::types::{norm_epsilon, Embedding};
use crate::float::sums::added;
use crate::float::{Double, Single};
use crate::matrix::{lemma_tabulated, row, DoubleMatrix, Grid};

verus! {

/// The similarity of two of the embeddings; zero on the diagonal.
pub open spec fn affinity_at(embeddings: Seq<Embedding>, i: int, j: int) -> Double {
    if i < j {
        affinity(embeddings[i], embeddings[j]).widened()
    } else if j < i {
        affinity(embeddings[j], embeddings[i]).widened()
    } else {
        Double::zero_spec()
    }
}

/// The matrix of all similarities.
pub open spec fn affinities(embeddings: Seq<Embedding>) -> Grid {
    Grid::tabulate(
        embeddings.len(),
        embeddings.len(),
        |i: int, j: int| affinity_at(embeddings, i, j),
    )
}

/// The matrix of all similarities.
pub fn build_affinity(embeddings: &[Embedding]) -> (a: DoubleMatrix)
    requires
        embeddings.len() * embeddings.len() <= usize::MAX,
    ensures
        a@ == affinities(embeddings@),
{
    let n: usize = embeddings.len();
    let cell = |i: usize, j: usize| -> (r: Double)
        requires
            i < embeddings.len(),
            j < embeddings.len(),
        ensures
            r == affinity_at(embeddings@, i as int, j as int),
        {
            if i < j {
                embeddings[i].similarity(&embeddings[j]).max(Single::zero()).to_double()
            } else if j < i {
                embeddings[j].similarity(&embeddings[i]).max(Single::zero()).to_double()
            } else {
                Double::zero()
            }
        };
    let a: DoubleMatrix = DoubleMatrix::from_fn(n, n, cell);
    proof {
        assert forall|i: int, j: int| 0 <= i < n && 0 <= j < n implies #[trigger] a@.at(i, j)
            == affinity_at(embeddings@, i, j) by {
            assert(a.at(i as usize as int, j as usize as int) == affinity_at(
                embeddings@,
                i as usize as int,
                j as usize as int,
            ));
        }
        lemma_tabulated(a@, |i: int, j: int| affinity_at(embeddings@, i, j));
    }
    a
}

/// The sum of row `i`, from zero.
pub open spec fn degree(a: Grid, i: int) -> Double {
    added(Double::zero_spec(), row(a, i), a.width)
}

pub open spec fn degrees(a: Grid) -> Seq<Double> {
    Seq::new(a.height, |i: int| degree(a, i))
}

/// Row `i` adds up to nearly nothing.
pub open spec fn is_isolated(a: Grid, i: int) -> bool {
    degree(a, i).below(norm_epsilon().widened())
}

pub open spec fn has_isolated(a: Grid) -> bool {
    exists|i: int| 0 <= i < a.height && #[trigger] is_isolated(a, i)
}

/// The row sums; an error where one is nearly zero.
pub fn compute_degrees(a: &DoubleMatrix) -> (r: Result<Vec<Double>, Error>)
    ensures
        r is Err <==> has_isolated(a@),
        r is Err ==> r->Err_0 == Error::AllDissimilar,
        r is Ok ==> r->Ok_0@ == degrees(a@),
{
    let (n, width) = a.shape();
    let eps: Double = Single::from_bits(NORM_EPSILON).to_double();
    let mut r: Vec<Double> = Vec::with_capacity(n);
    let mut isolated: bool = false;
    while r.len() < n
        invariant
            n == a.height(),
            width == a.width(),
            eps == norm_epsilon().widened(),
            r.len() <= n,
            forall|i: int| 0 <= i < r.len() ==> #[trigger] r@[i] == degree(a@, i),
            isolated <==> exists|i: int| 0 <= i < r.len() && #[trigger] is_isolated(a@, i),
        decreases n - r.len(),
    {
        let i: usize = r.len();
        let mut total: Double = Double::zero();
        let mut j: usize = 0;
        while j < width
            invariant
                i < a.height(),
                width == a.width(),
                j <= width,
                total == added(Double::zero_spec(), row(a@, i as int), j as nat),
            decreases width - j,
        {
            total = total.add(a.get(i, j));
            j = j + 1;
        }
        if total.lt(eps) {
            proof {
                assert(is_isolated(a@, i as int));
            }
            isolated = true;
        }
        r.push(total);
    }
    if isolated {
        return Err(Error::AllDissimilar);
    }
    proof {
        assert(r@ =~= degrees(a@));
    }
    Ok(r)
}

/// Cell `(i, j)` of the symmetric normalised Laplacian: the affinity divided by
/// the roots of both degrees, subtracted from the identity.
pub open spec fn laplacian_at(a: Grid, d: Seq<Double>, i: int, j: int) -> Double {
    let scaled = a.at(i, j).times(
        Double::one_spec().over(d[i].root()).times(Double::one_spec().over(d[j].root())),
    ).negated();
    if i == j {
        scaled.plus(Double::one_spec())
    } else {
        scaled
    }
}

/// The symmetric normalised Laplacian.
pub open spec fn laplacian(a: Grid) -> Grid {
    Grid::tabulate(a.height, a.height, |i: int, j: int| laplacian_at(a, degrees(a), i, j))
}

/// The symmetric normalised Laplacian of a square affinity matrix.
pub fn normalized_laplacian(a: &DoubleMatrix, d: &[Double]) -> (l: DoubleMatrix)
    requires
        a.height() == a.width(),
        d.len() == a.height(),
        a.height() * a.height() <= usize::MAX,
    ensures
        l@ == Grid::tabulate(
            a.height(),
            a.height(),
            |i: int, j: int| laplacian_at(a@, d@, i, j),
        ),
{
    let n: usize = d.len();
    let mut inverse: Vec<Double> = Vec::with_capacity(n);
    while inverse.len() < n
        invariant
            n == d.len(),
            inverse.len() <= n,
            forall|i: int|
                0 <= i < inverse.len() ==> #[trigger] inverse@[i] == Double::one_spec().over(
                    d@[i].root(),
                ),
        decreases n - inverse.len(),
    {
        inverse.push(Double::one().div(d[inverse.len()].sqrt()));
    }
    let inv: &[Double] = inverse.as_slice();
    let cell = |i: usize, j: usize| -> (r: Double)
        requires
            i < n,
            j < n,
            n == a.height(),
            n == a.width(),
            n == d@.len(),
            inv@.len() == n,
            forall|i: int|
                0 <= i < n ==> #[trigger] inv@[i] == Double::one_spec().over(d@[i].root()),
        ensures
            r == laplacian_at(a@, d@, i as int, j as int),
        {
            let scaled: Double = a.get(i, j).mul(inv[i].mul(inv[j])).neg();
            if i == j {
                scaled.add(Double::one())
            } else {
                scaled
            }
        };
    let l: DoubleMatrix = DoubleMatrix::from_fn(n, n, cell);
    proof {
        assert forall|i: int, j: int| 0 <= i < n && 0 <= j < n implies #[trigger] l@.at(i, j)
            == laplacian_at(a@, d@, i, j) by {
            assert(l.at(i as usize as int, j as usize as int) == laplacian_at(
                a@,
                d@,
                i as usize as int,
                j as usize as int,
            ));
        }
        lemma_tabulated(l@, |i: int, j: int| laplacian_at(a@, d@, i, j));
    }
    l
}

/// The eigenvalues of a symmetric matrix, in any order, and its eigenvectors as
/// the columns of a matrix, in the same order.
pub struct Eigen {
    pub values: Vec<Double>,
    pub vectors: DoubleMatrix,
}

impl Eigen {
    /// The shape of the decomposition of an `n` by `n` matrix.
    pub open spec fn has_size(&self, n: nat) -> bool {
        self.values@.len() == n && self.vectors.height() == n && self.vectors.width() == n
    }
}

/// The eigenvalues in ascending order.
pub open spec fn sorted_values(eigen: Eigen) -> Seq<Double> {
    let order = ascending(eigen.values@);
    Seq::new(order.len(), |p: int| eigen.values@[order[p] as int])
}

/// The eigenvectors in the order of their values.
pub open spec fn sorted_vectors(eigen: Eigen) -> Grid {
    let order = ascending(eigen.values@);
    Grid::tabulate(
        eigen.vectors.height(),
        order.len(),
        |i: int, j: int| eigen.vectors.at(i, order[j] as int),
    )
}

/// The place of a number in the total order: by value, negative zero before zero.
pub open spec fn total_rank(x: Double) -> int {
    if x.num().negative {
        -1 - x.num().magnitude as int
    } else {
        x.num().magnitude as int
    }
}

fn total_rank_of(x: Double) -> (r: i128)
    ensures
        r == total_rank(x),
{
    let n = x.unpack();
    if n.negative {
        -1 - n.magnitude as i128
    } else {
        n.magnitude as i128
    }
}

/// The positions of all numbers, in ascending order of the numbers; those of equal
/// ones in ascending order of the positions.
pub open spec fn is_ascending_order(values: Seq<Double>, order: Seq<usize>) -> bool {
    &&& order.len() == values.len()
    &&& forall|p: int| 0 <= p < order.len() ==> #[trigger] order[p] < values.len()
    &&& forall|p: int, q: int|
        0 <= p < q < order.len() ==> precedes(
            values,
            #[trigger] order[p] as int,
            #[trigger] order[q] as int,
        )
}

/// The number at position `i` comes before the one at position `j`.
pub open spec fn precedes(values: Seq<Double>, i: int, j: int) -> bool {
    total_rank(values[i]) < total_rank(values[j]) || (total_rank(values[i]) == total_rank(
        values[j],
    ) && i < j)
}

/// The positions of all numbers, in ascending order of the numbers.
pub open spec fn ascending(values: Seq<Double>) -> Seq<usize> {
    choose|order: Seq<usize>| is_ascending_order(values, order)
}

/// Two ascending orders agree on their first `p` places.
proof fn lemma_order_agrees(values: Seq<Double>, a: Seq<usize>, b: Seq<usize>, p: int)
    requires
        is_ascending_order(values, a),
        is_ascending_order(values, b),
        0 <= p <= values.len(),
    ensures
        forall|q: int| 0 <= q < p ==> #[trigger] a[q] == b[q],
    decreases p,
{
    if p > 0 {
        lemma_order_agrees(values, a, b, p - 1);
        let x = a[p - 1];
        let y = b[p - 1];
        if x != y {
            lemma_order_covers(values, a, y as int);
            lemma_order_covers(values, b, x as int);
            let i = choose|i: int| 0 <= i < a.len() && #[trigger] a[i] == y;
            let j = choose|j: int| 0 <= j < b.len() && #[trigger] b[j] == x;
            if i < p - 1 {
                assert(a[i] == b[i]);
                assert(precedes(values, b[i] as int, b[p - 1] as int));
            } else if j < p - 1 {
                assert(a[j] == b[j]);
                assert(precedes(values, a[j] as int, a[p - 1] as int));
            } else {
                assert(precedes(values, a[p - 1] as int, a[i] as int));
                assert(precedes(values, b[p - 1] as int, b[j] as int));
            }
        }
    }
}

/// Every position stands somewhere in an ascending order.
pub proof fn lemma_order_covers(values: Seq<Double>, order: Seq<usize>, x: int)
    requires
        is_ascending_order(values, order),
        0 <= x < values.len(),
    ensures
        exists|i: int| 0 <= i < order.len() && #[trigger] order[i] == x,
{
    let n = values.len();
    let ints = order.map_values(|v: usize| v as int);
    assert(ints.no_duplicates()) by {
        assert forall|p: int, q: int|
            0 <= p < ints.len() && 0 <= q < ints.len() && p != q implies ints[p] != ints[q] by {
            if p < q {
                assert(precedes(values, order[p] as int, order[q] as int));
            } else {
                assert(precedes(values, order[q] as int, order[p] as int));
            }
        }
    }
    ints.unique_seq_to_set();
    let range = vstd::set_lib::set_int_range(0, n as int);
    vstd::set_lib::lemma_int_range(0, n as int);
    assert(ints.to_set().subset_of(range)) by {
        assert forall|v: int| ints.to_set().contains(v) implies range.contains(v) by {
            let p = choose|p: int| 0 <= p < ints.len() && ints[p] == v;
            assert(order[p] < n);
        }
    }
    vstd::set_lib::lemma_subset_equality(ints.to_set(), range);
    assert(ints.to_set().contains(x));
    let i = choose|i: int| 0 <= i < ints.len() && ints[i] == x;
    assert(order[i] == x);
}

/// There is only one ascending order.
proof fn lemma_ascending(values: Seq<Double>, order: Seq<usize>)
    requires
        is_ascending_order(values, order),
    ensures
        order == ascending(values),
{
    lemma_order_agrees(values, order, ascending(values), values.len() as int);
    assert(order =~= ascending(values));
}

/// Where the number of the given rank goes in an ascending list: behind all that
/// are not larger.
proof fn lemma_slot(values: Seq<Double>, order: Seq<usize>, rank: int, from: int) -> (at: int)
    requires
        0 <= from <= order.len(),
        forall|p: int|
            from <= p < order.len() ==> rank < total_rank(values[#[trigger] order[p] as int]),
    ensures
        0 <= at <= from,
        forall|p: int|
            at <= p < order.len() ==> rank < total_rank(values[#[trigger] order[p] as int]),
        at > 0 ==> total_rank(values[order[at - 1] as int]) <= rank,
    decreases from,
{
    if from > 0 && rank < total_rank(values[order[from - 1] as int]) {
        lemma_slot(values, order, rank, from - 1)
    } else {
        from
    }
}

/// Positions below `n` in ascending order of their numbers.
spec fn is_partial_order(values: Seq<Double>, order: Seq<usize>, n: nat) -> bool {
    &&& order.len() == n
    &&& forall|p: int| 0 <= p < order.len() ==> #[trigger] order[p] < n
    &&& forall|p: int, q: int|
        0 <= p < q < order.len() ==> precedes(
            values,
            #[trigger] order[p] as int,
            #[trigger] order[q] as int,
        )
}

/// The next position is put into its slot.
proof fn lemma_insert(values: Seq<Double>, order: Seq<usize>, n: nat, at: int)
    requires
        n < values.len() <= usize::MAX,
        is_partial_order(values, order, n),
        0 <= at <= n,
        forall|p: int|
            at <= p < n ==> total_rank(values[n as int]) < total_rank(
                values[#[trigger] order[p] as int],
            ),
        at > 0 ==> total_rank(values[order[at - 1] as int]) <= total_rank(values[n as int]),
    ensures
        is_partial_order(values, order.insert(at, n as usize), n + 1),
{
    let next = order.insert(at, n as usize);
    assert forall|p: int| 0 <= p < next.len() implies #[trigger] next[p] < n + 1 by {
        if p < at {
            assert(next[p] == order[p]);
        } else if p > at {
            assert(next[p] == order[p - 1]);
        }
    }
    assert forall|p: int, q: int| 0 <= p < q < next.len() implies precedes(
        values,
        #[trigger] next[p] as int,
        #[trigger] next[q] as int,
    ) by {
        let old_p = if p < at { p } else { p - 1 };
        let old_q = if q < at { q } else { q - 1 };
        if p != at && q != at {
            assert(next[p] == order[old_p] && next[q] == order[old_q]);
        } else if q == at {
            assert(next[p] == order[p]);
            assert(order[p] < n);
            if p < at - 1 {
                assert(precedes(values, order[p] as int, order[at - 1] as int));
            }
        } else {
            assert(next[q] == order[q - 1]);
        }
    }
}

/// Numbers can be put in ascending order.
pub proof fn lemma_ascending_exists(values: Seq<Double>)
    requires
        values.len() <= usize::MAX,
    ensures
        is_ascending_order(values, ascending(values)),
{
    let order = lemma_order_exists(values, values.len());
    assert(is_ascending_order(values, order));
}

proof fn lemma_order_exists(values: Seq<Double>, n: nat) -> (order: Seq<usize>)
    requires
        n <= values.len() <= usize::MAX,
    ensures
        is_partial_order(values, order, n),
    decreases n,
{
    if n == 0 {
        Seq::empty()
    } else {
        let m = (n - 1) as nat;
        let rest = lemma_order_exists(values, m);
        let at = lemma_slot(values, rest, total_rank(values[m as int]), m as int);
        lemma_insert(values, rest, m, at);
        rest.insert(at, m as usize)
    }
}

/// The positions of all numbers, in ascending order.
fn ascending_order(values: &[Double]) -> (order: Vec<usize>)
    ensures
        is_ascending_order(values@, order@),
{
    let mut order: Vec<usize> = Vec::with_capacity(values.len());
    let mut i: usize = 0;
    while i < values.len()
        invariant
            i <= values.len(),
            is_partial_order(values@, order@, i as nat),
        decreases values.len() - i,
    {
        let rank: i128 = total_rank_of(values[i]);
        let mut at: usize = i;
        while at > 0 && total_rank_of(values[order[at - 1]]) > rank
            invariant
                i < values.len(),
                is_partial_order(values@, order@, i as nat),
                at <= i,
                rank == total_rank(values@[i as int]),
                forall|p: int|
                    at <= p < i ==> rank < total_rank(values@[#[trigger] order@[p] as int]),
            decreases at,
        {
            at = at - 1;
        }
        proof {
            lemma_insert(values@, order@, i as nat, at as int);
        }
        order.insert(at, i);
        i = i + 1;
    }
    order
}

/// All numbers are finite.
pub open spec fn all_finite(values: Seq<Double>) -> bool {
    forall|i: int| 0 <= i < values.len() ==> (#[trigger] values[i]).finite()
}

/// Puts eigenvalues in ascending order, and their vectors with them.
pub fn sort_eigen(eigen: &Eigen) -> (r: Result<(Vec<Double>, DoubleMatrix), Error>)
    requires
        eigen.has_size(eigen.values@.len()),
        eigen.values@.len() * eigen.values@.len() <= usize::MAX,
    ensures
        r is Err <==> !all_finite(eigen.values@),
        r is Err ==> r->Err_0 == Error::EigendecompositionFailed,
        r is Ok ==> r->Ok_0.0@ == sorted_values(*eigen) && r->Ok_0.1@ == sorted_vectors(*eigen),
        r is Ok ==> r->Ok_0.0@.len() == eigen.values@.len(),
        r is Ok ==> r->Ok_0.1.width() == eigen.values@.len(),
{
    let values: &[Double] = eigen.values.as_slice();
    let n: usize = values.len();
    let mut i: usize = 0;
    while i < n
        invariant
            i <= n,
            n == values.len(),
            values@ == eigen.values@,
            forall|k: int| 0 <= k < i ==> (#[trigger] values@[k]).finite(),
        decreases n - i,
    {
        if !values[i].is_finite() {
            proof {
                assert(!values@[i as int].finite());
            }
            return Err(Error::EigendecompositionFailed);
        }
        i = i + 1;
    }
    let order_vec: Vec<usize> = ascending_order(values);
    let order: &[usize] = order_vec.as_slice();
    let mut sorted: Vec<Double> = Vec::with_capacity(n);
    while sorted.len() < n
        invariant
            n == values.len(),
            order.len() == n,
            is_ascending_order(values@, order@),
            sorted.len() <= n,
            forall|p: int|
                0 <= p < sorted.len() ==> #[trigger] sorted@[p] == values@[order@[p] as int],
        decreases n - sorted.len(),
    {
        let old_column: usize = order[sorted.len()];
        sorted.push(values[old_column]);
    }
    let cell = |i: usize, j: usize| -> (r: Double)
        requires
            i < n,
            j < n,
            eigen.has_size(n as nat),
            order@.len() == n,
            forall|p: int| 0 <= p < n ==> #[trigger] order@[p] < n,
        ensures
            r == eigen.vectors.at(i as int, order@[j as int] as int),
        { eigen.vectors.get(i, order[j]) };
    let vectors: DoubleMatrix = DoubleMatrix::from_fn(n, n, cell);
    proof {
        lemma_ascending(eigen.values@, order@);
        assert(sorted@ =~= sorted_values(*eigen));
        let f = |i: int, j: int| eigen.vectors.at(i, order@[j] as int);
        assert forall|i: int, j: int| 0 <= i < n && 0 <= j < n implies #[trigger] vectors@.at(i, j)
            == f(i, j) by {
            assert(vectors.at(i as usize as int, j as usize as int) == eigen.vectors.at(
                i as usize as int,
                order@[j as usize as int] as int,
            ));
        }
        lemma_tabulated(vectors@, f);
    }
    Ok((sorted, vectors))
}

/// The gap after eigenvalue `k`.
pub open spec fn gap(values: Seq<Double>, k: int) -> Double {
    values[k + 1].minus(values[k])
}

/// How many gaps are looked at for `n` eigenvalues.
pub open spec fn gaps(n: nat) -> nat {
    if n == 0 {
        0
    } else if n - 1 < MAX_AUTO_SPEAKERS {
        (n - 1) as nat
    } else {
        MAX_AUTO_SPEAKERS as nat
    }
}

/// The last of the largest gaps comes after eigenvalue `k`.
pub open spec fn is_largest_gap(values: Seq<Double>, k: int) -> bool {
    &&& 0 <= k < gaps(values.len())
    &&& forall|i: int| 0 <= i < k ==> total_rank(#[trigger] gap(values, i)) <= total_rank(
        gap(values, k),
    )
    &&& forall|i: int|
        k < i < gaps(values.len()) ==> total_rank(#[trigger] gap(values, i)) < total_rank(
            gap(values, k),
        )
}

/// The number of clusters: the target, or else the number of eigenvalues before
/// their largest gap.
pub open spec fn is_cluster_count(values: Seq<Double>, target: Option<u32>, k: int) -> bool {
    match target {
        Some(t) => k == t,
        None => if gaps(values.len()) == 0 {
            k == 1
        } else {
            is_largest_gap(values, k - 1)
        },
    }
}

/// The number of clusters.
pub open spec fn cluster_count(values: Seq<Double>, target: Option<u32>) -> int {
    choose|k: int| is_cluster_count(values, target, k)
}

/// There is only one such number.
pub proof fn lemma_cluster_count(values: Seq<Double>, target: Option<u32>, k: int)
    requires
        is_cluster_count(values, target, k),
    ensures
        k == cluster_count(values, target),
{
    let other = cluster_count(values, target);
    if target is None && gaps(values.len()) > 0 {
        if k < other {
            assert(total_rank(gap(values, k - 1)) <= total_rank(gap(values, other - 1)));
        } else if other < k {
            assert(total_rank(gap(values, other - 1)) <= total_rank(gap(values, k - 1)));
        }
    }
}

/// The number of clusters for ascending eigenvalues.
pub fn pick_k(eigenvalues: &[Double], n: usize, target_speakers: Option<u32>) -> (k: usize)
    requires
        eigenvalues.len() == n,
    ensures
        is_cluster_count(eigenvalues@, target_speakers, k as int),
{
    if let Some(t) = target_speakers {
        return t as usize;
    }
    if n <= 1 {
        return 1;
    }
    let mut k_max: usize = MAX_AUTO_SPEAKERS as usize;
    if n - 1 < k_max {
        k_max = n - 1;
    }
    let mut best: usize = 0;
    let mut best_rank: i128 = total_rank_of(eigenvalues[1].sub(eigenvalues[0]));
    let mut k: usize = 1;
    while k < k_max
        invariant
            eigenvalues.len() == n,
            k_max == gaps(n as nat),
            k_max < n,
            best < k <= k_max,
            best_rank == total_rank(gap(eigenvalues@, best as int)),
            forall|i: int|
                0 <= i < best ==> total_rank(#[trigger] gap(eigenvalues@, i)) <= best_rank,
            forall|i: int|
                best < i < k ==> total_rank(#[trigger] gap(eigenvalues@, i)) < best_rank,
        decreases k_max - k,
    {
        let rank: i128 = total_rank_of(eigenvalues[k + 1].sub(eigenvalues[k]));
        if rank >= best_rank {
            best = k;
            best_rank = rank;
        }
        k = k + 1;
    }
    best + 1
}

/// The squares of the first `k` cells of row `i`.
pub open spec fn row_squares(v: Grid, i: int, k: nat) -> Seq<Double> {
    Seq::new(k, |j: int| v.at(i, j).times(v.at(i, j)))
}

/// The length of the first `k` cells of row `i`.
pub open spec fn row_norm(v: Grid, i: int, k: nat) -> Double {
    added(Double::zero_spec(), row_squares(v, i, k), k).root()
}

/// A cell scaled so that the first `k` cells of its row have unit length; a row of
/// nearly no length is left as it is.
pub open spec fn unit_cell(v: Grid, k: nat, i: int, j: int) -> Double {
    if norm_epsilon().widened().below(row_norm(v, i, k)) {
        v.at(i, j).times(Double::one_spec().over(row_norm(v, i, k)))
    } else {
        v.at(i, j)
    }
}

/// The first `k` columns with rows of unit length.
pub open spec fn unit_rows(v: Grid, k: nat) -> Grid {
    Grid::tabulate(v.height, k, |i: int, j: int| unit_cell(v, k, i, j))
}

/// The first `k` columns with rows of unit length.
pub fn normalize_rows(v: &DoubleMatrix, k: usize) -> (u: DoubleMatrix)
    requires
        k <= v.width(),
        v.height() * k <= usize::MAX,
    ensures
        u@ == unit_rows(v@, k as nat),
{
    let (n, _) = v.shape();
    let eps: Double = Single::from_bits(NORM_EPSILON).to_double();
    let mut factors: Vec<Option<Double>> = Vec::with_capacity(n);
    while factors.len() < n
        invariant
            n == v.height(),
            k <= v.width(),
            eps == norm_epsilon().widened(),
            factors.len() <= n,
            forall|i: int|
                0 <= i < factors.len() ==> #[trigger] is_factor(factors@[i], v@, k as nat, i),
        decreases n - factors.len(),
    {
        let i: usize = factors.len();
        let mut total: Double = Double::zero();
        let mut j: usize = 0;
        while j < k
            invariant
                i < v.height(),
                k <= v.width(),
                j <= k,
                total == added(
                    Double::zero_spec(),
                    row_squares(v@, i as int, k as nat),
                    j as nat,
                ),
            decreases k - j,
        {
            let x: Double = v.get(i, j);
            total = total.add(x.mul(x));
            j = j + 1;
        }
        let norm: Double = total.sqrt();
        if norm.gt(eps) {
            factors.push(Some(Double::one().div(norm)));
        } else {
            factors.push(None);
        }
    }
    let scales: &[Option<Double>] = factors.as_slice();
    let cell = |i: usize, j: usize| -> (r: Double)
        requires
            i < n,
            j < k,
            n == v.height(),
            k <= v.width(),
            scales@.len() == n,
            forall|i: int|
                0 <= i < n ==> #[trigger] is_factor(scales@[i], v@, k as nat, i),
        ensures
            r == unit_cell(v@, k as nat, i as int, j as int),
        {
            proof {
                assert(is_factor(scales@[i as int], v@, k as nat, i as int));
            }
            match scales[i] {
                Some(scale) => v.get(i, j).mul(scale),
                None => v.get(i, j),
            }
        };
    let u: DoubleMatrix = DoubleMatrix::from_fn(n, k, cell);
    proof {
        let f = |i: int, j: int| unit_cell(v@, k as nat, i, j);
        assert forall|i: int, j: int| 0 <= i < n && 0 <= j < k implies #[trigger] u@.at(i, j)
            == f(i, j) by {
            assert(u.at(i as usize as int, j as usize as int) == unit_cell(
                v@,
                k as nat,
                i as usize as int,
                j as usize as int,
            ));
        }
        lemma_tabulated(u@, f);
    }
    u
}

/// What row `i` is multiplied by, if anything.
spec fn is_factor(factor: Option<Double>, v: Grid, k: nat, i: int) -> bool {
    if norm_epsilon().widened().below(row_norm(v, i, k)) {
        factor == Some(Double::one_spec().over(row_norm(v, i, k)))
    } else {
        factor is None
    }
}

/// The labels of the rows of `u` in `k` clusters.
pub open spec fn row_labels(u: Grid, k: nat, seed: u64) -> Seq<usize> {
    settled(
        u,
        chosen_rows(u, picks(u, k, seed).chosen),
        unlabelled(u.height),
        MAX_ROUNDS as nat,
    )
}

/// The labels that an eigendecomposition leads to.
pub open spec fn eigen_labels(eigen: Eigen, target: Option<u32>, seed: u64) -> Seq<u64> {
    let k = cluster_count(sorted_values(eigen), target) as nat;
    let labels = row_labels(unit_rows(sorted_vectors(eigen), k), k, seed);
    Seq::new(labels.len(), |i: int| labels[i] as u64)
}

/// The number of clusters is that of the target or, without one, at most
/// [`MAX_AUTO_SPEAKERS`]; there are never more clusters than eigenvalues.
pub proof fn law_cluster_count_is_bounded(values: Seq<Double>, target: Option<u32>, k: int)
    requires
        values.len() >= 1,
        is_cluster_count(values, target, k),
        target is Some ==> 1 <= target->0 <= values.len(),
    ensures
        1 <= k <= values.len(),
        target is Some ==> k == target->0,
        target is None ==> k <= MAX_AUTO_SPEAKERS,
{
}

/// The labels that an eigendecomposition leads to.
pub fn label_by_eigen(eigen: &Eigen, target: Option<u32>, seed: u64) -> (r: Result<
    Vec<u64>,
    Error,
>)
    requires
        eigen.has_size(eigen.values@.len()),
        eigen.values@.len() >= 1,
        eigen.values@.len() * eigen.values@.len() <= usize::MAX,
        target is Some ==> 1 <= target->0 <= eigen.values@.len(),
    ensures
        r is Err <==> !all_finite(eigen.values@),
        r is Err ==> r->Err_0 == Error::EigendecompositionFailed,
        r is Ok ==> r->Ok_0@ == eigen_labels(*eigen, target, seed),
        r is Ok ==> r->Ok_0@.len() == eigen.values@.len(),
        r is Ok ==> forall|i: int|
            0 <= i < r->Ok_0@.len() ==> #[trigger] r->Ok_0@[i] < cluster_count(
                sorted_values(*eigen),
                target,
            ),
{
    let n: usize = eigen.values.len();
    let (values, vectors) = match sort_eigen(eigen) {
        Ok(sorted) => sorted,
        Err(e) => {
            return Err(e);
        },
    };
    let k: usize = pick_k(values.as_slice(), n, target);
    proof {
        law_cluster_count_is_bounded(values@, target, k as int);
        lemma_cluster_count(values@, target, k as int);
        assert(n * k <= n * n) by (nonlinear_arith)
            requires
                k <= n,
        ;
    }
    let u: DoubleMatrix = normalize_rows(&vectors, k);
    let initial: Vec<Vec<Double>> = kmeans_pp_seed(&u, k, seed);
    proof {
        let points = contents(initial@);
        assert forall|c: int| 0 <= c < points.len() implies (#[trigger] points[c]).len()
            == u.width() by {
            assert(points[c] == row(u@, picks(u@, k as nat, seed).chosen[c] as int));
        }
    }
    let assignments: Vec<usize> = kmeans_lloyd(&u, initial);
    let mut labels: Vec<u64> = Vec::with_capacity(n);
    while labels.len() < n
        invariant
            assignments.len() == n,
            labels.len() <= n,
            forall|i: int| 0 <= i < assignments.len() ==> #[trigger] assignments@[i] < k,
            forall|i: int|
                0 <= i < labels.len() ==> #[trigger] labels@[i] == assignments@[i] as u64
                    && labels@[i] < k,
        decreases n - labels.len(),
    {
        labels.push(assignments[labels.len()] as u64);
    }
    proof {
        assert(labels@ =~= eigen_labels(*eigen, target, seed));
    }
    Ok(labels)
}

/// The Laplacian of the affinities of embeddings.
pub open spec fn laplacian_of(embeddings: Seq<Embedding>) -> Grid {
    laplacian(affinities(embeddings))
}

/// The seed of the options, zero without one.
pub open spec fn seed_of(opts: OfflineClusterOptions) -> u64 {
    match opts.chosen_seed() {
        Some(seed) => seed,
        None => 0,
    }
}

/// What a decomposition makes of the clustering: its labels, or an error where an
/// eigenvalue is not finite.
pub open spec fn is_eigen_answer(
    r: Result<Vec<u64>, Error>,
    eigen: Eigen,
    opts: OfflineClusterOptions,
) -> bool {
    &&& r is Err <==> !all_finite(eigen.values@)
    &&& r is Err ==> r->Err_0 == Error::EigendecompositionFailed
    &&& r is Ok ==> r->Ok_0@ == eigen_labels(eigen, opts.target(), seed_of(opts))
}

/// `decompose` returned `eigen` for the Laplacian of the embeddings.
pub open spec fn is_decomposition<F: Fn(&DoubleMatrix) -> Eigen>(
    decompose: F,
    embeddings: Seq<Embedding>,
    eigen: Eigen,
) -> bool {
    exists|l: &DoubleMatrix|
        l@ == laplacian_of(embeddings) && #[trigger] call_ensures(decompose, (l,), eigen)
}

/// Clusters embeddings by the eigenvectors of the Laplacian of their affinities,
/// which `decompose` finds. An error where an embedding is similar to no other.
pub fn cluster<F: Fn(&DoubleMatrix) -> Eigen>(
    embeddings: &[Embedding],
    opts: &OfflineClusterOptions,
    decompose: F,
) -> (r: Result<Vec<u64>, Error>)
    requires
        embeddings.len() >= 1,
        embeddings.len() * embeddings.len() <= usize::MAX,
        opts.target() is Some ==> 1 <= opts.target()->0 <= embeddings.len(),
        forall|l: &DoubleMatrix|
            l.height() == embeddings.len() && l.width() == embeddings.len()
                ==> #[trigger] call_requires(decompose, (l,)),
        forall|l: &DoubleMatrix, eigen: Eigen| #[trigger]
            call_ensures(decompose, (l,), eigen) ==> eigen.has_size(l.height()),
    ensures
        has_isolated(affinities(embeddings@)) ==> r == Err::<Vec<u64>, Error>(
            Error::AllDissimilar,
        ),
        !has_isolated(affinities(embeddings@)) ==> exists|eigen: Eigen| #[trigger]
            is_decomposition(decompose, embeddings@, eigen) && is_eigen_answer(r, eigen, *opts),
{
    let n: usize = embeddings.len();
    let a: DoubleMatrix = build_affinity(embeddings);
    let d: Vec<Double> = match compute_degrees(&a) {
        Ok(d) => d,
        Err(e) => {
            return Err(e);
        },
    };
    let l: DoubleMatrix = normalized_laplacian(&a, d.as_slice());
    proof {
        let f = |i: int, j: int| laplacian_at(a@, d@, i, j);
        assert(l@ =~= laplacian_of(embeddings@));
    }
    let eigen: Eigen = decompose(&l);
    let seed: u64 = match opts.seed() {
        Some(seed) => seed,
        None => 0,
    };
    proof {
        assert(call_ensures(decompose, (&l,), eigen));
        assert(is_decomposition(decompose, embeddings@, eigen));
    }
    label_by_eigen(&eigen, opts.target_speakers(), seed)
}

} // verus!
