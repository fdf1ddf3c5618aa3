//! Sums over selected positions, for the duality argument.

use vstd::prelude::*;

verus! {

/// The sum of a sequence.
pub open spec fn sum(f: Seq<int>) -> int
    decreases f.len(),
{
    if f.len() == 0 {
        0
    } else {
        sum(f.drop_last()) + f.last()
    }
}

/// The sum of the entries at the given positions.
pub open spec fn picked(f: Seq<int>, at: Seq<int>) -> int
    decreases at.len(),
{
    if at.len() == 0 {
        0
    } else {
        picked(f, at.drop_last()) + f[at.last()]
    }
}

/// Distinct positions of a sequence of length `n`.
pub open spec fn is_selection(at: Seq<int>, n: int) -> bool {
    &&& at.no_duplicates()
    &&& forall|k: int| 0 <= k < at.len() ==> 0 <= #[trigger] at[k] < n
}

pub proof fn lemma_sum_update(f: Seq<int>, j: int, x: int)
    requires
        0 <= j < f.len(),
    ensures
        sum(f.update(j, x)) == sum(f) - f[j] + x,
    decreases f.len(),
{
    let g = f.update(j, x);
    if j == f.len() - 1 {
        assert(g.drop_last() =~= f.drop_last());
    } else {
        lemma_sum_update(f.drop_last(), j, x);
        assert(g.drop_last() =~= f.drop_last().update(j, x));
    }
}

proof fn lemma_picked_update(f: Seq<int>, at: Seq<int>, j: int, x: int)
    requires
        0 <= j < f.len(),
        forall|k: int| 0 <= k < at.len() ==> 0 <= #[trigger] at[k] < f.len() && at[k] != j,
    ensures
        picked(f.update(j, x), at) == picked(f, at),
    decreases at.len(),
{
    if at.len() > 0 {
        let rest = at.drop_last();
        assert(forall|k: int| 0 <= k < rest.len() ==> rest[k] == #[trigger] at[k]);
        lemma_picked_update(f, rest, j, x);
        assert(at.last() == at[at.len() - 1]);
    }
}

proof fn lemma_selection_rest(at: Seq<int>, n: int)
    requires
        is_selection(at, n),
        at.len() > 0,
    ensures
        is_selection(at.drop_last(), n),
        0 <= at.last() < n,
        forall|k: int| 0 <= k < at.len() - 1 ==> #[trigger] at.drop_last()[k] != at.last(),
{
    let rest = at.drop_last();
    assert(forall|k: int| 0 <= k < rest.len() ==> rest[k] == #[trigger] at[k]);
    assert(at.last() == at[at.len() - 1]);
}

/// Leaving out positions of a sequence without positive entries only adds.
pub proof fn lemma_picked_nonpositive(f: Seq<int>, at: Seq<int>)
    requires
        is_selection(at, f.len() as int),
        forall|j: int| 0 <= j < f.len() ==> #[trigger] f[j] <= 0,
    ensures
        picked(f, at) >= sum(f),
    decreases at.len(),
{
    if at.len() == 0 {
        lemma_sum_nonpositive(f);
    } else {
        lemma_selection_rest(at, f.len() as int);
        let j = at.last();
        let rest = at.drop_last();
        let g = f.update(j, 0);
        lemma_picked_nonpositive(g, rest);
        lemma_picked_update(f, rest, j, 0);
        lemma_sum_update(f, j, 0);
    }
}

proof fn lemma_sum_nonpositive(f: Seq<int>)
    requires
        forall|j: int| 0 <= j < f.len() ==> #[trigger] f[j] <= 0,
    ensures
        sum(f) <= 0,
    decreases f.len(),
{
    if f.len() > 0 {
        let g = f.drop_last();
        assert(forall|j: int| 0 <= j < g.len() ==> g[j] == #[trigger] f[j]);
        lemma_sum_nonpositive(g);
        assert(f.last() == f[f.len() - 1]);
    }
}

/// Positions that hold all nonzero entries sum to the whole.
pub proof fn lemma_picked_all(f: Seq<int>, at: Seq<int>)
    requires
        is_selection(at, f.len() as int),
        forall|j: int| 0 <= j < f.len() && !at.contains(j) ==> #[trigger] f[j] == 0,
    ensures
        picked(f, at) == sum(f),
    decreases at.len(),
{
    if at.len() == 0 {
        lemma_sum_zero(f);
    } else {
        lemma_selection_rest(at, f.len() as int);
        let j = at.last();
        let rest = at.drop_last();
        let g = f.update(j, 0);
        assert forall|i: int| 0 <= i < g.len() && !rest.contains(i) implies #[trigger] g[i] == 0 by {
            if i != j {
                assert(!at.contains(i)) by {
                    if at.contains(i) {
                        let k = choose|k: int| 0 <= k < at.len() && at[k] == i;
                        assert(rest[k] == i);
                    }
                }
                assert(f[i] == 0);
            }
        }
        lemma_picked_all(g, rest);
        lemma_picked_update(f, rest, j, 0);
        lemma_sum_update(f, j, 0);
    }
}

proof fn lemma_sum_zero(f: Seq<int>)
    requires
        forall|j: int| 0 <= j < f.len() ==> #[trigger] f[j] == 0,
    ensures
        sum(f) == 0,
    decreases f.len(),
{
    if f.len() > 0 {
        let g = f.drop_last();
        assert(forall|j: int| 0 <= j < g.len() ==> g[j] == #[trigger] f[j]);
        lemma_sum_zero(g);
        assert(f.last() == f[f.len() - 1]);
    }
}

/// As many distinct positions as there are entries sum to no less than the
/// whole.
pub proof fn lemma_picked_full(f: Seq<int>, at: Seq<int>)
    requires
        is_selection(at, f.len() as int),
        at.len() == f.len(),
    ensures
        picked(f, at) >= sum(f),
{
    let m = lemma_upper_bound(f);
    let g = Seq::new(f.len(), |i: int| f[i] - m);
    lemma_picked_nonpositive(g, at);
    lemma_sum_shift(f, m);
    lemma_picked_shift(f, at, m);
}

proof fn lemma_upper_bound(f: Seq<int>) -> (m: int)
    ensures
        forall|j: int| 0 <= j < f.len() ==> #[trigger] f[j] <= m,
    decreases f.len(),
{
    if f.len() == 0 {
        0
    } else {
        let g = f.drop_last();
        let m = lemma_upper_bound(g);
        assert(forall|j: int| 0 <= j < g.len() ==> g[j] == #[trigger] f[j]);
        if f.last() > m { f.last() } else { m }
    }
}

proof fn lemma_sum_shift(f: Seq<int>, m: int)
    ensures
        sum(Seq::new(f.len(), |i: int| f[i] - m)) == sum(f) - f.len() * m,
    decreases f.len(),
{
    let g = Seq::new(f.len(), |i: int| f[i] - m);
    if f.len() > 0 {
        lemma_sum_shift(f.drop_last(), m);
        assert(g.drop_last() =~= Seq::new(f.drop_last().len(), |i: int| f.drop_last()[i] - m));
        let n = f.drop_last().len() as int;
        assert((n + 1) * m == n * m + m) by (nonlinear_arith);
    } else {
        assert(0 * m == 0);
    }
}

proof fn lemma_picked_shift(f: Seq<int>, at: Seq<int>, m: int)
    requires
        forall|k: int| 0 <= k < at.len() ==> 0 <= #[trigger] at[k] < f.len(),
    ensures
        picked(Seq::new(f.len(), |i: int| f[i] - m), at) == picked(f, at) - at.len() * m,
    decreases at.len(),
{
    if at.len() > 0 {
        let rest = at.drop_last();
        assert(forall|k: int| 0 <= k < rest.len() ==> rest[k] == #[trigger] at[k]);
        lemma_picked_shift(f, rest, m);
        assert(at.last() == at[at.len() - 1]);
        let n = rest.len() as int;
        assert((n + 1) * m == n * m + m) by (nonlinear_arith);
    } else {
        assert(0 * m == 0);
    }
}

/// A cell of the matrix is inside it.
pub proof fn lemma_index(nr: int, nc: int, i: int, j: int)
    requires
        0 <= i < nr,
        0 <= j < nc,
    ensures
        0 <= i * nc,
        0 <= i * nc + j < nr * nc,
{
    assert(0 <= i * nc && i * nc + nc <= nr * nc) by (nonlinear_arith)
        requires
            0 <= i < nr,
            0 < nc,
    ;
}

/// As many distinct positions as there are reach all of them.
pub proof fn lemma_selection_is_full(at: Seq<int>, n: int)
    requires
        is_selection(at, n),
        at.len() == n,
    ensures
        forall|i: int| 0 <= i < n ==> #[trigger] at.contains(i),
{
    at.unique_seq_to_set();
    let range = vstd::set_lib::set_int_range(0, n);
    vstd::set_lib::lemma_int_range(0, n);
    assert(at.to_set().subset_of(range)) by {
        assert forall|i: int| at.to_set().contains(i) implies range.contains(i) by {
            let k = choose|k: int| 0 <= k < at.len() && at[k] == i;
            assert(0 <= at[k] < n);
        }
    }
    vstd::set_lib::lemma_subset_equality(at.to_set(), range);
    assert forall|i: int| 0 <= i < n implies #[trigger] at.contains(i) by {
        assert(range.contains(i));
    }
}

} // verus!
