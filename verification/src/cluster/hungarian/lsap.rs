//! The rectangular linear sum assignment problem.

use vstd::prelude::*;
use crate::aggregate::count::{all_finite, is_all_finite};
use crate::cluster::hungarian::assignment::positions;
use crate::cluster::hungarian::error::{Error, NonFiniteError, ShapeError};
use crate::cluster::hungarian::feasible::lemma_finite_solution;
use crate::cluster::hungarian::orientation::{is_listing, lemma_source, list_pairs, other_count, pair_count, source, source_of};
use crate::cluster::hungarian::rule::solution;
use crate::cluster::hungarian::solver::solve;
use crate::cluster::hungarian::sums::is_selection;
use crate::cluster::hungarian::weight::views;
use crate::float::arith::Num;
use crate::float::order::lemma_of_num;
use crate::float::Double;

verus! {

/// The matrix that is solved: it has no more rows than columns, and its entries are
/// to be minimised.
pub open spec fn working_matrix(cost: Seq<Double>, nr: int, nc: int, maximize: bool) -> Seq<Double> {
    Seq::new(
        cost.len(),
        |t: int|
            if maximize {
                cost[source(t, nr, nc)].negated()
            } else {
                cost[source(t, nr, nc)]
            },
    )
}

/// The columns of the matrix that is solved; `None` where a search finds no column,
/// which never is so of finite costs.
pub open spec fn solved(cost: Seq<Double>, nr: int, nc: int, maximize: bool) -> Option<Seq<usize>> {
    let w = working_matrix(cost, nr, nc, maximize);
    if nc < nr {
        solution::<Double>(w, nc, nr)
    } else {
        solution::<Double>(w, nr, nc)
    }
}

/// Finite costs are solved: each row of the matrix gets a column of its own.
pub proof fn lemma_solved(cost: Seq<Double>, nr: int, nc: int, maximize: bool)
    requires
        0 < nr <= usize::MAX,
        0 < nc <= usize::MAX,
        cost.len() == nr * nc,
        all_finite(cost),
    ensures
        solved(cost, nr, nc, maximize) is Some,
        solved(cost, nr, nc, maximize)->0.len() == pair_count(nr, nc),
        is_selection(positions(solved(cost, nr, nc, maximize)->0), other_count(nr, nc)),
{
    let w = working_matrix(cost, nr, nc, maximize);
    assert(nc * nr == nr * nc) by (nonlinear_arith);
    assert forall|t: int| 0 <= t < w.len() implies (#[trigger] w[t]).finite() by {
        lemma_source(t, nr, nc);
        let x = cost[source(t, nr, nc)];
        assert(x.finite());
        lemma_of_num(Num { negative: !x.num().negative, magnitude: x.num().magnitude });
    }
    if nc < nr {
        lemma_finite_solution(w, nc, nr);
    } else {
        lemma_finite_solution(w, nr, nc);
    }
}

/// Why an assignment problem is refused, if it is.
pub open spec fn assignment_error(cost: Seq<Double>, nr: int, nc: int) -> Option<Error> {
    if nr == 0 || nc == 0 {
        Some(Error::Shape(ShapeError::EmptyChunks))
    } else if cost.len() != nr * nc {
        Some(Error::Shape(ShapeError::InconsistentChunkShape))
    } else if !all_finite(cost) {
        Some(Error::NonFinite(NonFiniteError::InfInSoftClusters))
    } else {
        None
    }
}

/// Solves the rectangular assignment problem for a row-major cost matrix.
///
/// Returns the pairs `(rows[k], cols[k])`, rows ascending, whose total cost is
/// least, or greatest if `maximize`, as far as the sums of the search are not rounded;
/// of several such assignments the one that the rule of the search names.
pub fn linear_sum_assignment(nr: usize, nc: usize, cost: &[Double], maximize: bool) -> (r: Result<
    (Vec<usize>, Vec<usize>),
    Error,
>)
    ensures
        match assignment_error(cost@, nr as int, nc as int) {
            Some(e) => r == Err::<(Vec<usize>, Vec<usize>), Error>(e),
            None => {
                &&& r is Ok
                &&& solved(cost@, nr as int, nc as int, maximize) is Some
                &&& is_listing(
                    solved(cost@, nr as int, nc as int, maximize)->0,
                    nr as int,
                    nc as int,
                    r->Ok_0.0@,
                    r->Ok_0.1@,
                )
            },
        },
{
    if nr == 0 || nc == 0 {
        return Err(Error::Shape(ShapeError::EmptyChunks));
    }
    let len: usize = cost.len();
    let matches: bool = match nr.checked_mul(nc) {
        Some(n) => len == n,
        None => false,
    };
    if !matches {
        return Err(Error::Shape(ShapeError::InconsistentChunkShape));
    }
    if !is_all_finite(cost) {
        return Err(Error::NonFinite(NonFiniteError::InfInSoftClusters));
    }
    let mut working: Vec<Double> = Vec::with_capacity(cost.len());
    while working.len() < cost.len()
        invariant
            0 < nr,
            0 < nc,
            cost.len() == nr * nc,
            working.len() <= cost.len(),
            forall|t: int|
                0 <= t < working.len() ==> #[trigger] working@[t] == working_matrix(
                    cost@,
                    nr as int,
                    nc as int,
                    maximize,
                )[t],
        decreases cost.len() - working.len(),
    {
        let x: Double = cost[source_of(working.len(), nr, nc)];
        if maximize {
            working.push(x.neg());
        } else {
            working.push(x);
        }
    }
    proof {
        assert(views(working@) =~= working_matrix(cost@, nr as int, nc as int, maximize));
        assert(nc * nr == nr * nc) by (nonlinear_arith);
        lemma_solved(cost@, nr as int, nc as int, maximize);
    }
    let partner: Option<Vec<usize>> = if nc < nr {
        solve(nc, nr, &working)
    } else {
        solve(nr, nc, &working)
    };
    match partner {
        None => Err(Error::Shape(ShapeError::EmptyChunks)),
        Some(p) => Ok(list_pairs(p, nr, nc)),
    }
}

} // verus!
