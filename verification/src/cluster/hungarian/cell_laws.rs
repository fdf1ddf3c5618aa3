//! What is found among the cells of all chunks.

use vstd::prelude::*;
use crate::cluster::hungarian::algo::{all_cells, cleaned, column_major, cost_fault, first_fault, least_finite};
use crate::float::arith::law_rank_orders_values;
use crate::float::double::{binary64, lemma_double_format};
use crate::float::Double;
use crate::matrix::DoubleMatrix;

verus! {

/// No fault is found where no cell has one; otherwise the first is, and none before it.
pub proof fn law_first_fault_is_reported(cells: Seq<Double>)
    ensures
        first_fault(cells) is None <==> forall|i: int|
            0 <= i < cells.len() ==> cost_fault(#[trigger] cells[i]) is None,
        first_fault(cells) is Some ==> exists|i: int|
            0 <= i < cells.len() && cost_fault(#[trigger] cells[i]) == first_fault(cells) && (forall|
                j: int,
            | 0 <= j < i ==> cost_fault(#[trigger] cells[j]) is None),
    decreases cells.len(),
{
    if cells.len() > 0 {
        let before = cells.drop_last();
        law_first_fault_is_reported(before);
        if first_fault(before) is Some {
            let i = choose|i: int|
                0 <= i < before.len() && cost_fault(#[trigger] before[i]) == first_fault(before)
                    && (forall|j: int| 0 <= j < i ==> cost_fault(#[trigger] before[j]) is None);
            assert(cost_fault(cells[i]) == first_fault(cells));
            assert forall|j: int| 0 <= j < i implies cost_fault(#[trigger] cells[j]) is None by {
                assert(cost_fault(before[j]) is None);
            }
        } else {
            let n = cells.len() - 1;
            assert forall|j: int| 0 <= j < n implies cost_fault(#[trigger] cells[j]) is None by {
                assert(cost_fault(before[j]) is None);
            }
            assert(cost_fault(cells[n]) == first_fault(cells));
        }
    }
}

/// The least finite cell is there wherever a cell is finite, it is one of them, and none
/// of them is less.
pub proof fn law_least_finite_is_the_least(cells: Seq<Double>)
    ensures
        match least_finite(cells) {
            None => forall|i: int| 0 <= i < cells.len() ==> !(#[trigger] cells[i]).finite(),
            Some(x) => {
                &&& x.finite()
                &&& cells.contains(x)
                &&& forall|i: int|
                    0 <= i < cells.len() && (#[trigger] cells[i]).finite() ==> x.units()
                        <= cells[i].units()
            },
        },
    decreases cells.len(),
{
    lemma_double_format();
    if cells.len() > 0 {
        let before = cells.drop_last();
        let last = cells.last();
        law_least_finite_is_the_least(before);
        let n = cells.len() - 1;
        match least_finite(before) {
            None => {
                assert forall|i: int| 0 <= i < n implies !(#[trigger] cells[i]).finite() by {
                    assert(!before[i].finite());
                }
                assert(cells[n] == last);
            },
            Some(y) => {
                law_rank_orders_values(binary64(), last.num(), y.num());
                let p = choose|p: int| 0 <= p < before.len() && before[p] == y;
                assert(cells[p] == y);
                assert(cells[n] == last);
                let x = least_finite(cells)->0;
                assert forall|i: int| 0 <= i < cells.len() && (#[trigger] cells[i]).finite() implies
                    x.units() <= cells[i].units() by {
                    if i < n {
                        assert(before[i].finite());
                    }
                }
            },
        }
    }
}

/// Cleaning puts the stand-in for each NaN and keeps the rest.
pub proof fn law_cleaning_replaces_nan_only(cells: Seq<Double>, stand_in: Double, i: int)
    requires
        0 <= i < cells.len(),
        !stand_in.nan(),
    ensures
        cleaned(cells, stand_in).len() == cells.len(),
        !cleaned(cells, stand_in)[i].nan(),
        !cells[i].nan() ==> cleaned(cells, stand_in)[i] == cells[i],
        cells[i].nan() ==> cleaned(cells, stand_in)[i] == stand_in,
{
}

/// The cells of every chunk are among all cells.
pub proof fn law_no_cell_is_left_out(chunks: Seq<DoubleMatrix>, c: int, s: int, k: int)
    requires
        0 <= c < chunks.len(),
        0 <= s < chunks[c].height(),
        0 <= k < chunks[c].width(),
    ensures
        all_cells(chunks).contains(chunks[c].row_major()[s * chunks[c].width() + k]),
    decreases chunks.len(),
{
    let all = all_cells(chunks);
    let before = all_cells(chunks.drop_last());
    let x = chunks[c].row_major()[s * chunks[c].width() + k];
    if c < chunks.len() - 1 {
        law_no_cell_is_left_out(chunks.drop_last(), c, s, k);
        let p = choose|p: int| 0 <= p < before.len() && before[p] == x;
        assert(all[p] == x);
    } else {
        let m = chunks[c];
        let h = m.height() as int;
        let i = k * h + s;
        vstd::arithmetic::div_mod::lemma_fundamental_div_mod_converse(i, h, k, s);
        crate::cluster::hungarian::sums::lemma_index(m.width() as int, h, k, s);
        assert(m.width() * h == m.height() * m.width()) by (nonlinear_arith)
            requires
                h == m.height(),
        ;
        let own = column_major(m);
        assert(own[i] == x);
        assert(all[before.len() + i] == x);
    }
}

} // verus!
