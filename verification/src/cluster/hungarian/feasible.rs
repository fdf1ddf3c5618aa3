//! Finite costs always have an assignment: a search never runs out of columns.

use vstd::arithmetic::power2::{lemma_pow2_pos, pow2};
use vstd::prelude::*;
use crate::aggregate::count::all_finite;
use crate::cluster::hungarian::assignment::positions;
use crate::cluster::hungarian::optimal::lemma_free_column;
use crate::cluster::hungarian::reach::{is_within_reach, lemma_within_reach};
use crate::cluster::hungarian::rule::{grown, matching, reached, search_in, setting_of, solution, started, through, Matching, Reached, Setting};
use crate::cluster::hungarian::search::{is_found, is_matched, is_partial, lemma_matched_is_partial, Record};
use crate::cluster::hungarian::sums::{is_selection, lemma_index};
use crate::cluster::hungarian::turning::{lemma_tree_rows, lemma_turned, lemma_turning_starts};
use crate::float::arith::{abs, Num};
use crate::float::double::{binary64, lemma_double_format, Double};
use crate::float::exact::{lemma_place, place};
use crate::float::grid::{lemma_representable, lemma_units_increasing, units};
use crate::float::laws::lemma_sum_with_zero;
use crate::float::order::{lemma_nearest_monotone, lemma_of_num};

verus! {

/// A finite number less a zero, or a zero and a finite number, is finite.
proof fn lemma_zero_keeps_finite(x: Double)
    requires
        x.finite(),
    ensures
        Double::zero_spec().plus(x).finite(),
        x.minus(Double::zero_spec()).finite(),
{
    lemma_double_format();
    let zero = Double::zero_spec();
    let f = binary64();
    lemma_of_num(Num { negative: true, magnitude: 0 });
    lemma_sum_with_zero(f, x.num(), zero.num());
    lemma_sum_with_zero(f, x.num(), zero.negated().num());
    lemma_of_num(f.plus(zero.num(), x.num()));
    lemma_of_num(f.plus(x.num(), zero.negated().num()));
}

/// A free column whose dual variable is zero is within reach of a row whose dual
/// variable is zero.
proof fn lemma_untouched_within_reach(s: Setting<Double>, nr: int, row: int, free: int)
    requires
        0 <= row < nr,
        0 <= free < s.nc,
        s.cost.len() == nr * s.nc,
        all_finite(s.cost),
        s.row4col[free] is None,
        s.u[row] == Double::zero_spec(),
        s.v[free] == Double::zero_spec(),
    ensures
        is_within_reach::<Double>(s, row, free),
{
    lemma_index(nr, s.nc, row, free);
    let zero = Double::zero_spec();
    let c = s.cost[row * s.nc + free];
    assert(c.finite());
    lemma_zero_keeps_finite(c);
    let a = zero.plus(c);
    lemma_zero_keeps_finite(a);
    let b = a.minus(zero);
    lemma_zero_keeps_finite(b);
    assert(through::<Double>(s, row, zero, free) == b.minus(zero));
    lemma_double_format();
}

/// A matching of the first `k` rows that has left the other rows and the free columns
/// as they were.
pub open spec fn is_untouched_beyond(m: Matching<Double>, k: int, nr: int, nc: int) -> bool {
    &&& m.u.len() == nr
    &&& m.v.len() == nc
    &&& is_matched(m.col4row, m.row4col, k, nr, nc)
    &&& forall|i: int| k <= i < nr ==> #[trigger] m.u[i] == Double::zero_spec()
    &&& forall|j: int|
        0 <= j < nc && m.row4col[j] is None ==> #[trigger] m.v[j] == Double::zero_spec()
}

/// One more row leaves the rest as it was.
proof fn lemma_grown_untouched(
    m: Matching<Double>,
    row: int,
    nr: int,
    nc: int,
    r: Reached<Double>,
    rec: Record,
)
    requires
        0 <= row < nr <= nc <= usize::MAX,
        is_untouched_beyond(m, row, nr, nc),
        is_found(r, rec, m.row4col, row, nr, nc),
    ensures
        is_untouched_beyond(grown::<Double>(nc, m, row, r), row + 1, nr, nc),
{
    let next = grown::<Double>(nc, m, row, r);
    lemma_turning_starts(r, rec, m.col4row, m.row4col, row, nr, nc);
    lemma_turned(
        r,
        rec,
        m.col4row,
        m.row4col,
        m.col4row,
        m.row4col,
        row,
        nr,
        nc,
        r.sink,
        rec.order.len() - 1,
        nc as nat,
    );
    assert forall|i: int| row + 1 <= i < nr implies #[trigger] next.u[i] == Double::zero_spec() by {
        assert(m.u[i] == Double::zero_spec());
        if r.row_seen[i] {
            assert(rec.rows.contains(i));
            let t = choose|t: int| 0 <= t < rec.rows.len() && rec.rows[t] == i;
            lemma_tree_rows(r, rec, m.col4row, m.row4col, row, nr, nc, t);
        }
    }
    assert forall|j: int| 0 <= j < nc && next.row4col[j] is None implies #[trigger] next.v[j]
        == Double::zero_spec() by {
        assert(m.row4col[j] is None && j != r.sink);
        assert(m.v[j] == Double::zero_spec());
        if r.col_done[j] {
            assert(rec.order.contains(j));
            let t = choose|t: int| 0 <= t < rec.order.len() && rec.order[t] == j;
            if t < rec.order.len() - 1 {
                assert(m.row4col[rec.order[t]] is Some);
            }
        }
    }
}

/// The searches for the first `k` rows of a matrix of finite costs all succeed.
pub proof fn lemma_finite_run(cost: Seq<Double>, nr: int, nc: int, k: nat)
    requires
        0 < nr <= nc <= usize::MAX,
        cost.len() == nr * nc,
        all_finite(cost),
        k <= nr,
    ensures
        matching::<Double>(cost, nr, nc, k) is Some,
        is_untouched_beyond(matching::<Double>(cost, nr, nc, k)->0, k as int, nr, nc),
    decreases k,
{
    if k > 0 {
        let row = k - 1;
        lemma_finite_run(cost, nr, nc, row as nat);
        let m = matching::<Double>(cost, nr, nc, row as nat)->0;
        let s = setting_of(cost, nc, m);
        let free = lemma_free_column(m.col4row, m.row4col, row, nr, nc);
        assert(m.u[row] == Double::zero_spec());
        assert(m.v[free] == Double::zero_spec());
        lemma_untouched_within_reach(s, nr, row, free);
        lemma_matched_is_partial(m.col4row, m.row4col, row, nr, nc);
        let rec = lemma_within_reach::<Double>(s, row, nr, free);
        let r = search_in::<Double>(cost, nr, nc, m, row)->0;
        lemma_grown_untouched(m, row, nr, nc, r, rec);
    }
}

/// Every row of a matrix of finite costs gets a column of its own.
pub proof fn lemma_finite_solution(cost: Seq<Double>, nr: int, nc: int)
    requires
        0 < nr <= nc <= usize::MAX,
        cost.len() == nr * nc,
        all_finite(cost),
    ensures
        solution::<Double>(cost, nr, nc) is Some,
        solution::<Double>(cost, nr, nc)->0.len() == nr,
        is_selection(positions(solution::<Double>(cost, nr, nc)->0), nc),
{
    lemma_finite_run(cost, nr, nc, nr as nat);
    let m = matching::<Double>(cost, nr, nc, nr as nat)->0;
    let cols = solution::<Double>(cost, nr, nc)->0;
    let c = positions(cols);
    assert forall|i: int| 0 <= i < nr implies m.col4row[i] == Some(#[trigger] cols[i]) && cols[i]
        < nc && m.row4col[cols[i] as int] == Some(i as usize) by {
        assert(m.col4row[i] is Some);
    }
    assert forall|a: int, b: int| 0 <= a < c.len() && 0 <= b < c.len() && a != b implies c[a]
        != c[b] by {
        assert(m.row4col[cols[a] as int] == Some(a as usize));
        assert(m.row4col[cols[b] as int] == Some(b as usize));
    }
    assert forall|k: int| 0 <= k < c.len() implies 0 <= #[trigger] c[k] < nc by {
        assert(cols[k] < nc);
    }
}

/// At most `2^1021` in magnitude.
pub open spec fn is_moderate(x: Double) -> bool {
    x.finite() && abs(x.units()) <= 0x4_0000_0000_0000 * pow2(2045)
}

/// A sum of at most `n 2^2045` units is one after rounding too.
proof fn lemma_moderate_sum(a: Double, b: Double, n: nat)
    requires
        a.finite(),
        b.finite(),
        n < 0x20_0000_0000_0000,
        abs(a.units() + b.units()) <= n * pow2(2045),
    ensures
        a.plus(b).finite(),
        abs(a.plus(b).units()) <= n * pow2(2045),
{
    lemma_double_format();
    let f = binary64();
    let top = f.top as int;
    let total = abs(a.units() + b.units());
    lemma_place(n, 2045);
    let c = place(n, 2045);
    lemma_representable(53, top, 1, c);
    assert(units(53, c) * 1 == n * pow2(2045));
    let sum = f.plus(a.num(), b.num());
    crate::float::arith::lemma_zero_units(53);
    if total != 0 {
        lemma_nearest_monotone(53, top, total, (n * pow2(2045)) as int, 1);
        assert(sum.magnitude <= c);
        if sum.magnitude < c {
            lemma_units_increasing(53, sum.magnitude as int, c);
        }
        lemma_units_increasing(53, sum.magnitude as int, sum.magnitude + 1);
    }
    lemma_of_num(sum);
}

/// So is a difference.
proof fn lemma_moderate_difference(a: Double, b: Double, n: nat)
    requires
        a.finite(),
        b.finite(),
        n < 0x20_0000_0000_0000,
        abs(a.units() - b.units()) <= n * pow2(2045),
    ensures
        a.minus(b).finite(),
        abs(a.minus(b).units()) <= n * pow2(2045),
{
    lemma_double_format();
    lemma_of_num(Num { negative: !b.num().negative, magnitude: b.num().magnitude });
    assert(b.negated().units() == -b.units());
    lemma_moderate_sum(a, b.negated(), n);
}

/// Whatever rows are matched, while a column is free and costs and dual variables are
/// moderate, a search reaches a column.
pub proof fn law_moderate_search_succeeds(s: Setting<Double>, nr: int, row: int, free: int)
    requires
        0 <= row < nr <= usize::MAX,
        s.nc <= usize::MAX,
        s.cost.len() == nr * s.nc,
        s.u.len() == nr,
        s.v.len() == s.nc,
        is_partial(s.row4col, row, nr, s.nc),
        0 <= free < s.nc,
        s.row4col[free] is None,
        forall|t: int| 0 <= t < s.cost.len() ==> is_moderate(#[trigger] s.cost[t]),
        forall|i: int| 0 <= i < nr ==> is_moderate(#[trigger] s.u[i]),
        forall|j: int| 0 <= j < s.nc ==> is_moderate(#[trigger] s.v[j]),
    ensures
        is_within_reach::<Double>(s, row, free),
        reached::<Double>(s, started::<Double>(nr, s.nc, row)) is Some,
{
    lemma_index(nr, s.nc, row, free);
    lemma_double_format();
    lemma_pow2_pos(2045);
    let zero = Double::zero_spec();
    crate::float::arith::lemma_zero_units(53);
    assert(zero.units() == 0);
    let c = s.cost[row * s.nc + free];
    assert(is_moderate(c));
    assert(is_moderate(s.u[row]));
    assert(is_moderate(s.v[free]));
    lemma_moderate_sum(zero, c, 0x4_0000_0000_0000);
    let a = zero.plus(c);
    lemma_moderate_difference(a, s.u[row], 0x8_0000_0000_0000);
    let b = a.minus(s.u[row]);
    lemma_moderate_difference(b, s.v[free], 0xc_0000_0000_0000);
    assert(through::<Double>(s, row, zero, free) == b.minus(s.v[free]));
    lemma_within_reach::<Double>(s, row, nr, free);
}

} // verus!
