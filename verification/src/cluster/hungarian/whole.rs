//! Costs whose sums need no rounding: whole multiples of a power of two, none too large.

use vstd::arithmetic::power2::{lemma_pow2_pos, pow2};
use vstd::prelude::*;
use crate::cluster::hungarian::assignment::reduced;
use crate::cluster::hungarian::optimal::{adds_up, are_exact_duals, far, is_dual, is_exact_drop, is_exact_growth, is_exact_raise, is_exact_run, is_exact_search, is_exact_through, is_measured, leaves, lemma_exact_run, lemma_exact_step, lemma_free_column, rest, row_far};
use crate::cluster::hungarian::rule::{advanced, column_of, goes_on, grown, matching, nearer, reached, scan_of, setting_of, started, through, Growth, Matching, Reached, Setting};
use crate::cluster::hungarian::search::{is_found, is_growing, is_matched, lemma_advanced, lemma_matched_is_partial, lemma_scan, lemma_started, recorded, Record};
use crate::cluster::hungarian::sums::lemma_index;
use crate::cluster::hungarian::turning::lemma_tree_rows;
use crate::cluster::hungarian::weight::values;
use crate::float::arith::{abs, Num};
use crate::float::double::{binary64, lemma_double_format, Double};
use crate::float::exact::{lemma_place, place};
use crate::float::grid::{lemma_representable, units};
use crate::float::order::lemma_of_num;

verus! {

/// A finite whole multiple of `2^e` units.
pub open spec fn on_step(x: Double, e: nat) -> bool {
    x.finite() && x.units() % pow2(e) as int == 0
}

/// All are such multiples.
pub open spec fn are_steps(values: Seq<Double>, e: nat) -> bool {
    forall|t: int| 0 <= t < values.len() ==> on_step(#[trigger] values[t], e)
}

/// Multiples of `2^e` units up to a limit of which eight still have fewer than 54
/// digits.
pub open spec fn is_limited(cost: Seq<Double>, e: nat, limit: int) -> bool {
    &&& e <= 2045
    &&& 0 <= limit
    &&& 8 * limit < 0x20_0000_0000_0000 * pow2(e)
    &&& are_steps(cost, e)
    &&& forall|t: int| 0 <= t < cost.len() ==> abs((#[trigger] cost[t]).units()) <= limit
}

/// Negating keeps the step and turns the value over.
pub proof fn lemma_step_negated(x: Double, e: nat)
    requires
        on_step(x, e),
    ensures
        on_step(x.negated(), e),
        x.negated().units() == -x.units(),
{
    lemma_double_format();
    lemma_of_num(Num { negative: !x.num().negative, magnitude: x.num().magnitude });
    lemma_pow2_pos(e);
    let p = pow2(e) as int;
    vstd::arithmetic::div_mod::lemma_fundamental_div_mod(x.units(), p);
    let k = x.units() / p;
    assert(-x.units() == (-k) * p) by (nonlinear_arith)
        requires
            x.units() == p * k,
    ;
    vstd::arithmetic::div_mod::lemma_mod_multiples_basic(-k, p);
}

/// Sums of multiples are exact while they have at most 53 digits.
proof fn lemma_step_sum(a: Double, b: Double, e: nat)
    requires
        on_step(a, e),
        on_step(b, e),
        e <= 2045,
        abs(a.units() + b.units()) < 0x20_0000_0000_0000 * pow2(e),
    ensures
        adds_up::<Double>(a, b, a.plus(b)),
        on_step(a.plus(b), e),
{
    lemma_double_format();
    lemma_pow2_pos(e);
    let f = binary64();
    let p = pow2(e) as int;
    let total = a.units() + b.units();
    vstd::arithmetic::div_mod::lemma_fundamental_div_mod(a.units(), p);
    vstd::arithmetic::div_mod::lemma_fundamental_div_mod(b.units(), p);
    let k = a.units() / p + b.units() / p;
    assert(total == k * p) by (nonlinear_arith)
        requires
            total == p * (a.units() / p) + p * (b.units() / p),
            k == a.units() / p + b.units() / p,
    ;
    vstd::arithmetic::div_mod::lemma_mod_multiples_basic(k, p);
    let n = abs(k) as nat;
    assert(n * p == abs(total)) by (nonlinear_arith)
        requires
            total == k * p,
            n == abs(k),
            p > 0,
    ;
    assert(n < 0x20_0000_0000_0000) by (nonlinear_arith)
        requires
            n * p < 0x20_0000_0000_0000 * p,
            p > 0,
    ;
    lemma_place(n, e);
    let c = place(n, e);
    lemma_representable(53, f.top as int, 1, c);
    assert(units(53, c) * 1 == abs(total));
    crate::float::arith::lemma_zero_units(53);
    lemma_of_num(f.plus(a.num(), b.num()));
}

/// So are differences.
proof fn lemma_step_difference(a: Double, b: Double, e: nat)
    requires
        on_step(a, e),
        on_step(b, e),
        e <= 2045,
        abs(a.units() - b.units()) < 0x20_0000_0000_0000 * pow2(e),
    ensures
        leaves::<Double>(a, b, a.minus(b)),
        on_step(a.minus(b), e),
{
    lemma_step_negated(b, e);
    lemma_step_sum(a, b.negated(), e);
}

/// The dual variables stay within twice the limit on the costs.
proof fn lemma_dual_bounds(
    cost: Seq<int>,
    nr: int,
    nc: int,
    u: Seq<int>,
    v: Seq<int>,
    col4row: Seq<Option<usize>>,
    row4col: Seq<Option<usize>>,
    k: int,
    limit: int,
)
    requires
        0 <= k < nr <= nc <= usize::MAX,
        cost.len() == nr * nc,
        is_matched(col4row, row4col, k, nr, nc),
        is_dual(cost, nr, nc, u, v, col4row, row4col, k),
        forall|t: int| 0 <= t < cost.len() ==> abs(#[trigger] cost[t]) <= limit,
    ensures
        forall|i: int| 0 <= i < nr ==> -limit <= #[trigger] u[i] <= limit,
        forall|j: int| 0 <= j < nc ==> -2 * limit <= #[trigger] v[j] <= 0,
{
    let free = lemma_free_column(col4row, row4col, k, nr, nc);
    lemma_index(nr, nc, 0, free);
    assert(limit >= abs(cost[0 * nc + free]));
    assert forall|i: int| 0 <= i < nr implies -limit <= #[trigger] u[i] <= limit by {
        if i < k {
            let j = col4row[i]->0 as int;
            lemma_index(nr, nc, i, free);
            lemma_index(nr, nc, i, j);
            assert(reduced(cost, nc, u, v, i, free) >= 0);
            assert(v[free] == 0);
            assert(reduced(cost, nc, u, v, i, j) == 0);
            assert(v[j] <= 0);
            assert(abs(cost[i * nc + free]) <= limit);
            assert(abs(cost[i * nc + j]) <= limit);
        }
    }
    assert forall|j: int| 0 <= j < nc implies -2 * limit <= #[trigger] v[j] <= 0 by {
        if row4col[j] is Some {
            let i = row4col[j]->0 as int;
            lemma_index(nr, nc, i, j);
            assert(col4row[i] == Some(j as usize));
            assert(reduced(cost, nc, u, v, i, j) == 0);
            assert(u[i] <= limit);
            assert(abs(cost[i * nc + j]) <= limit);
        }
    }
}

/// What a search works on, within the limit.
spec fn is_step_setting(
    s: Setting<Double>,
    col4row: Seq<Option<usize>>,
    cur_row: int,
    nr: int,
    e: nat,
    limit: int,
) -> bool {
    &&& 0 <= cur_row < nr <= s.nc <= usize::MAX
    &&& s.cost.len() == nr * s.nc
    &&& s.u.len() == nr
    &&& s.v.len() == s.nc
    &&& is_matched(col4row, s.row4col, cur_row, nr, s.nc)
    &&& is_dual(
        values::<Double>(s.cost),
        nr,
        s.nc,
        values::<Double>(s.u),
        values::<Double>(s.v),
        col4row,
        s.row4col,
        cur_row,
    )
    &&& is_limited(s.cost, e, limit)
    &&& are_steps(s.u, e)
    &&& are_steps(s.v, e)
}

/// The bounds of [`lemma_dual_bounds`] in a setting.
proof fn lemma_setting_bounds(
    s: Setting<Double>,
    col4row: Seq<Option<usize>>,
    cur_row: int,
    nr: int,
    e: nat,
    limit: int,
)
    requires
        is_step_setting(s, col4row, cur_row, nr, e, limit),
    ensures
        forall|i: int| 0 <= i < nr ==> -limit <= (#[trigger] s.u[i]).units() <= limit,
        forall|j: int| 0 <= j < s.nc ==> -2 * limit <= (#[trigger] s.v[j]).units() <= 0,
        s.u[cur_row].units() == 0,
{
    let c = values::<Double>(s.cost);
    let u = values::<Double>(s.u);
    let v = values::<Double>(s.v);
    assert forall|t: int| 0 <= t < c.len() implies abs(#[trigger] c[t]) <= limit by {
        assert(abs(s.cost[t].units()) <= limit);
    }
    lemma_dual_bounds(c, nr, s.nc, u, v, col4row, s.row4col, cur_row, limit);
    assert forall|i: int| 0 <= i < nr implies -limit <= (#[trigger] s.u[i]).units() <= limit by {
        assert(-limit <= u[i] <= limit);
    }
    assert forall|j: int| 0 <= j < s.nc implies -2 * limit <= (#[trigger] s.v[j]).units() <= 0 by {
        assert(-2 * limit <= v[j] <= 0);
    }
    assert(u[cur_row] == 0);
}

/// The distances of a search, within the limit.
spec fn are_step_distances(
    dist: Seq<Option<Double>>,
    min_val: Double,
    order: Seq<int>,
    e: nat,
    limit: int,
) -> bool {
    &&& on_step(min_val, e)
    &&& -limit <= min_val.units() <= limit
    &&& forall|j: int|
        0 <= j < dist.len() && (#[trigger] dist[j]) is Some ==> on_step(dist[j]->0, e)
    &&& forall|t: int|
        0 <= t < order.len() ==> -limit <= far::<Double>(dist, #[trigger] order[t])
}

/// The distance through a row is exact.
proof fn lemma_step_through(
    s: Setting<Double>,
    col4row: Seq<Option<usize>>,
    cur_row: int,
    nr: int,
    i: int,
    min_val: Double,
    j: int,
    e: nat,
    limit: int,
)
    requires
        is_step_setting(s, col4row, cur_row, nr, e, limit),
        0 <= i < nr,
        0 <= j < s.nc,
        on_step(min_val, e),
        -limit <= min_val.units() <= limit,
    ensures
        is_exact_through::<Double>(s, i, min_val, j),
        on_step(through::<Double>(s, i, min_val, j), e),
{
    lemma_setting_bounds(s, col4row, cur_row, nr, e, limit);
    lemma_index(nr, s.nc, i, j);
    let c = s.cost[i * s.nc + j];
    assert(on_step(c, e) && abs(c.units()) <= limit);
    lemma_step_sum(min_val, c, e);
    let a = min_val.plus(c);
    assert(on_step(s.u[i], e));
    assert(-limit <= s.u[i].units() <= limit);
    lemma_step_difference(a, s.u[i], e);
    let b = a.minus(s.u[i]);
    assert(on_step(s.v[j], e));
    assert(-2 * limit <= s.v[j].units() <= 0);
    lemma_step_difference(b, s.v[j], e);
}

/// A search within the limit is exact and stays within it.
#[verifier::rlimit(60)]
proof fn lemma_step_search(
    s: Setting<Double>,
    g: Growth<Double>,
    rec: Record,
    col4row: Seq<Option<usize>>,
    cur_row: int,
    nr: int,
    e: nat,
    limit: int,
) -> (end: Record)
    requires
        is_step_setting(s, col4row, cur_row, nr, e, limit),
        is_growing(g, rec, s.row4col, cur_row, nr, s.nc),
        is_exact_growth::<Double>(s, g, rec),
        are_step_distances(g.dist, g.min_val, rec.order, e, limit),
    ensures
        is_exact_search::<Double>(s, g),
        reached::<Double>(s, g) is Some,
        is_found(reached::<Double>(s, g)->0, end, s.row4col, cur_row, nr, s.nc),
        is_measured::<Double>(
            s,
            reached::<Double>(s, g)->0.dist,
            reached::<Double>(s, g)->0.min_val,
            end,
            reached::<Double>(s, g)->0.col_done,
        ),
        are_step_distances(
            reached::<Double>(s, g)->0.dist,
            reached::<Double>(s, g)->0.min_val,
            end.order,
            e,
            limit,
        ),
    decreases g.open,
{
    let free = lemma_free_column(col4row, s.row4col, cur_row, nr, s.nc);
    assert(!g.col_done[free]) by {
        if g.col_done[free] {
            assert(rec.order.contains(free));
            let a = choose|a: int| 0 <= a < rec.order.len() && rec.order[a] == free;
            assert(s.row4col[rec.order[a]] is Some);
        }
    }
    let at = choose|a: int| 0 <= a < g.open && #[trigger] g.remaining[a] == free;
    assert(g.open > 0);
    assert forall|a: int| 0 <= a < g.open implies is_exact_through::<Double>(
        s,
        g.row,
        g.min_val,
        #[trigger] g.remaining[a] as int,
    ) by {
        lemma_step_through(
            s,
            col4row,
            cur_row,
            nr,
            g.row,
            g.min_val,
            g.remaining[a] as int,
            e,
            limit,
        );
    }
    lemma_exact_step::<Double>(s, g, rec, col4row, cur_row, nr);
    lemma_scan::<Double>(s, g, rec, cur_row, nr);
    lemma_matched_is_partial(col4row, s.row4col, cur_row, nr, s.nc);
    lemma_advanced::<Double>(s, g, rec, cur_row, nr);
    let next = recorded::<Double>(s, g, rec);
    let scan = scan_of::<Double>(s, g);
    let low = scan.lowest->0;
    let j = column_of::<Double>(s, g);
    lemma_setting_bounds(s, col4row, cur_row, nr, e, limit);
    // distances stay multiples
    assert forall|k: int| 0 <= k < scan.dist.len() && (#[trigger] scan.dist[k]) is Some implies
        on_step(scan.dist[k]->0, e) by {
        let here = through::<Double>(s, g.row, g.min_val, k);
        if !g.col_done[k] && nearer::<Double>(here, g.dist[k]) {
            lemma_step_through(s, col4row, cur_row, nr, g.row, g.min_val, k, e, limit);
        } else {
            assert(scan.dist[k] == g.dist[k]);
        }
    }
    // no farther than a free column
    assert(low.units() <= limit) by {
        assert(next.rows[0] == cur_row) by {
            assert(next.rows.len() > 0);
        }
        assert(far::<Double>(scan.dist, free) <= row_far::<Double>(scan.dist, next.order, 0)
            + rest::<Double>(s, next.rows[0], free));
        lemma_index(nr, s.nc, cur_row, free);
        assert(abs(s.cost[cur_row * s.nc + free].units()) <= limit);
        let v = values::<Double>(s.v);
        assert(v[free] == 0);
        if j != free {
            assert(!g.col_done.update(j, true)[free]);
        }
    }
    // no nearer than the columns before it
    assert(-limit <= low.units()) by {
        if rec.order.len() == 0 {
            assert(far::<Double>(scan.dist, j) == row_far::<Double>(
                scan.dist,
                next.order,
                next.from[j],
            ) + rest::<Double>(s, next.rows[next.from[j]], j));
            assert(next.from[j] == 0);
            lemma_index(nr, s.nc, cur_row, j);
            assert(abs(s.cost[cur_row * s.nc + j].units()) <= limit);
            assert(s.v[j].units() <= 0);
        }
    }
    assert forall|t: int| 0 <= t < next.order.len() implies -limit <= far::<Double>(
        scan.dist,
        #[trigger] next.order[t],
    ) by {
        if t < rec.order.len() {
            assert(next.order[t] == rec.order[t]);
            assert(scan.dist[rec.order[t]] == g.dist[rec.order[t]]);
        } else {
            assert(next.order[t] == j);
        }
    }
    if goes_on::<Double>(s, g) {
        lemma_step_search(s, advanced::<Double>(s, g), next, col4row, cur_row, nr, e, limit)
    } else {
        next
    }
}

/// The new dual variables are exact multiples too.
proof fn lemma_step_duals(
    cost: Seq<Double>,
    nr: int,
    nc: int,
    m: Matching<Double>,
    row: int,
    r: Reached<Double>,
    rec: Record,
    e: nat,
    limit: int,
)
    requires
        is_step_setting(setting_of(cost, nc, m), m.col4row, row, nr, e, limit),
        is_found(r, rec, m.row4col, row, nr, nc),
        is_measured::<Double>(setting_of(cost, nc, m), r.dist, r.min_val, rec, r.col_done),
        are_step_distances(r.dist, r.min_val, rec.order, e, limit),
    ensures
        are_exact_duals::<Double>(r, m, row),
        are_steps(grown::<Double>(nc, m, row, r).u, e),
        are_steps(grown::<Double>(nc, m, row, r).v, e),
{
    let s = setting_of(cost, nc, m);
    lemma_setting_bounds(s, m.col4row, row, nr, e, limit);
    let next = grown::<Double>(nc, m, row, r);
    assert(on_step(m.u[row], e));
    lemma_step_sum(m.u[row], r.min_val, e);
    assert forall|i: int| 0 <= i < m.u.len() && i != row && #[trigger] r.row_seen[i] implies
        is_exact_raise::<Double>(r.min_val, r.dist[m.col4row[i]->0 as int]->0, m.u[i]) && on_step(
        next.u[i],
        e,
    ) by {
        assert(rec.rows.contains(i));
        let t = choose|t: int| 0 <= t < rec.rows.len() && rec.rows[t] == i;
        lemma_tree_rows(r, rec, m.col4row, m.row4col, row, nr, nc, t);
        let j = rec.order[t - 1];
        assert(m.col4row[i]->0 == j);
        assert(r.dist[j] is Some);
        lemma_step_gap(r, rec, t - 1, e, limit);
        assert(on_step(m.u[i], e));
        lemma_step_sum(m.u[i], r.min_val.minus(r.dist[j]->0), e);
    }
    assert forall|j: int| 0 <= j < m.v.len() && #[trigger] r.col_done[j] implies is_exact_drop::<
        Double,
    >(r.min_val, r.dist[j]->0, m.v[j]) && on_step(next.v[j], e) by {
        assert(rec.order.contains(j));
        let t = choose|t: int| 0 <= t < rec.order.len() && rec.order[t] == j;
        assert(r.dist[j] is Some);
        lemma_step_gap(r, rec, t, e, limit);
        assert(on_step(m.v[j], e));
        assert(-2 * limit <= s.v[j].units() <= 0);
        lemma_step_difference(m.v[j], r.min_val.minus(r.dist[j]->0), e);
    }
    assert forall|i: int| 0 <= i < next.u.len() implies on_step(#[trigger] next.u[i], e) by {
        assert(on_step(m.u[i], e));
        if i != row && r.row_seen[i] {
            assert(on_step(next.u[i], e));
        }
    }
    assert forall|j: int| 0 <= j < next.v.len() implies on_step(#[trigger] next.v[j], e) by {
        assert(on_step(m.v[j], e));
        if r.col_done[j] {
            assert(on_step(next.v[j], e));
        }
    }
}

/// How far a column of the tree lies before the end of the search, exactly.
proof fn lemma_step_gap(r: Reached<Double>, rec: Record, t: int, e: nat, limit: int)
    requires
        0 <= t < rec.order.len(),
        0 <= rec.order[t] < r.dist.len(),
        r.dist[rec.order[t]] is Some,
        are_step_distances(r.dist, r.min_val, rec.order, e, limit),
        far::<Double>(r.dist, rec.order[t]) <= r.min_val.units(),
        e <= 2045,
        0 <= limit,
        8 * limit < 0x20_0000_0000_0000 * pow2(e),
    ensures
        leaves::<Double>(
            r.min_val,
            r.dist[rec.order[t]]->0,
            r.min_val.minus(r.dist[rec.order[t]]->0),
        ),
        on_step(r.min_val.minus(r.dist[rec.order[t]]->0), e),
        0 <= r.min_val.minus(r.dist[rec.order[t]]->0).units() <= 2 * limit,
{
    let d = r.dist[rec.order[t]]->0;
    assert(-limit <= far::<Double>(r.dist, rec.order[t]));
    lemma_step_difference(r.min_val, d, e);
}

/// Zero is a multiple of every step.
proof fn lemma_step_zero(e: nat)
    ensures
        on_step(Double::zero_spec(), e),
        Double::zero_spec().units() == 0,
{
    lemma_double_format();
    crate::float::arith::lemma_zero_units(53);
    lemma_pow2_pos(e);
    vstd::arithmetic::div_mod::lemma_small_mod(0, pow2(e));
}

/// Costs within the limit need no rounding.
pub proof fn lemma_step_run(cost: Seq<Double>, nr: int, nc: int, e: nat, limit: int, k: nat)
    requires
        0 < nr <= nc <= usize::MAX,
        cost.len() == nr * nc,
        k <= nr,
        is_limited(cost, e, limit),
    ensures
        is_exact_run::<Double>(cost, nr, nc, k),
        matching::<Double>(cost, nr, nc, k) is Some,
        are_steps(matching::<Double>(cost, nr, nc, k)->0.u, e),
        are_steps(matching::<Double>(cost, nr, nc, k)->0.v, e),
    decreases k,
{
    lemma_step_zero(e);
    if k == 0 {
        assert forall|t: int| 0 <= t < cost.len() implies (#[trigger] cost[t]).finite() by {
            assert(on_step(cost[t], e));
        }
    } else {
        let row = k - 1;
        lemma_step_run(cost, nr, nc, e, limit, row as nat);
        lemma_exact_run::<Double>(cost, nr, nc, row as nat);
        let m = matching::<Double>(cost, nr, nc, row as nat)->0;
        let s = setting_of(cost, nc, m);
        let g = started::<Double>(nr, nc, row);
        let rec = Record {
            order: Seq::empty(),
            rows: Seq::empty(),
            from: Seq::new(nc as nat, |j: int| 0),
        };
        lemma_started::<Double>(m.row4col, row, nr, nc);
        let end = lemma_step_search(s, g, rec, m.col4row, row, nr, e, limit);
        let r = reached::<Double>(s, g)->0;
        lemma_step_duals(cost, nr, nc, m, row, r, end, e, limit);
    }
}

} // verus!
