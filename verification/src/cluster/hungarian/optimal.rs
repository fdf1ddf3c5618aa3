//! When the rule finds a best assignment: wherever no sum that it forms is rounded.

use vstd::prelude::*;
use crate::cluster::hungarian::assignment::{iota, is_assignment, lemma_optimal, positions, reduced, total};
use crate::cluster::hungarian::rule::{advanced, column_of, goes_on, grown, matching, nearer, reached, scan_of, scanned, search_in, setting_of, solution, started, through, Growth, Matching, Reached, Setting};
use crate::cluster::hungarian::search::{is_found, is_growing, is_matched, is_untouched, is_worklist, lemma_advanced, lemma_matched_is_partial, lemma_scan, lemma_scanned, lemma_started, recorded, Record};
use crate::cluster::hungarian::sums::{is_selection, lemma_index};
use crate::cluster::hungarian::turning::{is_pair, lemma_tree_rows, lemma_turned, lemma_turning_starts};
use crate::cluster::hungarian::weight::{values, Weight};
use crate::cluster::hungarian::wide::Wide;

verus! {

/// `c` is the exact sum of `a` and `b`.
pub open spec fn adds_up<W: Weight>(a: W::V, b: W::V, c: W::V) -> bool {
    &&& W::regular(a) && W::regular(b) && W::regular(c)
    &&& W::value(c) == W::value(a) + W::value(b)
}

/// `c` is the exact difference of `a` and `b`.
pub open spec fn leaves<W: Weight>(a: W::V, b: W::V, c: W::V) -> bool {
    &&& W::regular(a) && W::regular(b) && W::regular(c)
    &&& W::value(c) == W::value(a) - W::value(b)
}

/// The distance of column `j` through row `i` is formed without rounding.
pub open spec fn is_exact_through<W: Weight>(
    s: Setting<W::V>,
    i: int,
    min_val: W::V,
    j: int,
) -> bool {
    let a = W::sum(min_val, s.cost[i * s.nc + j]);
    let b = W::difference(a, s.u[i]);
    &&& adds_up::<W>(min_val, s.cost[i * s.nc + j], a)
    &&& leaves::<W>(a, s.u[i], b)
    &&& leaves::<W>(b, s.v[j], through::<W>(s, i, min_val, j))
}

/// So are those of all open columns.
pub open spec fn is_exact_scan<W: Weight>(s: Setting<W::V>, g: Growth<W::V>) -> bool {
    forall|a: int|
        0 <= a < g.open ==> is_exact_through::<W>(
            s,
            g.row,
            g.min_val,
            #[trigger] g.remaining[a] as int,
        )
}

/// No sum of a search is rounded.
pub open spec fn is_exact_search<W: Weight>(s: Setting<W::V>, g: Growth<W::V>) -> bool
    decreases g.open,
{
    &&& is_exact_scan::<W>(s, g)
    &&& goes_on::<W>(s, g) ==> is_exact_search::<W>(s, advanced::<W>(s, g))
}

/// No new dual variable is rounded.
pub open spec fn are_exact_duals<W: Weight>(r: Reached<W::V>, m: Matching<W::V>, row: int) -> bool {
    &&& adds_up::<W>(m.u[row], r.min_val, W::sum(m.u[row], r.min_val))
    &&& forall|i: int|
        0 <= i < m.u.len() && i != row && #[trigger] r.row_seen[i] ==> is_exact_raise::<W>(
            r.min_val,
            r.dist[m.col4row[i]->0 as int]->0,
            m.u[i],
        )
    &&& forall|j: int|
        0 <= j < m.v.len() && #[trigger] r.col_done[j] ==> is_exact_drop::<W>(
            r.min_val,
            r.dist[j]->0,
            m.v[j],
        )
}

pub open spec fn is_exact_raise<W: Weight>(min_val: W::V, d: W::V, u: W::V) -> bool {
    let x = W::difference(min_val, d);
    leaves::<W>(min_val, d, x) && adds_up::<W>(u, x, W::sum(u, x))
}

pub open spec fn is_exact_drop<W: Weight>(min_val: W::V, d: W::V, v: W::V) -> bool {
    let x = W::difference(min_val, d);
    leaves::<W>(min_val, d, x) && leaves::<W>(v, x, W::difference(v, x))
}

/// No sum that the rule forms for the first `k` rows is rounded.
pub open spec fn is_exact_run<W: Weight>(cost: Seq<W::V>, nr: int, nc: int, k: nat) -> bool
    decreases k,
{
    if k == 0 {
        forall|t: int| 0 <= t < cost.len() ==> W::regular(#[trigger] cost[t])
    } else {
        &&& is_exact_run::<W>(cost, nr, nc, (k - 1) as nat)
        &&& matching::<W>(cost, nr, nc, (k - 1) as nat) matches Some(m) ==> {
            &&& is_exact_search::<W>(setting_of(cost, nc, m), started::<W>(nr, nc, k - 1))
            &&& search_in::<W>(cost, nr, nc, m, k - 1) matches Some(r) ==> are_exact_duals::<W>(
                r,
                m,
                k - 1,
            )
        }
    }
}

/// The dual variables of a matching of the first `k` rows: no reduced cost of
/// those rows is negative, matched pairs have none, and free columns no price.
pub open spec fn is_dual(
    cost: Seq<int>,
    nr: int,
    nc: int,
    u: Seq<int>,
    v: Seq<int>,
    col4row: Seq<Option<usize>>,
    row4col: Seq<Option<usize>>,
    k: int,
) -> bool {
    &&& u.len() == nr
    &&& v.len() == nc
    &&& forall|i: int, j: int|
        0 <= i < k && 0 <= j < nc ==> #[trigger] reduced(cost, nc, u, v, i, j) >= 0
    &&& forall|i: int|
        0 <= i < k ==> reduced(cost, nc, u, v, i, (#[trigger] col4row[i])->0 as int) == 0
    &&& forall|i: int| k <= i < nr ==> #[trigger] u[i] == 0
    &&& forall|j: int| 0 <= j < nc ==> #[trigger] v[j] <= 0
    &&& forall|j: int| 0 <= j < nc && row4col[j] is None ==> #[trigger] v[j] == 0
}

/// While rows are left, some column is free.
pub proof fn lemma_free_column(
    col4row: Seq<Option<usize>>,
    row4col: Seq<Option<usize>>,
    k: int,
    nr: int,
    nc: int,
) -> (j: int)
    requires
        is_matched(col4row, row4col, k, nr, nc),
        k < nc,
        nc <= usize::MAX,
    ensures
        0 <= j < nc,
        row4col[j] is None,
{
    if forall|j: int| 0 <= j < nc ==> #[trigger] row4col[j] is Some {
        let rows = Seq::new(nc as nat, |j: int| row4col[j]->0 as int);
        assert(rows.no_duplicates()) by {
            assert forall|a: int, b: int|
                0 <= a < rows.len() && 0 <= b < rows.len() && a != b implies rows[a] != rows[b] by {
                assert(row4col[a] is Some && row4col[b] is Some);
                assert(col4row[row4col[a]->0 as int] == Some(a as usize));
                assert(col4row[row4col[b]->0 as int] == Some(b as usize));
            }
        }
        rows.unique_seq_to_set();
        let range = vstd::set_lib::set_int_range(0, k);
        vstd::set_lib::lemma_int_range(0, k);
        assert(rows.to_set().subset_of(range)) by {
            assert forall|r: int| rows.to_set().contains(r) implies range.contains(r) by {
                let j = choose|j: int| 0 <= j < rows.len() && rows[j] == r;
                assert(row4col[j] is Some);
            }
        }
        vstd::set_lib::lemma_len_subset(rows.to_set(), range);
        0
    } else {
        choose|j: int| 0 <= j < nc && !(#[trigger] row4col[j] is Some)
    }
}

/// The exact distance of column `j`.
pub open spec fn far<W: Weight>(dist: Seq<Option<W::V>>, j: int) -> int {
    W::value(dist[j]->0)
}

/// The distance of the `t`-th row of the tree.
pub open spec fn row_far<W: Weight>(dist: Seq<Option<W::V>>, order: Seq<int>, t: int) -> int {
    if t <= 0 {
        0
    } else {
        far::<W>(dist, order[t - 1])
    }
}

/// The exact reduced cost.
pub open spec fn rest<W: Weight>(s: Setting<W::V>, i: int, j: int) -> int {
    reduced(values::<W>(s.cost), s.nc, values::<W>(s.u), values::<W>(s.v), i, j)
}

/// Every column has an exact distance: no row of the tree allows a smaller one, and
/// its own row gives it.
pub open spec fn is_measured<W: Weight>(
    s: Setting<W::V>,
    dist: Seq<Option<W::V>>,
    min_val: W::V,
    rec: Record,
    col_done: Seq<bool>,
) -> bool {
    &&& W::regular(min_val)
    &&& forall|j: int|
        0 <= j < s.nc ==> (#[trigger] dist[j]) is Some && W::regular(dist[j]->0)
    &&& forall|t: int, j: int|
        0 <= t < rec.rows.len() && 0 <= j < s.nc ==> far::<W>(dist, j) <= row_far::<W>(
            dist,
            rec.order,
            t,
        ) + #[trigger] rest::<W>(s, rec.rows[t], j)
    &&& forall|j: int|
        0 <= j < s.nc ==> 0 <= #[trigger] rec.from[j] < rec.rows.len() && far::<W>(dist, j)
            == row_far::<W>(dist, rec.order, rec.from[j]) + rest::<W>(s, rec.rows[rec.from[j]], j)
    &&& forall|t: int|
        0 <= t < rec.order.len() ==> far::<W>(dist, #[trigger] rec.order[t]) <= W::value(min_val)
    &&& far::<W>(dist, rec.order.last()) == W::value(min_val)
    &&& forall|j: int|
        0 <= j < s.nc && !#[trigger] col_done[j] ==> far::<W>(dist, j) >= W::value(min_val)
}

/// A search under way is exact.
pub open spec fn is_exact_growth<W: Weight>(s: Setting<W::V>, g: Growth<W::V>, rec: Record) -> bool {
    if rec.order.len() == 0 {
        &&& W::regular(g.min_val)
        &&& W::value(g.min_val) == 0
        &&& forall|j: int| 0 <= j < s.nc ==> (#[trigger] g.dist[j]) is None
    } else {
        is_measured::<W>(s, g.dist, g.min_val, rec, g.col_done)
    }
}

/// The distance through a row, exactly.
proof fn lemma_through<W: Weight>(s: Setting<W::V>, i: int, min_val: W::V, j: int, nr: int)
    requires
        is_exact_through::<W>(s, i, min_val, j),
        0 <= i < nr,
        0 <= j < s.nc,
        s.cost.len() == nr * s.nc,
        s.u.len() == nr,
        s.v.len() == s.nc,
    ensures
        W::regular(through::<W>(s, i, min_val, j)),
        W::value(through::<W>(s, i, min_val, j)) == W::value(min_val) + rest::<W>(s, i, j),
{
    lemma_index(nr, s.nc, i, j);
}

/// The nearest column found is a nearest one.
proof fn lemma_lowest<W: Weight>(
    s: Setting<W::V>,
    i: int,
    min_val: W::V,
    remaining: Seq<usize>,
    num: int,
    col_done: Seq<bool>,
    dist0: Seq<Option<W::V>>,
    path0: Seq<usize>,
    n: nat,
    nr: int,
)
    requires
        is_worklist(remaining, num, col_done, s.nc),
        n <= num,
        dist0.len() == s.nc,
        path0.len() == s.nc,
        0 <= i < nr <= usize::MAX,
        s.cost.len() == nr * s.nc,
        s.u.len() == nr,
        s.v.len() == s.nc,
        forall|a: int|
            0 <= a < n ==> is_exact_through::<W>(s, i, min_val, #[trigger] remaining[a] as int),
        forall|j: int|
            0 <= j < s.nc && (#[trigger] dist0[j]) is Some ==> W::regular(dist0[j]->0),
    ensures
        ({
            let scan = scanned::<W>(s, i, min_val, remaining, dist0, path0, n);
            &&& n > 0 ==> scan.lowest is Some && W::regular(scan.lowest->0)
            &&& forall|a: int|
                0 <= a < n ==> {
                    let d = scan.dist[#[trigger] remaining[a] as int];
                    d is Some && W::regular(d->0) && W::value(scan.lowest->0) <= W::value(d->0)
                }
        }),
    decreases n,
{
    if n > 0 {
        let m = (n - 1) as nat;
        lemma_lowest::<W>(s, i, min_val, remaining, num, col_done, dist0, path0, m, nr);
        lemma_scanned::<W>(s, i, min_val, remaining, num, col_done, dist0, path0, m);
        lemma_scanned::<W>(s, i, min_val, remaining, num, col_done, dist0, path0, n);
        let before = scanned::<W>(s, i, min_val, remaining, dist0, path0, m);
        let scan = scanned::<W>(s, i, min_val, remaining, dist0, path0, n);
        let j = remaining[m as int] as int;
        assert(is_untouched(remaining, m as int, j));
        assert(before.dist[j] == dist0[j]);
        let here = through::<W>(s, i, min_val, j);
        assert(is_exact_through::<W>(s, i, min_val, remaining[m as int] as int));
        lemma_through::<W>(s, i, min_val, j, nr);
        W::lemma_order(here, here);
        if dist0[j] is Some {
            W::lemma_order(here, dist0[j]->0);
        }
        let d = scan.dist[j];
        assert(d is Some && W::regular(d->0));
        if m > 0 {
            W::lemma_order(d->0, before.lowest->0);
        }
        assert forall|a: int| 0 <= a < n implies {
            let d = scan.dist[#[trigger] remaining[a] as int];
            d is Some && W::regular(d->0) && W::value(scan.lowest->0) <= W::value(d->0)
        } by {
            if a < m {
                assert(remaining[a] != remaining[m as int]);
                assert(scan.dist[remaining[a] as int] == before.dist[remaining[a] as int]);
            }
        }
    }
}

/// One step of an exact search is exact.
#[verifier::rlimit(60)]
pub proof fn lemma_exact_step<W: Weight>(
    s: Setting<W::V>,
    g: Growth<W::V>,
    rec: Record,
    col4row: Seq<Option<usize>>,
    cur_row: int,
    nr: int,
)
    requires
        is_growing(g, rec, s.row4col, cur_row, nr, s.nc),
        is_matched(col4row, s.row4col, cur_row, nr, s.nc),
        0 <= cur_row < nr <= usize::MAX,
        s.nc <= usize::MAX,
        s.cost.len() == nr * s.nc,
        s.u.len() == nr,
        s.v.len() == s.nc,
        is_dual(
            values::<W>(s.cost),
            nr,
            s.nc,
            values::<W>(s.u),
            values::<W>(s.v),
            col4row,
            s.row4col,
            cur_row,
        ),
        is_exact_growth::<W>(s, g, rec),
        is_exact_scan::<W>(s, g),
        g.open > 0,
    ensures
        scan_of::<W>(s, g).lowest is Some,
        is_measured::<W>(
            s,
            scan_of::<W>(s, g).dist,
            scan_of::<W>(s, g).lowest->0,
            recorded::<W>(s, g, rec),
            g.col_done.update(column_of::<W>(s, g), true),
        ),
        rec.order.len() > 0 ==> W::value(g.min_val) <= W::value(scan_of::<W>(s, g).lowest->0),
        forall|a: int|
            0 <= a < rec.order.len() ==> scan_of::<W>(s, g).dist[#[trigger] rec.order[a]]
                == g.dist[rec.order[a]],
{
    let scan = scan_of::<W>(s, g);
    let nc = s.nc;
    let first = rec.order.len() == 0;
    let i = g.row;
    let t = rec.rows.len() as int;
    lemma_lowest::<W>(
        s,
        i,
        g.min_val,
        g.remaining,
        g.open as int,
        g.col_done,
        g.dist,
        g.path,
        g.open,
        nr,
    );
    lemma_scan::<W>(s, g, rec, cur_row, nr);
    let j = column_of::<W>(s, g);
    let low = scan.lowest->0;
    let next = recorded::<W>(s, g, rec);
    let mv = W::value(g.min_val);
    assert forall|k: int| 0 <= k < nc && !#[trigger] g.col_done[k] implies {
        &&& scan.dist[k] is Some
        &&& W::regular(scan.dist[k]->0)
        &&& W::value(low) <= far::<W>(scan.dist, k)
        &&& W::regular(through::<W>(s, i, g.min_val, k))
        &&& W::value(through::<W>(s, i, g.min_val, k)) == mv + rest::<W>(s, i, k)
    } by {
        let a = choose|a: int| 0 <= a < g.open && #[trigger] g.remaining[a] == k;
        assert(scan.dist[g.remaining[a] as int] is Some);
        assert(is_exact_through::<W>(s, i, g.min_val, g.remaining[a] as int));
        lemma_through::<W>(s, i, g.min_val, k, nr);
    }
    // columns of the tree keep their distances
    assert forall|k: int| 0 <= k < nc && #[trigger] g.col_done[k] implies scan.dist[k] == g.dist[k] by {}
    assert forall|a: int| 0 <= a < rec.order.len() implies scan.dist[#[trigger] rec.order[a]]
        == g.dist[rec.order[a]] && next.order[a] == rec.order[a] by {
        assert(g.col_done[rec.order[a]]);
    }
    assert forall|a: int| 0 <= a <= rec.order.len() implies #[trigger] row_far::<W>(
        scan.dist,
        next.order,
        a,
    ) == row_far::<W>(g.dist, rec.order, a) by {
        if a > 0 {
            assert(scan.dist[rec.order[a - 1]] == g.dist[rec.order[a - 1]]);
        }
    }
    assert(row_far::<W>(g.dist, rec.order, t) == mv);
    // no column is farther than through row `i`, and none got farther
    assert forall|k: int| 0 <= k < nc implies (#[trigger] scan.dist[k]) is Some && W::regular(
        scan.dist[k]->0,
    ) && far::<W>(scan.dist, k) <= mv + rest::<W>(s, i, k) && (!first ==> far::<W>(scan.dist, k)
        <= far::<W>(g.dist, k)) by {
        if g.col_done[k] {
            assert(rec.order.contains(k));
            let a = choose|a: int| 0 <= a < rec.order.len() && rec.order[a] == k;
            assert(far::<W>(g.dist, rec.order[a]) <= mv);
            assert(rest::<W>(s, i, k) >= 0);
            assert(g.dist[k] is Some);
        } else {
            let here = through::<W>(s, i, g.min_val, k);
            assert(g.col_done[k] == false);
            W::lemma_order(here, here);
            if !first {
                assert(g.dist[k] is Some);
                W::lemma_order(here, g.dist[k]->0);
            }
        }
    }
    assert forall|a: int, k: int| 0 <= a < next.rows.len() && 0 <= k < nc implies far::<W>(
        scan.dist,
        k,
    ) <= row_far::<W>(scan.dist, next.order, a) + #[trigger] rest::<W>(s, next.rows[a], k) by {
        assert(scan.dist[k] is Some);
        assert(row_far::<W>(scan.dist, next.order, a) == row_far::<W>(g.dist, rec.order, a));
        if a < t {
            assert(next.rows[a] == rec.rows[a]);
            assert(far::<W>(g.dist, k) <= row_far::<W>(g.dist, rec.order, a) + rest::<W>(
                s,
                rec.rows[a],
                k,
            ));
        } else {
            assert(next.rows[a] == i);
        }
    }
    assert forall|k: int| 0 <= k < nc implies 0 <= #[trigger] next.from[k] < next.rows.len()
        && far::<W>(scan.dist, k) == row_far::<W>(scan.dist, next.order, next.from[k])
        + rest::<W>(s, next.rows[next.from[k]], k) by {
        let here = through::<W>(s, i, g.min_val, k);
        assert(scan.dist[k] is Some);
        if !g.col_done[k] && nearer::<W>(here, g.dist[k]) {
            assert(next.from[k] == t);
            assert(next.rows[t] == i);
            assert(row_far::<W>(scan.dist, next.order, t) == row_far::<W>(g.dist, rec.order, t));
        } else {
            assert(scan.dist[k] == g.dist[k]);
            if first {
                assert(g.dist[k] is None);
            }
            let f = rec.from[k];
            assert(0 <= f < rec.rows.len());
            assert(next.rows[f] == rec.rows[f]);
            assert(row_far::<W>(scan.dist, next.order, f) == row_far::<W>(g.dist, rec.order, f));
        }
    }
    if !first {
        // the nearest column is no nearer than the last one
        assert(far::<W>(g.dist, j) >= mv);
        assert(rest::<W>(s, i, j) >= 0);
        assert(W::value(low) >= mv) by {
            assert(scan.dist[j] is Some);
        }
    }
    assert forall|a: int| 0 <= a < next.order.len() implies far::<W>(
        scan.dist,
        #[trigger] next.order[a],
    ) <= W::value(low) by {
        if a < rec.order.len() {
            assert(scan.dist[rec.order[a]] == g.dist[rec.order[a]]);
            assert(far::<W>(g.dist, rec.order[a]) <= mv);
        }
    }
    assert forall|k: int| 0 <= k < nc && !#[trigger] g.col_done.update(j, true)[k] implies far::<W>(
        scan.dist,
        k,
    ) >= W::value(low) by {
        assert(!g.col_done[k]);
    }
    assert(next.order.last() == j);
}

/// An exact search reaches a column, and all distances are exact.
proof fn lemma_exact_search<W: Weight>(
    s: Setting<W::V>,
    g: Growth<W::V>,
    rec: Record,
    col4row: Seq<Option<usize>>,
    cur_row: int,
    nr: int,
) -> (end: Record)
    requires
        is_growing(g, rec, s.row4col, cur_row, nr, s.nc),
        is_matched(col4row, s.row4col, cur_row, nr, s.nc),
        0 <= cur_row < nr <= s.nc <= usize::MAX,
        s.cost.len() == nr * s.nc,
        s.u.len() == nr,
        s.v.len() == s.nc,
        is_dual(
            values::<W>(s.cost),
            nr,
            s.nc,
            values::<W>(s.u),
            values::<W>(s.v),
            col4row,
            s.row4col,
            cur_row,
        ),
        is_exact_growth::<W>(s, g, rec),
        is_exact_search::<W>(s, g),
    ensures
        reached::<W>(s, g) is Some,
        is_found(reached::<W>(s, g)->0, end, s.row4col, cur_row, nr, s.nc),
        is_measured::<W>(
            s,
            reached::<W>(s, g)->0.dist,
            reached::<W>(s, g)->0.min_val,
            end,
            reached::<W>(s, g)->0.col_done,
        ),
    decreases g.open,
{
    let free = lemma_free_column(col4row, s.row4col, cur_row, nr, s.nc);
    assert(!g.col_done[free]) by {
        if g.col_done[free] {
            assert(rec.order.contains(free));
            let a = choose|a: int| 0 <= a < rec.order.len() && rec.order[a] == free;
            assert(s.row4col[rec.order[a]] is Some);
        }
    }
    let a = choose|a: int| 0 <= a < g.open && #[trigger] g.remaining[a] == free;
    assert(g.open > 0);
    lemma_exact_step::<W>(s, g, rec, col4row, cur_row, nr);
    lemma_matched_is_partial(col4row, s.row4col, cur_row, nr, s.nc);
    lemma_advanced::<W>(s, g, rec, cur_row, nr);
    let next = recorded::<W>(s, g, rec);
    if goes_on::<W>(s, g) {
        lemma_exact_search::<W>(s, advanced::<W>(s, g), next, col4row, cur_row, nr)
    } else {
        next
    }
}

/// The dual variables after an exact search and its augmentation.
#[verifier::rlimit(60)]
pub proof fn lemma_exact_duals<W: Weight>(
    cost: Seq<W::V>,
    nr: int,
    nc: int,
    m: Matching<W::V>,
    row: int,
    r: Reached<W::V>,
    rec: Record,
)
    requires
        0 <= row < nr <= nc <= usize::MAX,
        cost.len() == nr * nc,
        m.u.len() == nr,
        m.v.len() == nc,
        is_matched(m.col4row, m.row4col, row, nr, nc),
        is_dual(
            values::<W>(cost),
            nr,
            nc,
            values::<W>(m.u),
            values::<W>(m.v),
            m.col4row,
            m.row4col,
            row,
        ),
        is_found(r, rec, m.row4col, row, nr, nc),
        is_measured::<W>(setting_of(cost, nc, m), r.dist, r.min_val, rec, r.col_done),
        are_exact_duals::<W>(r, m, row),
    ensures
        ({
            let next = grown::<W>(nc, m, row, r);
            &&& is_matched(next.col4row, next.row4col, row + 1, nr, nc)
            &&& is_dual(
                values::<W>(cost),
                nr,
                nc,
                values::<W>(next.u),
                values::<W>(next.v),
                next.col4row,
                next.row4col,
                row + 1,
            )
        }),
{
    let next = grown::<W>(nc, m, row, r);
    let s = setting_of(cost, nc, m);
    let c = values::<W>(cost);
    let u0 = values::<W>(m.u);
    let v0 = values::<W>(m.v);
    let u = values::<W>(next.u);
    let v = values::<W>(next.v);
    let mv = W::value(r.min_val);
    let order = rec.order;
    let rows = rec.rows;
    lemma_turning_starts(r, rec, m.col4row, m.row4col, row, nr, nc);
    lemma_turned(
        r,
        rec,
        m.col4row,
        m.row4col,
        m.col4row,
        m.row4col,
        row,
        nr,
        nc,
        r.sink,
        order.len() - 1,
        nc as nat,
    );
    assert forall|t: int| 0 <= t < rows.len() implies u[#[trigger] rows[t]] == u0[rows[t]] + mv
        - row_far::<W>(r.dist, order, t) by {
        lemma_tree_rows(r, rec, m.col4row, m.row4col, row, nr, nc, t);
        if t > 0 {
            assert(r.row_seen[rows[t]]);
        }
    }
    assert forall|i: int| 0 <= i < nr && i != row && !#[trigger] r.row_seen[i] implies u[i] == u0[i] by {}
    assert forall|j: int| 0 <= j < nc implies #[trigger] v[j] == v0[j] - (if r.col_done[j] {
        mv - far::<W>(r.dist, j)
    } else {
        0
    }) && v[j] <= v0[j] by {
        if r.col_done[j] {
            assert(order.contains(j));
            let t = choose|t: int| 0 <= t < order.len() && order[t] == j;
            assert(far::<W>(r.dist, order[t]) <= mv);
        }
    }
    assert forall|i: int, j: int| 0 <= i <= row && 0 <= j < nc implies #[trigger] reduced(
        c,
        nc,
        u,
        v,
        i,
        j,
    ) >= 0 by {
        assert(v[j] <= v0[j]);
        if i == row || r.row_seen[i] {
            lemma_tree_rows(r, rec, m.col4row, m.row4col, row, nr, nc, 0);
            assert(rows.contains(i)) by {
                if i == row {
                    assert(rows[0] == i);
                }
            }
            let t = choose|t: int| 0 <= t < rows.len() && rows[t] == i;
            assert(u[rows[t]] == u0[rows[t]] + mv - row_far::<W>(r.dist, order, t));
            assert(far::<W>(r.dist, j) <= row_far::<W>(r.dist, order, t) + rest::<W>(
                s,
                rows[t],
                j,
            ));
            if !r.col_done[j] {
                assert(far::<W>(r.dist, j) >= mv);
            }
        } else {
            assert(reduced(c, nc, u0, v0, i, j) >= 0);
            assert(u[i] == u0[i]);
        }
    }
    // pairs of the old matching stay tight
    assert forall|i: int| 0 <= i < row implies reduced(
        c,
        nc,
        u,
        v,
        i,
        (#[trigger] m.col4row[i])->0 as int,
    ) == 0 by {
        let j = m.col4row[i]->0 as int;
        assert(m.row4col[j] == Some(i as usize));
        assert(reduced(c, nc, u0, v0, i, j) == 0);
        assert(v[j] <= v0[j]);
        if r.row_seen[i] {
            assert(rows.contains(i));
            let t = choose|t: int| 0 <= t < rows.len() && rows[t] == i;
            lemma_tree_rows(r, rec, m.col4row, m.row4col, row, nr, nc, t);
            assert(order[t - 1] == j);
            assert(r.col_done[order[t - 1]]);
            assert(u[rows[t]] == u0[rows[t]] + mv - row_far::<W>(r.dist, order, t));
        } else {
            assert(u[i] == u0[i]);
            if r.col_done[j] {
                assert(order.contains(j));
                let t = choose|t: int| 0 <= t < order.len() && order[t] == j;
                if t == order.len() - 1 {
                    assert(order.last() == j);
                } else {
                    lemma_tree_rows(r, rec, m.col4row, m.row4col, row, nr, nc, t + 1);
                }
            }
        }
    }
    // pairs of the tree are tight
    assert forall|t: int| 0 <= t < order.len() implies reduced(
        c,
        nc,
        u,
        v,
        r.path[#[trigger] order[t]] as int,
        order[t],
    ) == 0 by {
        let j = order[t];
        assert(r.col_done[j]);
        assert(v[j] <= v0[j]);
        let f = rec.from[j];
        assert(0 <= f < rows.len());
        assert(r.dist[j] is Some);
        assert(u[rows[f]] == u0[rows[f]] + mv - row_far::<W>(r.dist, order, f));
        assert(far::<W>(r.dist, j) == row_far::<W>(r.dist, order, f) + rest::<W>(s, rows[f], j));
    }
    assert forall|i: int| 0 <= i < row + 1 implies reduced(
        c,
        nc,
        u,
        v,
        i,
        (#[trigger] next.col4row[i])->0 as int,
    ) == 0 by {
        let j = next.col4row[i]->0 as int;
        assert(next.col4row[i] is Some);
        assert(is_pair(r, rec, m.col4row, i, j));
        if m.col4row[i] == Some(j as usize) {
            assert(i < row) by {
                if i == row {
                    assert(m.col4row[i] is None);
                }
            }
        } else {
            let t = choose|t: int| 0 <= t < order.len() && order[t] == j;
            assert(r.path[order[t]] == i);
        }
    }
    assert forall|i: int| row + 1 <= i < nr implies #[trigger] u[i] == 0 by {
        assert(u0[i] == 0);
        if r.row_seen[i] {
            assert(rows.contains(i));
            let t = choose|t: int| 0 <= t < rows.len() && rows[t] == i;
            lemma_tree_rows(r, rec, m.col4row, m.row4col, row, nr, nc, t);
        }
    }
    assert forall|j: int| 0 <= j < nc implies #[trigger] v[j] <= 0 by {
        assert(v0[j] <= 0);
    }
    assert forall|j: int| 0 <= j < nc && next.row4col[j] is None implies #[trigger] v[j] == 0 by {
        assert(m.row4col[j] is None && j != r.sink);
        assert(v0[j] == 0);
        if r.col_done[j] {
            assert(order.contains(j));
            let t = choose|t: int| 0 <= t < order.len() && order[t] == j;
            if t < order.len() - 1 {
                assert(m.row4col[order[t]] is Some);
            }
        }
    }
}

/// An exact run matches its rows under dual variables that prove it best.
pub proof fn lemma_exact_run<W: Weight>(cost: Seq<W::V>, nr: int, nc: int, k: nat)
    requires
        0 < nr <= nc <= usize::MAX,
        cost.len() == nr * nc,
        k <= nr,
        is_exact_run::<W>(cost, nr, nc, k),
    ensures
        matching::<W>(cost, nr, nc, k) is Some,
        ({
            let m = matching::<W>(cost, nr, nc, k)->0;
            &&& m.u.len() == nr
            &&& m.v.len() == nc
            &&& is_matched(m.col4row, m.row4col, k as int, nr, nc)
            &&& is_dual(
                values::<W>(cost),
                nr,
                nc,
                values::<W>(m.u),
                values::<W>(m.v),
                m.col4row,
                m.row4col,
                k as int,
            )
        }),
    decreases k,
{
    W::lemma_nothing();
    if k > 0 {
        let row = k - 1;
        lemma_exact_run::<W>(cost, nr, nc, row as nat);
        let m = matching::<W>(cost, nr, nc, row as nat)->0;
        let s = setting_of(cost, nc, m);
        let g = started::<W>(nr, nc, row);
        let rec = Record {
            order: Seq::empty(),
            rows: Seq::empty(),
            from: Seq::new(nc as nat, |j: int| 0),
        };
        lemma_started::<W>(m.row4col, row, nr, nc);
        let end = lemma_exact_search::<W>(s, g, rec, m.col4row, row, nr);
        let r = reached::<W>(s, g)->0;
        lemma_exact_duals::<W>(cost, nr, nc, m, row, r, end);
    }
}

/// Where no sum is rounded, every row gets a column, and no other choice of columns
/// costs less in total.
pub proof fn lemma_exact_solution<W: Weight>(cost: Seq<W::V>, nr: int, nc: int)
    requires
        0 < nr <= nc <= usize::MAX,
        cost.len() == nr * nc,
        is_exact_run::<W>(cost, nr, nc, nr as nat),
    ensures
        solution::<W>(cost, nr, nc) is Some,
        ({
            let c = positions(solution::<W>(cost, nr, nc)->0);
            &&& c.len() == nr
            &&& is_selection(c, nc)
            &&& forall|rows2: Seq<int>, cols2: Seq<int>|
                is_assignment(rows2, cols2, nr, nc) ==> total(
                    values::<W>(cost),
                    nc,
                    iota(nr),
                    c,
                ) <= #[trigger] total(values::<W>(cost), nc, rows2, cols2)
        }),
{
    lemma_exact_run::<W>(cost, nr, nc, nr as nat);
    let m = matching::<W>(cost, nr, nc, nr as nat)->0;
    let cols = solution::<W>(cost, nr, nc)->0;
    let c = positions(cols);
    let u = values::<W>(m.u);
    let v = values::<W>(m.v);
    assert forall|i: int| 0 <= i < nr implies m.col4row[i] == Some(#[trigger] cols[i]) by {
        assert(m.col4row[i] is Some);
    }
    assert(is_selection(c, nc)) by {
        assert forall|a: int, b: int| 0 <= a < c.len() && 0 <= b < c.len() && a != b implies c[a]
            != c[b] by {
            assert(m.col4row[a] == Some(cols[a]));
            assert(m.col4row[b] == Some(cols[b]));
            assert(m.row4col[m.col4row[a]->0 as int] == Some(a as usize));
            assert(m.row4col[m.col4row[b]->0 as int] == Some(b as usize));
        }
        assert forall|k: int| 0 <= k < c.len() implies 0 <= #[trigger] c[k] < nc by {
            assert(m.col4row[k] == Some(cols[k]));
        }
    }
    assert forall|i: int| 0 <= i < nr implies reduced(
        values::<W>(cost),
        nc,
        u,
        v,
        i,
        #[trigger] c[i],
    ) == 0 by {
        assert(m.col4row[i] == Some(cols[i]));
    }
    assert forall|j: int| 0 <= j < nc && !c.contains(j) implies #[trigger] v[j] == 0 by {
        if m.row4col[j] is Some {
            let i = m.row4col[j]->0 as int;
            assert(m.col4row[i] == Some(cols[i]));
            assert(c[i] == j);
        }
    }
    assert forall|rows2: Seq<int>, cols2: Seq<int>| is_assignment(rows2, cols2, nr, nc) implies total(
        values::<W>(cost),
        nc,
        iota(nr),
        c,
    ) <= #[trigger] total(values::<W>(cost), nc, rows2, cols2) by {
        lemma_optimal(values::<W>(cost), nr, nc, u, v, c, rows2, cols2);
    }
}

/// No sum of integers is rounded.
pub proof fn lemma_always_exact(cost: Seq<int>, nr: int, nc: int, k: nat)
    ensures
        is_exact_run::<Wide>(cost, nr, nc, k),
    decreases k,
{
    if k > 0 {
        lemma_always_exact(cost, nr, nc, (k - 1) as nat);
        if let Some(m) = matching::<Wide>(cost, nr, nc, (k - 1) as nat) {
            lemma_search_exact(setting_of(cost, nc, m), started::<Wide>(nr, nc, k - 1));
        }
    }
}

proof fn lemma_search_exact(s: Setting<int>, g: Growth<int>)
    ensures
        is_exact_search::<Wide>(s, g),
    decreases g.open,
{
    if goes_on::<Wide>(s, g) {
        lemma_search_exact(s, advanced::<Wide>(s, g));
    }
}

} // verus!
