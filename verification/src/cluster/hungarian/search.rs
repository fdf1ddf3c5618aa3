//! Shortest augmenting paths for the rectangular assignment problem.
//!
//! Rows are matched one by one. Each search grows a tree from the new row until it
//! reaches a free column; the pairs along the path to it are then turned over.

use vstd::prelude::*;
use crate::cluster::hungarian::reach::{are_bounded, is_nearest, is_within_reach, lemma_bounded_scan, lemma_nearest, lemma_within_reach};
use crate::cluster::hungarian::rule::{advanced, column_of, goes_on, nearer, reached, scan_of, scanned, started, through, Growth, Reached, Scan, Setting};
use crate::cluster::hungarian::sums::lemma_index;
use crate::cluster::hungarian::weight::{distance, distances, views, Weight};

verus! {

/// The two directions of a matching of the first `k` rows.
pub open spec fn is_matched(
    col4row: Seq<Option<usize>>,
    row4col: Seq<Option<usize>>,
    k: int,
    nr: int,
    nc: int,
) -> bool {
    &&& 0 <= k <= nr
    &&& col4row.len() == nr
    &&& row4col.len() == nc
    &&& forall|i: int|
        0 <= i < k ==> {
            &&& #[trigger] col4row[i] is Some
            &&& col4row[i]->0 < nc
            &&& row4col[col4row[i]->0 as int] == Some(i as usize)
        }
    &&& forall|i: int| k <= i < nr ==> #[trigger] col4row[i] is None
    &&& forall|j: int|
        0 <= j < nc && #[trigger] row4col[j] is Some ==> {
            &&& row4col[j]->0 < k
            &&& col4row[row4col[j]->0 as int] == Some(j as usize)
        }
}

/// Every matched column has a row of its own, and none has row `row`.
pub open spec fn is_partial(row4col: Seq<Option<usize>>, row: int, nr: int, nc: int) -> bool {
    &&& row4col.len() == nc
    &&& forall|j: int|
        0 <= j < nc && #[trigger] row4col[j] is Some ==> row4col[j]->0 < nr && row4col[j]->0 != row
    &&& forall|a: int, b: int|
        0 <= a < b < nc && #[trigger] row4col[a] is Some ==> row4col[a] != #[trigger] row4col[b]
}

/// A matching of the first `k` rows leaves row `k` free.
pub proof fn lemma_matched_is_partial(
    col4row: Seq<Option<usize>>,
    row4col: Seq<Option<usize>>,
    k: int,
    nr: int,
    nc: int,
)
    requires
        is_matched(col4row, row4col, k, nr, nc),
        nc <= usize::MAX,
    ensures
        is_partial(row4col, k, nr, nc),
{
    assert forall|a: int, b: int|
        0 <= a < b < nc && #[trigger] row4col[a] is Some implies row4col[a] != #[trigger] row4col[b] by {
        assert(col4row[row4col[a]->0 as int] == Some(a as usize));
    }
}

/// The `t`-th row of the tree: the new row, then the partners of the columns.
pub open spec fn tree_row(row4col: Seq<Option<usize>>, order: Seq<int>, cur_row: int, t: int) -> int {
    if t <= 0 { cur_row } else { row4col[order[t - 1]]->0 as int }
}

/// Columns in `order` are distinct columns, the ones marked done.
pub open spec fn is_order(order: Seq<int>, col_done: Seq<bool>, nc: int) -> bool {
    &&& col_done.len() == nc
    &&& order.no_duplicates()
    &&& forall|t: int| 0 <= t < order.len() ==> 0 <= #[trigger] order[t] < nc && col_done[order[t]]
    &&& forall|j: int| 0 <= j < nc && #[trigger] col_done[j] ==> order.contains(j)
}

/// Rows in `rows` are the rows of the tree, the ones marked seen.
pub open spec fn is_rows(
    rows: Seq<int>,
    row_seen: Seq<bool>,
    order: Seq<int>,
    row4col: Seq<Option<usize>>,
    cur_row: int,
    nr: int,
) -> bool {
    &&& row_seen.len() == nr
    &&& forall|t: int|
        0 <= t < rows.len() ==> {
            &&& #[trigger] rows[t] == tree_row(row4col, order, cur_row, t)
            &&& 0 <= rows[t] < nr
            &&& row_seen[rows[t]]
        }
    &&& forall|i: int| 0 <= i < nr && #[trigger] row_seen[i] ==> rows.contains(i)
}

/// The open columns, listed once each.
pub open spec fn is_worklist(remaining: Seq<usize>, num: int, col_done: Seq<bool>, nc: int) -> bool {
    &&& remaining.len() == nc
    &&& 0 <= num <= nc
    &&& forall|a: int| 0 <= a < num ==> #[trigger] remaining[a] < nc && !col_done[remaining[a] as int]
    &&& forall|a: int, b: int|
        0 <= a < b < num ==> #[trigger] remaining[a] != #[trigger] remaining[b]
    &&& forall|j: int|
        0 <= j < nc && !#[trigger] col_done[j] ==> exists|a: int|
            0 <= a < num && #[trigger] remaining[a] == j
}

/// Replacing the closed column by the last open one keeps the worklist.
proof fn lemma_worklist_step(
    remaining0: Seq<usize>,
    remaining: Seq<usize>,
    num: int,
    index: int,
    done0: Seq<bool>,
    nc: int,
)
    requires
        is_worklist(remaining0, num + 1, done0, nc),
        done0.len() == nc,
        0 <= index <= num,
        remaining == remaining0.update(index, remaining0[num]),
    ensures
        is_worklist(remaining, num, done0.update(remaining0[index] as int, true), nc),
{
    let j = remaining0[index] as int;
    let done = done0.update(j, true);
    assert forall|a: int| 0 <= a < num implies #[trigger] remaining[a] < nc && !done[remaining[a] as int] by {
        if a == index {
            assert(remaining0[num] != remaining0[index]);
        } else {
            assert(remaining0[a] < nc);
            if a < index {
                assert(remaining0[a] != remaining0[index]);
            } else {
                assert(remaining0[index] != remaining0[a]);
            }
        }
    }
    assert forall|a: int, b: int| 0 <= a < b < num implies #[trigger] remaining[a]
        != #[trigger] remaining[b] by {
        let x = if a == index { num } else { a };
        let y = if b == index { num } else { b };
        if x < y {
            assert(remaining0[x] != remaining0[y]);
        } else {
            assert(remaining0[y] != remaining0[x]);
        }
    }
    assert forall|k: int| 0 <= k < nc && !#[trigger] done[k] implies exists|a: int|
        0 <= a < num && #[trigger] remaining[a] == k by {
        assert(!done0[k]);
        let a = choose|a: int| 0 <= a < num + 1 && #[trigger] remaining0[a] == k;
        assert(a != index);
        if a == num {
            assert(remaining[index] == k);
        } else {
            assert(remaining[a] == k);
        }
    }
}

/// How a search tree came about.
pub ghost struct Record {
    /// Columns in the order in which they entered the tree.
    pub order: Seq<int>,
    /// Rows in the order in which they entered the tree.
    pub rows: Seq<int>,
    /// Position, in `rows`, of the row before each column.
    pub from: Seq<int>,
}

/// Each column that a path is known to has its row in the tree, and the row of a
/// column in the tree entered before the column.
pub open spec fn is_linked<V>(
    dist: Seq<Option<V>>,
    path: Seq<usize>,
    rec: Record,
    nc: int,
) -> bool {
    &&& dist.len() == nc
    &&& path.len() == nc
    &&& rec.from.len() == nc
    &&& forall|j: int|
        0 <= j < nc && (#[trigger] dist[j]) is Some ==> {
            &&& 0 <= rec.from[j] < rec.rows.len()
            &&& path[j] == rec.rows[rec.from[j]]
        }
    &&& forall|s: int|
        0 <= s < rec.order.len() ==> dist[#[trigger] rec.order[s]] is Some
            && rec.from[rec.order[s]] <= s
}

/// A search under way is in order.
pub open spec fn is_growing<V>(
    g: Growth<V>,
    rec: Record,
    row4col: Seq<Option<usize>>,
    cur_row: int,
    nr: int,
    nc: int,
) -> bool {
    &&& rec.order.len() == rec.rows.len()
    &&& is_order(rec.order, g.col_done, nc)
    &&& is_rows(rec.rows, g.row_seen, rec.order, row4col, cur_row, nr)
    &&& is_linked(g.dist, g.path, rec, nc)
    &&& forall|t: int| 0 <= t < rec.order.len() ==> row4col[#[trigger] rec.order[t]] is Some
    &&& is_worklist(g.remaining, g.open as int, g.col_done, nc)
    &&& g.open == nc - rec.order.len()
    &&& g.row == tree_row(row4col, rec.order, cur_row, rec.order.len() as int)
    &&& 0 <= g.row < nr
    &&& rec.order.len() > 0 ==> g.row != cur_row
}

/// A finished search is in order.
pub open spec fn is_found<V>(
    r: Reached<V>,
    rec: Record,
    row4col: Seq<Option<usize>>,
    cur_row: int,
    nr: int,
    nc: int,
) -> bool {
    &&& 0 < rec.order.len() == rec.rows.len()
    &&& rec.order.len() <= nc
    &&& is_order(rec.order, r.col_done, nc)
    &&& is_rows(rec.rows, r.row_seen, rec.order, row4col, cur_row, nr)
    &&& is_linked(r.dist, r.path, rec, nc)
    &&& r.sink == rec.order.last()
    &&& 0 <= r.sink < nc
    &&& row4col[r.sink] is None
    &&& forall|t: int| 0 <= t < rec.order.len() - 1 ==> row4col[#[trigger] rec.order[t]] is Some
}

/// Some record shows that a finished search is in order.
pub open spec fn has_record<V>(
    r: Reached<V>,
    row4col: Seq<Option<usize>>,
    cur_row: int,
    nr: int,
    nc: int,
) -> bool {
    exists|rec: Record| #[trigger] is_found(r, rec, row4col, cur_row, nr, nc)
}

/// The open columns have been looked at from row `i`: those that are nearer through
/// it have it on their path.
pub open spec fn is_scan<W: Weight>(
    s: Setting<W::V>,
    i: int,
    min_val: W::V,
    col_done: Seq<bool>,
    dist0: Seq<Option<W::V>>,
    path0: Seq<usize>,
    dist: Seq<Option<W::V>>,
    path: Seq<usize>,
) -> bool {
    &&& dist.len() == s.nc
    &&& path.len() == s.nc
    &&& forall|j: int|
        0 <= j < s.nc ==> {
            let here = through::<W>(s, i, min_val, j);
            if !col_done[j] && nearer::<W>(here, dist0[j]) {
                #[trigger] dist[j] == Some(here) && path[j] == i
            } else {
                dist[j] == dist0[j] && path[j] == path0[j]
            }
        }
}

/// Column `j` is not among the first `n` of the worklist.
pub open spec fn is_untouched(remaining: Seq<usize>, n: int, j: int) -> bool {
    forall|a: int| 0 <= a < n ==> #[trigger] remaining[a] != j
}

/// What the first `n` steps of a scan did.
pub proof fn lemma_scanned<W: Weight>(
    s: Setting<W::V>,
    i: int,
    min_val: W::V,
    remaining: Seq<usize>,
    num: int,
    col_done: Seq<bool>,
    dist0: Seq<Option<W::V>>,
    path0: Seq<usize>,
    n: nat,
)
    requires
        is_worklist(remaining, num, col_done, s.nc),
        n <= num,
        dist0.len() == s.nc,
        path0.len() == s.nc,
        0 <= i <= usize::MAX,
    ensures
        ({
            let scan = scanned::<W>(s, i, min_val, remaining, dist0, path0, n);
            &&& scan.dist.len() == s.nc
            &&& scan.path.len() == s.nc
            &&& forall|j: int|
                0 <= j < s.nc && #[trigger] is_untouched(remaining, n as int, j) ==> scan.dist[j]
                    == dist0[j] && scan.path[j] == path0[j]
            &&& forall|a: int|
                0 <= a < n ==> {
                    let j = #[trigger] remaining[a] as int;
                    let here = through::<W>(s, i, min_val, j);
                    if nearer::<W>(here, dist0[j]) {
                        scan.dist[j] == Some(here) && scan.path[j] == i
                    } else {
                        scan.dist[j] == dist0[j] && scan.path[j] == path0[j]
                    }
                }
            &&& scan.lowest is Some ==> 0 <= scan.index < n && scan.lowest
                == scan.dist[remaining[scan.index] as int]
            &&& scan.lowest is None ==> forall|a: int|
                0 <= a < n ==> scan.dist[#[trigger] remaining[a] as int] is None
        }),
    decreases n,
{
    if n > 0 {
        let m = (n - 1) as nat;
        lemma_scanned::<W>(s, i, min_val, remaining, num, col_done, dist0, path0, m);
        let before = scanned::<W>(s, i, min_val, remaining, dist0, path0, m);
        let scan = scanned::<W>(s, i, min_val, remaining, dist0, path0, n);
        let j = remaining[m as int] as int;
        assert(is_untouched(remaining, m as int, j));
        assert forall|k: int| 0 <= k < s.nc && k != j implies scan.dist[k] == before.dist[k]
            && scan.path[k] == before.path[k] by {}
        assert forall|k: int| 0 <= k < s.nc && #[trigger] is_untouched(remaining, n as int, k) implies
            scan.dist[k] == dist0[k] && scan.path[k] == path0[k] by {
            assert(remaining[m as int] != k);
            assert(is_untouched(remaining, m as int, k)) by {
                assert forall|a: int| 0 <= a < m implies #[trigger] remaining[a] != k by {}
            }
        }
        assert forall|a: int| 0 <= a < n implies {
            let k = #[trigger] remaining[a] as int;
            let here = through::<W>(s, i, min_val, k);
            if nearer::<W>(here, dist0[k]) {
                scan.dist[k] == Some(here) && scan.path[k] == i
            } else {
                scan.dist[k] == dist0[k] && scan.path[k] == path0[k]
            }
        } by {
            if a < m {
                assert(remaining[a] != remaining[m as int]);
            }
        }
        if scan.lowest is Some && scan.index < m {
            assert(remaining[scan.index] != remaining[m as int]);
        }
        if scan.lowest is None {
            assert forall|a: int| 0 <= a < n implies scan.dist[#[trigger] remaining[a] as int] is None by {
                if a < m {
                    assert(remaining[a] != remaining[m as int]);
                }
            }
        }
    }
}

/// A whole scan.
pub proof fn lemma_scan<W: Weight>(
    s: Setting<W::V>,
    g: Growth<W::V>,
    rec: Record,
    cur_row: int,
    nr: int,
)
    requires
        is_growing(g, rec, s.row4col, cur_row, nr, s.nc),
        0 <= cur_row < nr <= usize::MAX,
    ensures
        ({
            let scan = scan_of::<W>(s, g);
            &&& is_scan::<W>(
                s,
                g.row,
                g.min_val,
                g.col_done,
                g.dist,
                g.path,
                scan.dist,
                scan.path,
            )
            &&& scan.lowest is Some ==> {
                &&& 0 <= scan.index < g.open
                &&& 0 <= column_of::<W>(s, g) < s.nc
                &&& !g.col_done[column_of::<W>(s, g)]
                &&& scan.lowest == scan.dist[column_of::<W>(s, g)]
            }
            &&& scan.lowest is None ==> forall|j: int|
                0 <= j < s.nc && !#[trigger] g.col_done[j] ==> scan.dist[j] is None
        }),
{
    let scan = scan_of::<W>(s, g);
    let num = g.open as int;
    lemma_scanned::<W>(
        s,
        g.row,
        g.min_val,
        g.remaining,
        num,
        g.col_done,
        g.dist,
        g.path,
        g.open,
    );
    assert forall|j: int| 0 <= j < s.nc implies {
        let here = through::<W>(s, g.row, g.min_val, j);
        if !g.col_done[j] && nearer::<W>(here, g.dist[j]) {
            #[trigger] scan.dist[j] == Some(here) && scan.path[j] == g.row
        } else {
            scan.dist[j] == g.dist[j] && scan.path[j] == g.path[j]
        }
    } by {
        if g.col_done[j] {
            assert(is_untouched(g.remaining, num, j));
        } else {
            let a = choose|a: int| 0 <= a < num && #[trigger] g.remaining[a] == j;
            assert(g.remaining[a] == j);
        }
    }
    if scan.lowest is None {
        assert forall|j: int| 0 <= j < s.nc && !#[trigger] g.col_done[j] implies scan.dist[j] is None by {
            let a = choose|a: int| 0 <= a < num && #[trigger] g.remaining[a] == j;
            assert(scan.dist[g.remaining[a] as int] is None);
        }
    }
}

/// The record after the nearest column was taken in.
pub open spec fn recorded<W: Weight>(s: Setting<W::V>, g: Growth<W::V>, rec: Record) -> Record {
    let scan = scan_of::<W>(s, g);
    Record {
        order: rec.order.push(column_of::<W>(s, g)),
        rows: rec.rows.push(g.row),
        from: Seq::new(
            s.nc as nat,
            |j: int|
                if !g.col_done[j] && nearer::<W>(through::<W>(s, g.row, g.min_val, j), g.dist[j]) {
                    rec.rows.len() as int
                } else {
                    rec.from[j]
                },
        ),
    }
}

/// Taking in the nearest column keeps a search in order.
pub proof fn lemma_advanced<W: Weight>(
    s: Setting<W::V>,
    g: Growth<W::V>,
    rec: Record,
    cur_row: int,
    nr: int,
)
    requires
        is_growing(g, rec, s.row4col, cur_row, nr, s.nc),
        is_partial(s.row4col, cur_row, nr, s.nc),
        0 <= cur_row < nr <= usize::MAX,
        scan_of::<W>(s, g).lowest is Some,
    ensures
        g.open > 0,
        ({
            let next = recorded::<W>(s, g, rec);
            let scan = scan_of::<W>(s, g);
            let j = column_of::<W>(s, g);
            &&& is_order(next.order, g.col_done.update(j, true), s.nc)
            &&& is_rows(
                next.rows,
                g.row_seen.update(g.row, true),
                next.order,
                s.row4col,
                cur_row,
                nr,
            )
            &&& is_linked(scan.dist, scan.path, next, s.nc)
            &&& goes_on::<W>(s, g) ==> is_growing(
                advanced::<W>(s, g),
                next,
                s.row4col,
                cur_row,
                nr,
                s.nc,
            )
            &&& !goes_on::<W>(s, g) ==> reached::<W>(s, g) is Some && is_found(
                reached::<W>(s, g)->0,
                next,
                s.row4col,
                cur_row,
                nr,
                s.nc,
            )
        }),
{
    lemma_scan::<W>(s, g, rec, cur_row, nr);
    let scan = scan_of::<W>(s, g);
    let j = column_of::<W>(s, g);
    let nc = s.nc;
    let next = recorded::<W>(s, g, rec);
    let done = g.col_done.update(j, true);
    let seen = g.row_seen.update(g.row, true);
    let t0 = rec.rows.len() as int;
    assert(forall|t: int| 0 <= t < rec.order.len() ==> next.order[t] == #[trigger] rec.order[t]);
    assert(forall|t: int| 0 <= t < t0 ==> next.rows[t] == #[trigger] rec.rows[t]);
    assert(next.order.no_duplicates()) by {
        assert forall|a: int, b: int| 0 <= a < b < next.order.len() implies next.order[a]
            != next.order[b] by {
            assert(g.col_done[rec.order[a]]);
        }
    }
    assert forall|k: int| 0 <= k < nc && #[trigger] done[k] implies next.order.contains(k) by {
        if k == j {
            assert(next.order[rec.order.len() as int] == k);
        } else {
            assert(g.col_done[k]);
            let a = choose|a: int| 0 <= a < rec.order.len() && rec.order[a] == k;
            assert(next.order[a] == k);
        }
    }
    assert forall|t: int| 0 <= t < next.order.len() implies 0 <= #[trigger] next.order[t] < nc
        && done[next.order[t]] by {
        if t < rec.order.len() {
            assert(g.col_done[rec.order[t]]);
        }
    }
    assert forall|a: int| 0 <= a < next.rows.len() implies {
        &&& #[trigger] next.rows[a] == tree_row(s.row4col, next.order, cur_row, a)
        &&& 0 <= next.rows[a] < nr
        &&& seen[next.rows[a]]
    } by {
        if a < t0 {
            assert(rec.rows[a] == tree_row(s.row4col, rec.order, cur_row, a));
        }
    }
    assert forall|r: int| 0 <= r < nr && #[trigger] seen[r] implies next.rows.contains(r) by {
        if r == g.row {
            assert(next.rows[t0] == r);
        } else {
            assert(g.row_seen[r]);
            let a = choose|a: int| 0 <= a < rec.rows.len() && rec.rows[a] == r;
            assert(next.rows[a] == r);
        }
    }
    assert forall|k: int| 0 <= k < nc && (#[trigger] scan.dist[k]) is Some implies {
        &&& 0 <= next.from[k] < next.rows.len()
        &&& scan.path[k] == next.rows[next.from[k]]
    } by {
        if !(!g.col_done[k] && nearer::<W>(through::<W>(s, g.row, g.min_val, k), g.dist[k])) {
            assert(g.dist[k] is Some);
        }
    }
    assert forall|a: int| 0 <= a < next.order.len() implies scan.dist[#[trigger] next.order[a]] is Some
        && next.from[next.order[a]] <= a by {
        if a < rec.order.len() {
            assert(g.col_done[rec.order[a]]);
            assert(g.dist[rec.order[a]] is Some);
        } else {
            assert(scan.dist[j] is Some);
        }
    }
    if goes_on::<W>(s, g) {
        let adv = advanced::<W>(s, g);
        lemma_worklist_step(
            g.remaining,
            adv.remaining,
            g.open - 1,
            scan.index,
            g.col_done,
            nc,
        );
        assert forall|t: int| 0 <= t < next.order.len() implies s.row4col[#[trigger] next.order[t]] is Some by {
            if t < rec.order.len() {
                assert(s.row4col[rec.order[t]] is Some);
            }
        }
        assert(s.row4col[j]->0 != cur_row);
    } else {
        assert forall|t: int| 0 <= t < next.order.len() - 1 implies s.row4col[#[trigger] next.order[t]] is Some by {
            assert(s.row4col[rec.order[t]] is Some);
        }
    }
}

/// The start of a search is in order.
pub proof fn lemma_started<W: Weight>(row4col: Seq<Option<usize>>, cur_row: int, nr: int, nc: int)
    requires
        0 <= cur_row < nr,
        0 <= nc <= usize::MAX,
    ensures
        is_growing(
            started::<W>(nr, nc, cur_row),
            Record { order: Seq::empty(), rows: Seq::empty(), from: Seq::new(nc as nat, |j: int| 0) },
            row4col,
            cur_row,
            nr,
            nc,
        ),
{
    let g = started::<W>(nr, nc, cur_row);
    assert forall|j: int| 0 <= j < nc && !#[trigger] g.col_done[j] implies exists|a: int|
        0 <= a < nc && #[trigger] g.remaining[a] == j by {
        assert(g.remaining[nc - j - 1] == j);
    }
}

/// The outcome of one search.
pub struct Search<W> {
    /// The free column reached.
    pub sink: usize,
    /// Its distance.
    pub min_val: W,
    /// The row before each column.
    pub path: Vec<usize>,
    /// The distance of each column.
    pub dist: Vec<Option<W>>,
    /// Rows in the tree.
    pub row_seen: Vec<bool>,
    /// Columns in the tree.
    pub col_done: Vec<bool>,
}

impl<W: Weight> Search<W> {
    /// What it stands for.
    pub open spec fn end(self) -> Reached<W::V> {
        Reached {
            sink: self.sink as int,
            min_val: self.min_val@,
            dist: distances(self.dist@),
            path: self.path@,
            row_seen: self.row_seen@,
            col_done: self.col_done@,
        }
    }
}

/// A matrix of `nr` rows and `nc` columns with its dual variables and a matching.
pub struct Problem<'a, W> {
    pub nr: usize,
    pub nc: usize,
    pub cost: &'a Vec<W>,
    pub u: &'a Vec<W>,
    pub v: &'a Vec<W>,
    pub row4col: &'a Vec<Option<usize>>,
}

impl<'a, W: Weight> Problem<'a, W> {
    pub open spec fn setting(&self) -> Setting<W::V> {
        Setting {
            cost: views(self.cost@),
            nc: self.nc as int,
            u: views(self.u@),
            v: views(self.v@),
            row4col: self.row4col@,
        }
    }

    pub open spec fn is_shaped(&self) -> bool {
        &&& self.cost@.len() == self.nr * self.nc
        &&& self.nr * self.nc <= usize::MAX
        &&& self.u@.len() == self.nr
        &&& self.v@.len() == self.nc
        &&& self.row4col@.len() == self.nc
    }
}

/// Looks at the open columns from row `i`: shortens the paths that are shorter
/// through it, and finds the nearest open column.
fn scan<W: Weight>(
    p: &Problem<W>,
    i: usize,
    min_val: &W,
    remaining: &Vec<usize>,
    num_remaining: usize,
    path: &mut Vec<usize>,
    dist: &mut Vec<Option<W>>,
) -> (r: (usize, Option<W>))
    requires
        p.is_shaped(),
        i < p.nr,
        num_remaining <= remaining.len(),
        forall|a: int| 0 <= a < num_remaining ==> #[trigger] remaining@[a] < p.nc,
        old(path).len() == p.nc,
        old(dist).len() == p.nc,
    ensures
        (Scan {
            dist: distances(final(dist)@),
            path: final(path)@,
            index: r.0 as int,
            lowest: distance(r.1),
        }) == scanned::<W>(
            p.setting(),
            i as int,
            min_val@,
            remaining@,
            distances(old(dist)@),
            old(path)@,
            num_remaining as nat,
        ),
        final(path).len() == p.nc,
        final(dist).len() == p.nc,
{
    let ghost s = p.setting();
    let ghost dist0 = distances(dist@);
    let ghost path0 = path@;
    let mut index: usize = 0;
    let mut lowest: Option<W> = None;
    let mut it: usize = 0;
    while it < num_remaining
        invariant
            p.is_shaped(),
            s == p.setting(),
            i < p.nr,
            it <= num_remaining <= remaining.len(),
            forall|a: int| 0 <= a < num_remaining ==> #[trigger] remaining@[a] < p.nc,
            path.len() == p.nc,
            dist.len() == p.nc,
            (Scan {
                dist: distances(dist@),
                path: path@,
                index: index as int,
                lowest: distance(lowest),
            }) == scanned::<W>(
                s,
                i as int,
                min_val@,
                remaining@,
                dist0,
                path0,
                it as nat,
            ),
        decreases num_remaining - it,
    {
        let j: usize = remaining[it];
        let ghost dist1 = distances(dist@);
        let ghost path1 = path@;
        proof {
            lemma_index(p.nr as int, p.nc as int, i as int, j as int);
            assert(dist1[j as int] == distance(dist@[j as int]));
        }
        let here: W = min_val.plus(&p.cost[i * p.nc + j]).minus(&p.u[i]).minus(&p.v[j]);
        proof {
            assert(here@ == through::<W>(s, i as int, min_val@, j as int));
        }
        let better: bool = match &dist[j] {
            Some(d) => here.is_less(d),
            None => here.is_bounded(),
        };
        if better {
            path[j] = i;
            dist[j] = Some(here);
            proof {
                assert(distances(dist@) =~= dist1.update(j as int, Some(here@)));
                assert(path@ =~= path1.update(j as int, i));
            }
        }
        let ghost dist2 = distances(dist@);
        proof {
            assert(dist2[j as int] == distance(dist@[j as int]));
        }
        let free: bool = p.row4col[j].is_none();
        let replace: bool = match &dist[j] {
            Some(a) => match &lowest {
                Some(b) => a.is_less(b) || (a.is_same(b) && free),
                None => true,
            },
            None => false,
        };
        if replace {
            lowest = match &dist[j] {
                Some(a) => Some(a.copied()),
                None => None,
            };
            index = it;
        }
        it = it + 1;
    }
    (index, lowest)
}

/// Grows the tree from row `cur_row` to the nearest free column. The worklist of
/// open columns starts with the highest. `None` where no column can be reached, which
/// is never so while some free column is within reach of the row itself.
pub fn augmenting_path<W: Weight>(p: &Problem<W>, cur_row: usize) -> (r: Option<Search<W>>)
    requires
        p.is_shaped(),
        is_partial(p.row4col@, cur_row as int, p.nr as int, p.nc as int),
        cur_row < p.nr,
    ensures
        match reached::<W>(
            p.setting(),
            started::<W>(p.nr as int, p.nc as int, cur_row as int),
        ) {
            None => r is None,
            Some(end) => r is Some && r->0.end() == end,
        },
        r is Some ==> is_nearest::<W>(
            r->0.end(),
            p.row4col@,
            cur_row as int,
            p.nr as int,
            p.nc as int,
        ),
        r is Some ==> has_record(
            r->0.end(),
            p.row4col@,
            cur_row as int,
            p.nr as int,
            p.nc as int,
        ),
        forall|free: int|
            #[trigger] is_within_reach::<W>(p.setting(), cur_row as int, free) ==> r is Some,
{
    let nr: usize = p.nr;
    let nc: usize = p.nc;
    let ghost s = p.setting();
    let ghost goal = reached::<W>(s, started::<W>(nr as int, nc as int, cur_row as int));
    let mut remaining: Vec<usize> = Vec::with_capacity(nc);
    let mut dist: Vec<Option<W>> = Vec::with_capacity(nc);
    while remaining.len() < nc
        invariant
            remaining.len() <= nc,
            dist.len() == remaining.len(),
            forall|a: int| 0 <= a < remaining.len() ==> #[trigger] remaining@[a] == nc - a - 1,
            forall|a: int| 0 <= a < dist.len() ==> (#[trigger] dist@[a]) is None,
        decreases nc - remaining.len(),
    {
        let it: usize = remaining.len();
        remaining.push(nc - it - 1);
        dist.push(None);
    }
    let mut path: Vec<usize> = vec![0; nc];
    let mut row_seen: Vec<bool> = vec![false; nr];
    let mut col_done: Vec<bool> = vec![false; nc];
    let mut num_remaining: usize = nc;
    let mut min_val: W = W::make_nothing();
    let mut i: usize = cur_row;
    let ghost mut rec = Record {
        order: Seq::empty(),
        rows: Seq::empty(),
        from: Seq::new(nc as nat, |j: int| 0),
    };
    let ghost mut g = started::<W>(nr as int, nc as int, cur_row as int);
    proof {
        lemma_started::<W>(p.row4col@, cur_row as int, nr as int, nc as int);
        assert(g.dist =~= distances(dist@));
        assert(g.path =~= path@);
        assert(g.row_seen =~= row_seen@);
        assert(g.col_done =~= col_done@);
        assert(g.remaining =~= remaining@);
        assert forall|free: int| #[trigger]
            is_within_reach::<W>(s, cur_row as int, free) implies goal is Some by {
            lemma_within_reach::<W>(s, cur_row as int, nr as int, free);
        }
    }
    loop
        invariant
            p.is_shaped(),
            nr == p.nr,
            nc == p.nc,
            s == p.setting(),
            is_partial(p.row4col@, cur_row as int, nr as int, nc as int),
            cur_row < nr,
            goal == reached::<W>(s, started::<W>(nr as int, nc as int, cur_row as int)),
            goal == reached::<W>(s, g),
            forall|free: int|
                #[trigger] is_within_reach::<W>(s, cur_row as int, free) ==> goal is Some,
            are_bounded::<W>(g.dist),
            is_growing(g, rec, p.row4col@, cur_row as int, nr as int, nc as int),
            g == (Growth {
                dist: distances(dist@),
                path: path@,
                row_seen: row_seen@,
                col_done: col_done@,
                remaining: remaining@,
                open: num_remaining as nat,
                min_val: min_val@,
                row: i as int,
            }),
        decreases num_remaining,
    {
        let ghost g0 = g;
        let (index, lowest) = scan(p, i, &min_val, &remaining, num_remaining, &mut path, &mut dist);
        proof {
            lemma_scan::<W>(s, g0, rec, cur_row as int, nr as int);
        }
        row_seen[i] = true;
        match lowest {
            None => {
                return None;
            },
            Some(d) => {
                min_val = d;
            },
        }
        proof {
            lemma_advanced::<W>(s, g0, rec, cur_row as int, nr as int);
            lemma_bounded_scan::<W>(s, g0, rec, cur_row as int, nr as int);
        }
        let j: usize = remaining[index];
        col_done[j] = true;
        match p.row4col[j] {
            None => {
                let r: Search<W> = Search { sink: j, min_val, path, dist, row_seen, col_done };
                proof {
                    let found = reached::<W>(s, g0)->0;
                    assert(!goes_on::<W>(s, g0));
                    lemma_nearest::<W>(s, g0, rec, cur_row as int, nr as int);
                    assert(r.end().sink == found.sink);
                    assert(r.end().min_val == found.min_val);
                    assert(r.end().dist =~= found.dist);
                    assert(r.end().row_seen =~= found.row_seen);
                    assert(r.end().col_done =~= found.col_done);
                    assert(goal == Some(r.end()));
                    assert(is_found(
                        r.end(),
                        recorded::<W>(s, g0, rec),
                        p.row4col@,
                        cur_row as int,
                        nr as int,
                        nc as int,
                    ));
                }
                return Some(r);
            },
            Some(next) => {
                i = next;
            },
        }
        num_remaining = num_remaining - 1;
        let last: usize = remaining[num_remaining];
        remaining[index] = last;
        proof {
            rec = recorded::<W>(s, g0, rec);
            g = advanced::<W>(s, g0);
        }
    }
}

} // verus!
