//! What a search reaches: a nearest free column, with a path back to its row.

use vstd::prelude::*;
use crate::cluster::hungarian::rule::{advanced, goes_on, reached, scan_of, scanned, started, through, Growth, Reached, Setting};
use crate::cluster::hungarian::search::{is_found, is_growing, is_partial, is_untouched, is_worklist, lemma_advanced, lemma_scan, lemma_scanned, lemma_started, recorded, tree_row, Record};
use crate::cluster::hungarian::weight::Weight;

verus! {

/// Every known distance is less than infinity.
pub open spec fn are_bounded<W: Weight>(dist: Seq<Option<W::V>>) -> bool {
    forall|j: int| 0 <= j < dist.len() && (#[trigger] dist[j]) is Some ==> W::bounded(dist[j]->0)
}

/// From column `j`, going to the row before it and on to a column matched to that
/// row, and so on, leads to row `cur_row` with at most `steps` columns in between.
pub open spec fn leads_back(
    path: Seq<usize>,
    row4col: Seq<Option<usize>>,
    cur_row: int,
    j: int,
    steps: nat,
) -> bool
    decreases steps,
{
    ||| path[j] == cur_row
    ||| steps > 0 && exists|k: int|
        0 <= k < row4col.len() && #[trigger] row4col[k] == Some(path[j]) && leads_back(
            path,
            row4col,
            cur_row,
            k,
            (steps - 1) as nat,
        )
}

/// A search from row `cur_row` reached a free column, in the tree as is that row; no
/// column outside the tree is nearer, and the path leads back to the row.
pub open spec fn is_nearest<W: Weight>(
    r: Reached<W::V>,
    row4col: Seq<Option<usize>>,
    cur_row: int,
    nr: int,
    nc: int,
) -> bool {
    &&& r.dist.len() == nc
    &&& r.path.len() == nc
    &&& r.col_done.len() == nc
    &&& r.row_seen.len() == nr
    &&& 0 <= r.sink < nc
    &&& row4col[r.sink] is None
    &&& r.col_done[r.sink]
    &&& r.row_seen[cur_row]
    &&& r.dist[r.sink] == Some(r.min_val)
    &&& are_bounded::<W>(r.dist)
    &&& forall|q: int|
        0 <= q < nc && !r.col_done[q] && (#[trigger] r.dist[q]) is Some ==> W::less(
            r.min_val,
            r.dist[q]->0,
        ) || W::same(r.min_val, r.dist[q]->0)
    &&& leads_back(r.path, row4col, cur_row, r.sink, nc as nat)
}

/// The nearest column of a scan is no farther than the others.
proof fn lemma_lowest_known<W: Weight>(
    s: Setting<W::V>,
    i: int,
    min_val: W::V,
    remaining: Seq<usize>,
    num: int,
    col_done: Seq<bool>,
    dist0: Seq<Option<W::V>>,
    path0: Seq<usize>,
    n: nat,
)
    requires
        is_worklist(remaining, num, col_done, s.nc),
        n <= num,
        dist0.len() == s.nc,
        path0.len() == s.nc,
        0 <= i <= usize::MAX,
        are_bounded::<W>(dist0),
    ensures
        ({
            let scan = scanned::<W>(s, i, min_val, remaining, dist0, path0, n);
            &&& scan.dist.len() == s.nc
            &&& are_bounded::<W>(scan.dist)
            &&& scan.lowest is Some ==> W::bounded(scan.lowest->0)
            &&& forall|a: int|
                0 <= a < n && scan.dist[#[trigger] remaining[a] as int] is Some ==> {
                    &&& scan.lowest is Some
                    &&& !W::less(scan.dist[remaining[a] as int]->0, scan.lowest->0)
                }
        }),
    decreases n,
{
    if n > 0 {
        let m = (n - 1) as nat;
        lemma_lowest_known::<W>(s, i, min_val, remaining, num, col_done, dist0, path0, m);
        lemma_scanned::<W>(s, i, min_val, remaining, num, col_done, dist0, path0, m);
        lemma_scanned::<W>(s, i, min_val, remaining, num, col_done, dist0, path0, n);
        let before = scanned::<W>(s, i, min_val, remaining, dist0, path0, m);
        let scan = scanned::<W>(s, i, min_val, remaining, dist0, path0, n);
        let j = remaining[m as int] as int;
        assert(is_untouched(remaining, m as int, j));
        let here = through::<W>(s, i, min_val, j);
        if before.dist[j] is Some {
            W::lemma_bounded(here, before.dist[j]->0, here);
        }
        let d = scan.dist[j];
        assert(d is Some ==> W::bounded(d->0));
        assert(forall|k: int| 0 <= k < s.nc && k != j ==> scan.dist[k] == before.dist[k]);
        assert forall|k: int| 0 <= k < s.nc && (#[trigger] scan.dist[k]) is Some implies W::bounded(
            scan.dist[k]->0,
        ) by {
            if k != j {
                assert(before.dist[k] is Some);
            }
        }
        if d is Some {
            W::lemma_bounded(d->0, d->0, d->0);
            if before.lowest is Some {
                W::lemma_bounded(d->0, before.lowest->0, d->0);
            }
        }
        assert forall|a: int|
            0 <= a < n && scan.dist[#[trigger] remaining[a] as int] is Some implies {
            &&& scan.lowest is Some
            &&& !W::less(scan.dist[remaining[a] as int]->0, scan.lowest->0)
        } by {
            if a < m {
                assert(remaining[a] != remaining[m as int]);
                let k = remaining[a] as int;
                assert(scan.dist[k] == before.dist[k]);
                if d is Some {
                    W::lemma_bounded(d->0, before.lowest->0, scan.dist[k]->0);
                }
            }
        }
    }
}

/// A scan keeps the known distances less than infinity.
pub proof fn lemma_bounded_scan<W: Weight>(
    s: Setting<W::V>,
    g: Growth<W::V>,
    rec: Record,
    cur_row: int,
    nr: int,
)
    requires
        is_growing(g, rec, s.row4col, cur_row, nr, s.nc),
        nr <= usize::MAX,
        are_bounded::<W>(g.dist),
    ensures
        are_bounded::<W>(scan_of::<W>(s, g).dist),
{
    lemma_lowest_known::<W>(
        s,
        g.row,
        g.min_val,
        g.remaining,
        g.open as int,
        g.col_done,
        g.dist,
        g.path,
        g.open,
    );
}

/// The path of each column of the tree leads back to the row of the search.
proof fn lemma_leads_back<V>(
    r: Reached<V>,
    rec: Record,
    row4col: Seq<Option<usize>>,
    cur_row: int,
    nr: int,
    nc: int,
    t: int,
    steps: nat,
)
    requires
        is_found(r, rec, row4col, cur_row, nr, nc),
        row4col.len() == nc,
        0 <= t < rec.order.len(),
        t <= steps,
    ensures
        leads_back(r.path, row4col, cur_row, rec.order[t], steps),
    decreases steps,
{
    let j = rec.order[t];
    let f = rec.from[j];
    assert(r.dist[rec.order[t]] is Some);
    assert(rec.rows[f] == tree_row(row4col, rec.order, cur_row, f));
    if f > 0 {
        let k = rec.order[f - 1];
        assert(row4col[rec.order[f - 1]] is Some);
        lemma_leads_back(r, rec, row4col, cur_row, nr, nc, f - 1, (steps - 1) as nat);
        assert(row4col[k] == Some(r.path[j]));
    }
}

/// A search that ends has reached a nearest free column.
pub proof fn lemma_nearest<W: Weight>(
    s: Setting<W::V>,
    g: Growth<W::V>,
    rec: Record,
    cur_row: int,
    nr: int,
)
    requires
        is_growing(g, rec, s.row4col, cur_row, nr, s.nc),
        is_partial(s.row4col, cur_row, nr, s.nc),
        0 <= cur_row < nr <= usize::MAX,
        are_bounded::<W>(g.dist),
        scan_of::<W>(s, g).lowest is Some,
        !goes_on::<W>(s, g),
    ensures
        reached::<W>(s, g) is Some,
        is_nearest::<W>(reached::<W>(s, g)->0, s.row4col, cur_row, nr, s.nc),
{
    lemma_advanced::<W>(s, g, rec, cur_row, nr);
    lemma_scan::<W>(s, g, rec, cur_row, nr);
    lemma_lowest_known::<W>(
        s,
        g.row,
        g.min_val,
        g.remaining,
        g.open as int,
        g.col_done,
        g.dist,
        g.path,
        g.open,
    );
    let r = reached::<W>(s, g)->0;
    let end = recorded::<W>(s, g, rec);
    lemma_leads_back(
        r,
        end,
        s.row4col,
        cur_row,
        nr,
        s.nc,
        end.order.len() - 1,
        s.nc as nat,
    );
    assert(end.rows[0] == tree_row(s.row4col, end.order, cur_row, 0));
    assert forall|q: int| 0 <= q < s.nc && !r.col_done[q] && (#[trigger] r.dist[q]) is Some implies
        W::less(r.min_val, r.dist[q]->0) || W::same(r.min_val, r.dist[q]->0) by {
        assert(!g.col_done[q]);
        let a = choose|a: int| 0 <= a < g.open && #[trigger] g.remaining[a] == q;
        assert(r.dist[g.remaining[a] as int] is Some);
        W::lemma_bounded(r.min_val, r.dist[q]->0, r.min_val);
    }
}

/// Column `free` is free and at a distance less than infinity from row `row` itself.
pub open spec fn is_within_reach<W: Weight>(s: Setting<W::V>, row: int, free: int) -> bool {
    &&& 0 <= free < s.nc
    &&& s.row4col[free] is None
    &&& W::bounded(through::<W>(s, row, W::nothing(), free))
}

/// Free column `free` is known to the search, or will be after the next scan.
pub open spec fn is_in_sight<W: Weight>(s: Setting<W::V>, g: Growth<W::V>, free: int) -> bool {
    &&& 0 <= free < s.nc
    &&& s.row4col[free] is None
    &&& g.dist[free] is Some || W::bounded(through::<W>(s, g.row, g.min_val, free))
}

/// A search with a free column in sight reaches a column.
pub proof fn lemma_reaches<W: Weight>(
    s: Setting<W::V>,
    g: Growth<W::V>,
    rec: Record,
    cur_row: int,
    nr: int,
    free: int,
) -> (end: Record)
    requires
        is_growing(g, rec, s.row4col, cur_row, nr, s.nc),
        is_partial(s.row4col, cur_row, nr, s.nc),
        0 <= cur_row < nr <= usize::MAX,
        is_in_sight::<W>(s, g, free),
    ensures
        reached::<W>(s, g) is Some,
        is_found(reached::<W>(s, g)->0, end, s.row4col, cur_row, nr, s.nc),
    decreases g.open,
{
    lemma_scan::<W>(s, g, rec, cur_row, nr);
    let scan = scan_of::<W>(s, g);
    assert(!g.col_done[free]) by {
        if g.col_done[free] {
            assert(rec.order.contains(free));
            let a = choose|a: int| 0 <= a < rec.order.len() && rec.order[a] == free;
            assert(s.row4col[rec.order[a]] is Some);
        }
    }
    assert(scan.dist[free] is Some);
    lemma_advanced::<W>(s, g, rec, cur_row, nr);
    let next = recorded::<W>(s, g, rec);
    if goes_on::<W>(s, g) {
        lemma_reaches::<W>(s, advanced::<W>(s, g), next, cur_row, nr, free)
    } else {
        next
    }
}

/// A search from a row with a free column within reach reaches a column.
pub proof fn lemma_within_reach<W: Weight>(
    s: Setting<W::V>,
    row: int,
    nr: int,
    free: int,
) -> (end: Record)
    requires
        is_partial(s.row4col, row, nr, s.nc),
        0 <= row < nr <= usize::MAX,
        s.nc <= usize::MAX,
        is_within_reach::<W>(s, row, free),
    ensures
        reached::<W>(s, started::<W>(nr, s.nc, row)) is Some,
        is_found(
            reached::<W>(s, started::<W>(nr, s.nc, row))->0,
            end,
            s.row4col,
            row,
            nr,
            s.nc,
        ),
{
    lemma_started::<W>(s.row4col, row, nr, s.nc);
    let rec = Record {
        order: Seq::empty(),
        rows: Seq::empty(),
        from: Seq::new(s.nc as nat, |j: int| 0),
    };
    lemma_reaches::<W>(s, started::<W>(nr, s.nc, row), rec, row, nr, free)
}

} // verus!
