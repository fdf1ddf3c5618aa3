//! The rule by which an assignment is found, and by which one of several equally
//! good ones is chosen.
//!
//! Rows are matched one after the other. A search looks at the open columns from
//! the highest down at first; a column that leaves the list has its place taken by
//! the last one. The nearest column is the first of the smallest distance, or the
//! last free one of that distance. All numbers are added up in the order written
//! here.

use vstd::prelude::*;
use crate::cluster::hungarian::weight::Weight;

verus! {

/// What does not change in a search.
pub ghost struct Setting<V> {
    pub cost: Seq<V>,
    pub nc: int,
    pub u: Seq<V>,
    pub v: Seq<V>,
    pub row4col: Seq<Option<usize>>,
}

/// The columns after some of them were looked at.
pub ghost struct Scan<V> {
    /// The distance of each column, `None` where no path to it is known.
    pub dist: Seq<Option<V>>,
    /// The row before each column.
    pub path: Seq<usize>,
    /// Position, in the list of open columns, of the nearest one.
    pub index: int,
    /// Its distance.
    pub lowest: Option<V>,
}

/// The distance of column `j` through row `i`, whose own distance is `min_val`: that
/// and the cost, less the dual variables.
pub open spec fn through<W: Weight>(s: Setting<W::V>, i: int, min_val: W::V, j: int) -> W::V {
    W::difference(
        W::difference(W::sum(min_val, s.cost[i * s.nc + j]), s.u[i]),
        s.v[j],
    )
}

/// `a` is nearer than `b`.
pub open spec fn nearer<W: Weight>(a: W::V, b: Option<W::V>) -> bool {
    match b {
        Some(d) => W::less(a, d),
        None => W::bounded(a),
    }
}

/// A column at distance `d` takes the place of the nearest one so far.
pub open spec fn replaces<W: Weight>(d: Option<W::V>, lowest: Option<W::V>, free: bool) -> bool {
    match d {
        Some(a) => match lowest {
            Some(b) => W::less(a, b) || (W::same(a, b) && free),
            None => true,
        },
        None => false,
    }
}

/// The columns after the first `n` of the list were looked at from row `i`, whose
/// distance is `min_val`.
pub open spec fn scanned<W: Weight>(
    s: Setting<W::V>,
    i: int,
    min_val: W::V,
    remaining: Seq<usize>,
    dist: Seq<Option<W::V>>,
    path: Seq<usize>,
    n: nat,
) -> Scan<W::V>
    decreases n,
{
    if n == 0 {
        Scan { dist, path, index: 0, lowest: None }
    } else {
        let before = scanned::<W>(s, i, min_val, remaining, dist, path, (n - 1) as nat);
        let j = remaining[n - 1] as int;
        let here = through::<W>(s, i, min_val, j);
        let better = nearer::<W>(here, before.dist[j]);
        let dist2 = if better { before.dist.update(j, Some(here)) } else { before.dist };
        let path2 = if better { before.path.update(j, i as usize) } else { before.path };
        if replaces::<W>(dist2[j], before.lowest, s.row4col[j] is None) {
            Scan { dist: dist2, path: path2, index: n - 1, lowest: dist2[j] }
        } else {
            Scan { dist: dist2, path: path2, index: before.index, lowest: before.lowest }
        }
    }
}

/// A search under way.
pub ghost struct Growth<V> {
    pub dist: Seq<Option<V>>,
    pub path: Seq<usize>,
    pub row_seen: Seq<bool>,
    pub col_done: Seq<bool>,
    /// The list of open columns; only the first `open` entries count.
    pub remaining: Seq<usize>,
    pub open: nat,
    /// The distance of the row that is looked at from.
    pub min_val: V,
    pub row: int,
}

/// The end of a search.
pub ghost struct Reached<V> {
    pub sink: int,
    pub min_val: V,
    pub dist: Seq<Option<V>>,
    pub path: Seq<usize>,
    pub row_seen: Seq<bool>,
    pub col_done: Seq<bool>,
}

/// What the open columns look like from the current row.
pub open spec fn scan_of<W: Weight>(s: Setting<W::V>, g: Growth<W::V>) -> Scan<W::V> {
    scanned::<W>(s, g.row, g.min_val, g.remaining, g.dist, g.path, g.open)
}

/// The nearest open column.
pub open spec fn column_of<W: Weight>(s: Setting<W::V>, g: Growth<W::V>) -> int {
    g.remaining[scan_of::<W>(s, g).index] as int
}

/// The search goes on: the nearest column is matched.
pub open spec fn goes_on<W: Weight>(s: Setting<W::V>, g: Growth<W::V>) -> bool {
    &&& g.open > 0
    &&& scan_of::<W>(s, g).lowest is Some
    &&& s.row4col[column_of::<W>(s, g)] is Some
}

/// The search with the nearest column taken in, from its row.
pub open spec fn advanced<W: Weight>(s: Setting<W::V>, g: Growth<W::V>) -> Growth<W::V> {
    let scan = scan_of::<W>(s, g);
    let j = column_of::<W>(s, g);
    Growth {
        dist: scan.dist,
        path: scan.path,
        row_seen: g.row_seen.update(g.row, true),
        col_done: g.col_done.update(j, true),
        remaining: g.remaining.update(scan.index, g.remaining[g.open - 1]),
        open: (g.open - 1) as nat,
        min_val: scan.lowest->0,
        row: s.row4col[j]->0 as int,
    }
}

/// The end of a search under way; `None` where no column can be reached.
pub open spec fn reached<W: Weight>(s: Setting<W::V>, g: Growth<W::V>) -> Option<Reached<W::V>>
    decreases g.open,
{
    let scan = scan_of::<W>(s, g);
    if goes_on::<W>(s, g) {
        reached::<W>(s, advanced::<W>(s, g))
    } else if g.open == 0 || scan.lowest is None {
        None
    } else {
        Some(
            Reached {
                sink: column_of::<W>(s, g),
                min_val: scan.lowest->0,
                dist: scan.dist,
                path: scan.path,
                row_seen: g.row_seen.update(g.row, true),
                col_done: g.col_done.update(column_of::<W>(s, g), true),
            },
        )
    }
}

/// The start of a search from row `i`.
pub open spec fn started<W: Weight>(nr: int, nc: int, i: int) -> Growth<W::V> {
    Growth {
        dist: Seq::new(nc as nat, |j: int| None),
        path: Seq::new(nc as nat, |j: int| 0usize),
        row_seen: Seq::new(nr as nat, |k: int| false),
        col_done: Seq::new(nc as nat, |j: int| false),
        remaining: Seq::new(nc as nat, |a: int| (nc - a - 1) as usize),
        open: nc as nat,
        min_val: W::nothing(),
        row: i,
    }
}

/// The dual variable of row `i` after a search.
pub open spec fn raised<W: Weight>(
    r: Reached<W::V>,
    u: W::V,
    col4row: Seq<Option<usize>>,
    cur_row: int,
    i: int,
) -> W::V {
    if i == cur_row {
        W::sum(u, r.min_val)
    } else if r.row_seen[i] {
        W::sum(u, W::difference(r.min_val, r.dist[col4row[i]->0 as int]->0))
    } else {
        u
    }
}

/// The dual variable of column `j` after a search.
pub open spec fn lowered<W: Weight>(r: Reached<W::V>, v: W::V, j: int) -> W::V {
    if r.col_done[j] {
        W::difference(v, W::difference(r.min_val, r.dist[j]->0))
    } else {
        v
    }
}

/// A matching of the first rows with its dual variables.
pub ghost struct Matching<V> {
    pub u: Seq<V>,
    pub v: Seq<V>,
    pub col4row: Seq<Option<usize>>,
    pub row4col: Seq<Option<usize>>,
}

/// The pairs along the path to column `j`, turned over.
pub open spec fn turned(
    col4row: Seq<Option<usize>>,
    row4col: Seq<Option<usize>>,
    path: Seq<usize>,
    j: int,
    steps: nat,
) -> (Seq<Option<usize>>, Seq<Option<usize>>)
    decreases steps,
{
    let i = path[j] as int;
    let cols = col4row.update(i, Some(j as usize));
    let rows = row4col.update(j, Some(i as usize));
    if steps == 0 || col4row[i] is None {
        (cols, rows)
    } else {
        turned(cols, rows, path, col4row[i]->0 as int, (steps - 1) as nat)
    }
}

/// What a search in a matching works on.
pub open spec fn setting_of<V>(cost: Seq<V>, nc: int, m: Matching<V>) -> Setting<V> {
    Setting { cost, nc, u: m.u, v: m.v, row4col: m.row4col }
}

/// What a search in a matching reaches.
pub open spec fn search_in<W: Weight>(
    cost: Seq<W::V>,
    nr: int,
    nc: int,
    m: Matching<W::V>,
    row: int,
) -> Option<Reached<W::V>> {
    reached::<W>(setting_of(cost, nc, m), started::<W>(nr, nc, row))
}

/// The matching with one more row, after a search.
pub open spec fn grown<W: Weight>(
    nc: int,
    m: Matching<W::V>,
    row: int,
    r: Reached<W::V>,
) -> Matching<W::V> {
    let pairs = turned(m.col4row, m.row4col, r.path, r.sink, nc as nat);
    Matching {
        u: Seq::new(m.u.len(), |i: int| raised::<W>(r, m.u[i], m.col4row, row, i)),
        v: Seq::new(m.v.len(), |j: int| lowered::<W>(r, m.v[j], j)),
        col4row: pairs.0,
        row4col: pairs.1,
    }
}

/// The matching of the first `k` rows; `None` where a search finds no column.
pub open spec fn matching<W: Weight>(
    cost: Seq<W::V>,
    nr: int,
    nc: int,
    k: nat,
) -> Option<Matching<W::V>>
    decreases k,
{
    if k == 0 {
        Some(
            Matching {
                u: Seq::new(nr as nat, |i: int| W::nothing()),
                v: Seq::new(nc as nat, |j: int| W::nothing()),
                col4row: Seq::new(nr as nat, |i: int| None),
                row4col: Seq::new(nc as nat, |j: int| None),
            },
        )
    } else {
        match matching::<W>(cost, nr, nc, (k - 1) as nat) {
            None => None,
            Some(m) => match search_in::<W>(cost, nr, nc, m, k - 1) {
                None => None,
                Some(r) => Some(grown::<W>(nc, m, k - 1, r)),
            },
        }
    }
}

/// The column of every row; `None` where a search finds no column.
pub open spec fn solution<W: Weight>(cost: Seq<W::V>, nr: int, nc: int) -> Option<Seq<usize>> {
    match matching::<W>(cost, nr, nc, nr as nat) {
        None => None,
        Some(m) => Some(Seq::new(nr as nat, |i: int| m.col4row[i]->0)),
    }
}

} // verus!
