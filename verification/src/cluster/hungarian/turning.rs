//! Turning over the pairs along the path of a search.

use vstd::prelude::*;
use crate::cluster::hungarian::rule::{turned, Reached};
use crate::cluster::hungarian::search::{is_found, is_matched, tree_row, Record};

verus! {

/// The rows of the tree, but the first, are matched to its columns.
pub proof fn lemma_tree_rows<V>(
    r: Reached<V>,
    rec: Record,
    col4row: Seq<Option<usize>>,
    row4col: Seq<Option<usize>>,
    cur_row: int,
    nr: int,
    nc: int,
    t: int,
)
    requires
        is_matched(col4row, row4col, cur_row, nr, nc),
        is_found(r, rec, row4col, cur_row, nr, nc),
        nc <= usize::MAX,
        0 <= t < rec.rows.len(),
    ensures
        t == 0 ==> rec.rows[t] == cur_row,
        t > 0 ==> {
            &&& 0 <= rec.rows[t] < cur_row
            &&& col4row[rec.rows[t]] == Some(rec.order[t - 1] as usize)
            &&& row4col[rec.order[t - 1]] == Some(rec.rows[t] as usize)
        },
        r.row_seen[rec.rows[t]],
{
    assert(rec.rows[t] == tree_row(row4col, rec.order, cur_row, t));
    if t > 0 {
        assert(row4col[rec.order[t - 1]] is Some);
    }
}

/// A pair of the matching before the search, or one that the search found.
pub open spec fn is_pair<V>(
    r: Reached<V>,
    rec: Record,
    col0: Seq<Option<usize>>,
    row: int,
    c: int,
) -> bool {
    ||| col0[row] == Some(c as usize)
    ||| rec.order.contains(c) && r.path[c] == row
}

/// The pairs from the sink down to the column of rank `rank` are turned over; that
/// column `j` has lost its row.
pub open spec fn is_turning<V>(
    r: Reached<V>,
    rec: Record,
    col0: Seq<Option<usize>>,
    row0: Seq<Option<usize>>,
    cols: Seq<Option<usize>>,
    rows: Seq<Option<usize>>,
    cur_row: int,
    nr: int,
    nc: int,
    j: int,
    rank: int,
) -> bool {
    &&& 0 <= rank < rec.order.len()
    &&& j == rec.order[rank]
    &&& cols.len() == nr
    &&& rows.len() == nc
    &&& forall|i: int|
        0 <= i < cur_row ==> {
            &&& #[trigger] cols[i] is Some
            &&& cols[i]->0 < nc
            &&& cols[i]->0 != j
            &&& rows[cols[i]->0 as int] == Some(i as usize)
            &&& is_pair(r, rec, col0, i, cols[i]->0 as int)
        }
    &&& forall|i: int| cur_row <= i < nr ==> #[trigger] cols[i] is None
    &&& forall|c: int|
        0 <= c < nc && c != j && #[trigger] rows[c] is Some ==> {
            &&& rows[c]->0 < cur_row
            &&& cols[rows[c]->0 as int] == Some(c as usize)
        }
    &&& forall|c: int|
        0 <= c < nc && c != j && #[trigger] rows[c] is None ==> row0[c] is None && c != r.sink
    &&& forall|t: int|
        1 <= t <= rank ==> cols[#[trigger] rec.rows[t]] == Some(rec.order[t - 1] as usize)
}

/// The start.
pub proof fn lemma_turning_starts<V>(
    r: Reached<V>,
    rec: Record,
    col0: Seq<Option<usize>>,
    row0: Seq<Option<usize>>,
    cur_row: int,
    nr: int,
    nc: int,
)
    requires
        is_matched(col0, row0, cur_row, nr, nc),
        is_found(r, rec, row0, cur_row, nr, nc),
        nc <= usize::MAX,
    ensures
        is_turning(
            r,
            rec,
            col0,
            row0,
            col0,
            row0,
            cur_row,
            nr,
            nc,
            r.sink,
            rec.order.len() - 1,
        ),
{
    assert forall|t: int| 1 <= t <= rec.order.len() - 1 implies col0[#[trigger] rec.rows[t]] == Some(
        rec.order[t - 1] as usize,
    ) by {
        lemma_tree_rows(r, rec, col0, row0, cur_row, nr, nc, t);
    }
    assert forall|i: int| 0 <= i < cur_row implies {
        &&& #[trigger] col0[i] is Some
        &&& col0[i]->0 != r.sink
        &&& is_pair(r, rec, col0, i, col0[i]->0 as int)
    } by {
        assert(row0[col0[i]->0 as int] == Some(i as usize));
    }
}

/// One pair turned over: the end, or one column further.
pub proof fn lemma_turning_step<V>(
    r: Reached<V>,
    rec: Record,
    col0: Seq<Option<usize>>,
    row0: Seq<Option<usize>>,
    cols: Seq<Option<usize>>,
    rows: Seq<Option<usize>>,
    cur_row: int,
    nr: int,
    nc: int,
    j: int,
    rank: int,
)
    requires
        is_matched(col0, row0, cur_row, nr, nc),
        is_found(r, rec, row0, cur_row, nr, nc),
        0 <= cur_row < nr <= usize::MAX,
        nc <= usize::MAX,
        is_turning(r, rec, col0, row0, cols, rows, cur_row, nr, nc, j, rank),
    ensures
        ({
            let i = r.path[j] as int;
            let cols2 = cols.update(i, Some(j as usize));
            let rows2 = rows.update(j, Some(i as usize));
            &&& 0 <= j < nc
            &&& 0 <= i < nr
            &&& cols[i] is None ==> is_turned(r, rec, col0, row0, cols2, rows2, cur_row, nr, nc)
            &&& cols[i] is Some ==> rec.from[j] >= 1 && rec.from[j] <= rank && is_turning(
                r,
                rec,
                col0,
                row0,
                cols2,
                rows2,
                cur_row,
                nr,
                nc,
                cols[i]->0 as int,
                rec.from[j] - 1,
            )
        }),
{
    let i = r.path[j] as int;
    let t = rec.from[j];
    let cols2 = cols.update(i, Some(j as usize));
    let rows2 = rows.update(j, Some(i as usize));
    assert(r.dist[rec.order[rank]] is Some);
    assert(rec.from[rec.order[rank]] <= rank);
    lemma_tree_rows(r, rec, col0, row0, cur_row, nr, nc, t);
    assert(rec.order.contains(j));
    assert(is_pair(r, rec, col0, i, j));
    if cols[i] is None {
        assert(i == cur_row) by {
            if t > 0 {
                assert(cols[rec.rows[t]] is Some);
            }
        }
        assert forall|k: int| 0 <= k < cur_row + 1 implies {
            &&& #[trigger] cols2[k] is Some
            &&& cols2[k]->0 < nc
            &&& rows2[cols2[k]->0 as int] == Some(k as usize)
            &&& is_pair(r, rec, col0, k, cols2[k]->0 as int)
        } by {
            if k < cur_row {
                assert(cols[k] is Some);
            }
        }
        assert forall|c: int| 0 <= c < nc && #[trigger] rows2[c] is Some implies {
            &&& rows2[c]->0 < cur_row + 1
            &&& cols2[rows2[c]->0 as int] == Some(c as usize)
        } by {
            if c != j {
                assert(rows[c] is Some);
            }
        }
        assert forall|c: int| 0 <= c < nc && #[trigger] rows2[c] is None implies row0[c] is None && c
            != r.sink by {
            assert(c != j);
            assert(rows[c] is None);
        }
        assert forall|k: int| cur_row + 1 <= k < nr implies #[trigger] cols2[k] is None by {
            assert(cols[k] is None);
        }
    } else {
        assert(t > 0);
        assert(cols[rec.rows[t]] == Some(rec.order[t - 1] as usize));
        let next = cols[i]->0 as int;
        assert(next == rec.order[t - 1]);
        assert(rows[next] == Some(i as usize));
        assert forall|k: int| 0 <= k < cur_row implies {
            &&& #[trigger] cols2[k] is Some
            &&& cols2[k]->0 < nc
            &&& cols2[k]->0 != next
            &&& rows2[cols2[k]->0 as int] == Some(k as usize)
            &&& is_pair(r, rec, col0, k, cols2[k]->0 as int)
        } by {
            assert(cols[k] is Some);
            if k != i {
                assert(rows[cols[k]->0 as int] == Some(k as usize));
            }
        }
        assert forall|c: int| 0 <= c < nc && c != next && #[trigger] rows2[c] is Some implies {
            &&& rows2[c]->0 < cur_row
            &&& cols2[rows2[c]->0 as int] == Some(c as usize)
        } by {
            if c != j {
                assert(rows[c] is Some);
            }
        }
        assert forall|c: int| 0 <= c < nc && c != next && #[trigger] rows2[c] is None implies row0[c] is None
            && c != r.sink by {
            assert(c != j);
            assert(rows[c] is None);
        }
        assert forall|k: int| cur_row <= k < nr implies #[trigger] cols2[k] is None by {
            assert(cols[k] is None);
        }
        assert forall|a: int| 1 <= a <= t - 1 implies cols2[#[trigger] rec.rows[a]] == Some(
            rec.order[a - 1] as usize,
        ) by {
            lemma_tree_rows(r, rec, col0, row0, cur_row, nr, nc, a);
            assert(rec.order[a - 1] != rec.order[t - 1]);
            assert(rec.rows[a] != i);
        }
    }
}

/// All pairs along the path are turned over.
pub open spec fn is_turned<V>(
    r: Reached<V>,
    rec: Record,
    col0: Seq<Option<usize>>,
    row0: Seq<Option<usize>>,
    cols: Seq<Option<usize>>,
    rows: Seq<Option<usize>>,
    cur_row: int,
    nr: int,
    nc: int,
) -> bool {
    &&& is_matched(cols, rows, cur_row + 1, nr, nc)
    &&& forall|i: int|
        0 <= i < cur_row + 1 ==> is_pair(r, rec, col0, i, (#[trigger] cols[i])->0 as int)
    &&& forall|c: int|
        0 <= c < nc && #[trigger] rows[c] is None ==> row0[c] is None && c != r.sink
}

/// Turning over to the end.
pub proof fn lemma_turned<V>(
    r: Reached<V>,
    rec: Record,
    col0: Seq<Option<usize>>,
    row0: Seq<Option<usize>>,
    cols: Seq<Option<usize>>,
    rows: Seq<Option<usize>>,
    cur_row: int,
    nr: int,
    nc: int,
    j: int,
    rank: int,
    steps: nat,
)
    requires
        is_matched(col0, row0, cur_row, nr, nc),
        is_found(r, rec, row0, cur_row, nr, nc),
        0 <= cur_row < nr <= usize::MAX,
        nc <= usize::MAX,
        is_turning(r, rec, col0, row0, cols, rows, cur_row, nr, nc, j, rank),
        rank <= steps,
    ensures
        ({
            let end = turned(cols, rows, r.path, j, steps);
            is_turned(r, rec, col0, row0, end.0, end.1, cur_row, nr, nc)
        }),
    decreases steps,
{
    lemma_turning_step(r, rec, col0, row0, cols, rows, cur_row, nr, nc, j, rank);
    let i = r.path[j] as int;
    if cols[i] is Some {
        lemma_turned(
            r,
            rec,
            col0,
            row0,
            cols.update(i, Some(j as usize)),
            rows.update(j, Some(i as usize)),
            cur_row,
            nr,
            nc,
            cols[i]->0 as int,
            rec.from[j] - 1,
            (steps - 1) as nat,
        );
    }
}

/// Turns over the pairs along the path to column `sink`.
pub fn augment<V>(
    path: &Vec<usize>,
    sink: usize,
    col4row: &mut Vec<Option<usize>>,
    row4col: &mut Vec<Option<usize>>,
    Ghost(r): Ghost<Reached<V>>,
    Ghost(rec): Ghost<Record>,
    Ghost(cur_row): Ghost<int>,
)
    requires
        is_matched(
            old(col4row)@,
            old(row4col)@,
            cur_row,
            old(col4row).len() as int,
            old(row4col).len() as int,
        ),
        is_found(
            r,
            rec,
            old(row4col)@,
            cur_row,
            old(col4row).len() as int,
            old(row4col).len() as int,
        ),
        0 <= cur_row < old(col4row).len(),
        path@ == r.path,
        sink == r.sink,
    ensures
        (final(col4row)@, final(row4col)@) == turned(
            old(col4row)@,
            old(row4col)@,
            path@,
            sink as int,
            old(row4col)@.len(),
        ),
        is_turned(
            r,
            rec,
            old(col4row)@,
            old(row4col)@,
            final(col4row)@,
            final(row4col)@,
            cur_row,
            old(col4row).len() as int,
            old(row4col).len() as int,
        ),
{
    let ghost col0 = col4row@;
    let ghost row0 = row4col@;
    let ghost nr = col4row.len() as int;
    let ghost nc = row4col.len() as int;
    let ghost goal = turned(col0, row0, path@, sink as int, nc as nat);
    let ghost mut steps: nat = nc as nat;
    let ghost mut rank: int = rec.order.len() - 1;
    let mut j: usize = sink;
    proof {
        lemma_turning_starts(r, rec, col0, row0, cur_row, nr, nc);
    }
    loop
        invariant
            0 <= cur_row < nr <= usize::MAX,
            nc <= usize::MAX,
            nr == old(col4row).len(),
            nc == old(row4col).len(),
            col0 == old(col4row)@,
            row0 == old(row4col)@,
            is_matched(col0, row0, cur_row, nr, nc),
            is_found(r, rec, row0, cur_row, nr, nc),
            path@ == r.path,
            is_turning(
                r,
                rec,
                col0,
                row0,
                col4row@,
                row4col@,
                cur_row,
                nr,
                nc,
                j as int,
                rank,
            ),
            rank <= steps,
            goal == turned(col0, row0, path@, sink as int, nc as nat),
            goal == turned(col4row@, row4col@, path@, j as int, steps),
        decreases rank,
    {
        let ghost cols = col4row@;
        let ghost rows = row4col@;
        proof {
            lemma_turning_step(r, rec, col0, row0, cols, rows, cur_row, nr, nc, j as int, rank);
        }
        let i: usize = path[j];
        row4col[j] = Some(i);
        let prev: Option<usize> = col4row[i];
        col4row[i] = Some(j);
        proof {
            assert(col4row@ =~= cols.update(i as int, Some(j)));
            assert(row4col@ =~= rows.update(j as int, Some(i)));
        }
        match prev {
            None => {
                proof {
                    assert(turned(cols, rows, path@, j as int, steps) == (col4row@, row4col@));
                }
                return;
            },
            Some(next) => {
                proof {
                    rank = rec.from[j as int] - 1;
                    steps = (steps - 1) as nat;
                }
                j = next;
            },
        }
    }
}

} // verus!
