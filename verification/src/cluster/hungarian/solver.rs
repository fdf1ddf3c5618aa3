//! The solver: a search and an augmentation per row.

use vstd::prelude::*;
use crate::cluster::hungarian::assignment::positions;
use crate::cluster::hungarian::rule::{grown, lowered, matching, raised, search_in, solution, Matching};
use crate::cluster::hungarian::search::{augmenting_path, has_record, is_found, is_matched, lemma_matched_is_partial, Problem, Record, Search};
use crate::cluster::hungarian::sums::is_selection;
use crate::cluster::hungarian::turning::{augment, lemma_tree_rows};
use crate::cluster::hungarian::weight::{distance, views, Weight};

verus! {

/// Raises the dual variables of the rows of the tree.
fn raise_rows<W: Weight>(
    u: &mut Vec<W>,
    col4row: &Vec<Option<usize>>,
    cur_row: usize,
    s: &Search<W>,
    Ghost(row4col): Ghost<Seq<Option<usize>>>,
)
    requires
        is_matched(
            col4row@,
            row4col,
            cur_row as int,
            old(u).len() as int,
            s.dist.len() as int,
        ),
        has_record(s.end(), row4col, cur_row as int, old(u).len() as int, s.dist.len() as int),
        cur_row < old(u).len(),
    ensures
        views(final(u)@) == Seq::new(
            old(u)@.len(),
            |i: int|
                raised::<W>(s.end(), views(old(u)@)[i], col4row@, cur_row as int, i),
        ),
{
    let ghost u0 = views(u@);
    let ghost nr = u.len() as int;
    let ghost nc = s.dist.len() as int;
    let ghost end = s.end();
    let ghost rec = choose|rec: Record| #[trigger]
        is_found(end, rec, row4col, cur_row as int, nr, nc);
    let rows: usize = u.len();
    let mut i: usize = 0;
    while i < rows
        invariant
            i <= rows,
            rows == u.len(),
            nr == rows,
            nc == s.dist.len(),
            end == s.end(),
            cur_row < rows,
            u0.len() == nr,
            is_matched(col4row@, row4col, cur_row as int, nr, nc),
            is_found(end, rec, row4col, cur_row as int, nr, nc),
            forall|k: int|
                0 <= k < i ==> #[trigger] u@[k]@ == raised::<W>(
                    end,
                    u0[k],
                    col4row@,
                    cur_row as int,
                    k,
                ),
            forall|k: int| i <= k < nr ==> #[trigger] u@[k]@ == u0[k],
        decreases rows - i,
    {
        if i == cur_row {
            let next: W = u[i].plus(&s.min_val);
            u[i] = next;
        } else if s.row_seen[i] {
            proof {
                assert(rec.rows.contains(i as int));
                let t = choose|t: int| 0 <= t < rec.rows.len() && rec.rows[t] == i;
                lemma_tree_rows(end, rec, col4row@, row4col, cur_row as int, nr, nc, t);
                assert(end.dist[rec.order[t - 1]] is Some);
            }
            if let Some(j) = col4row[i] {
                proof {
                    assert(end.dist[j as int] == distance(s.dist@[j as int]));
                }
                if let Some(d) = &s.dist[j] {
                    let next: W = u[i].plus(&s.min_val.minus(d));
                    u[i] = next;
                }
            }
        }
        i = i + 1;
    }
    proof {
        assert(views(u@) =~= Seq::new(
            u0.len(),
            |i: int| raised::<W>(end, u0[i], col4row@, cur_row as int, i),
        ));
    }
}

/// Lowers the dual variables of the columns of the tree.
fn lower_columns<W: Weight>(
    v: &mut Vec<W>,
    s: &Search<W>,
    Ghost(row4col): Ghost<Seq<Option<usize>>>,
    Ghost(cur_row): Ghost<int>,
    Ghost(nr): Ghost<int>,
)
    requires
        has_record(s.end(), row4col, cur_row, nr, old(v).len() as int),
    ensures
        views(final(v)@) == Seq::new(
            old(v)@.len(),
            |j: int| lowered::<W>(s.end(), views(old(v)@)[j], j),
        ),
{
    let ghost v0 = views(v@);
    let ghost nc = v.len() as int;
    let ghost end = s.end();
    let ghost rec = choose|rec: Record| #[trigger] is_found(end, rec, row4col, cur_row, nr, nc);
    let columns: usize = v.len();
    let mut j: usize = 0;
    proof {
        assert forall|k: int| 0 <= k < nc && #[trigger] s.col_done@[k] implies s.dist@[k] is Some by {
            assert(rec.order.contains(k));
            let t = choose|t: int| 0 <= t < rec.order.len() && rec.order[t] == k;
            assert(end.dist[rec.order[t]] is Some);
            assert(end.dist[k] == distance(s.dist@[k]));
        }
    }
    while j < columns
        invariant
            j <= columns,
            columns == v.len(),
            nc == columns,
            end == s.end(),
            v0.len() == nc,
            s.dist.len() == nc,
            s.col_done.len() == nc,
            forall|k: int| 0 <= k < nc && #[trigger] s.col_done@[k] ==> s.dist@[k] is Some,
            forall|k: int| 0 <= k < j ==> #[trigger] v@[k]@ == lowered::<W>(end, v0[k], k),
            forall|k: int| j <= k < nc ==> #[trigger] v@[k]@ == v0[k],
        decreases columns - j,
    {
        if s.col_done[j] {
            proof {
                assert(end.dist[j as int] == distance(s.dist@[j as int]));
            }
            if let Some(d) = &s.dist[j] {
                let next: W = v[j].minus(&s.min_val.minus(d));
                v[j] = next;
            }
        }
        j = j + 1;
    }
    proof {
        assert(views(v@) =~= Seq::new(v0.len(), |j: int| lowered::<W>(end, v0[j], j)));
    }
}

/// Matches every row of a matrix to a column of its own by the rule; `None` where a
/// search finds no column.
pub fn solve<W: Weight>(nr: usize, nc: usize, cost: &Vec<W>) -> (r: Option<Vec<usize>>)
    requires
        cost.len() == nr * nc,
    ensures
        match solution::<W>(views(cost@), nr as int, nc as int) {
            None => r is None,
            Some(cols) => r is Some && r->0@ == cols && cols.len() == nr && is_selection(
                positions(cols),
                nc as int,
            ),
        },
{
    let size: usize = cost.len();
    let mut u: Vec<W> = Vec::with_capacity(nr);
    while u.len() < nr
        invariant
            u.len() <= nr,
            forall|i: int| 0 <= i < u.len() ==> #[trigger] u@[i]@ == W::nothing(),
        decreases nr - u.len(),
    {
        u.push(W::make_nothing());
    }
    let mut v: Vec<W> = Vec::with_capacity(nc);
    while v.len() < nc
        invariant
            v.len() <= nc,
            forall|i: int| 0 <= i < v.len() ==> #[trigger] v@[i]@ == W::nothing(),
        decreases nc - v.len(),
    {
        v.push(W::make_nothing());
    }
    let mut col4row: Vec<Option<usize>> = vec![None; nr];
    let mut row4col: Vec<Option<usize>> = vec![None; nc];
    let ghost costs = views(cost@);
    proof {
        let m = matching::<W>(costs, nr as int, nc as int, 0)->0;
        assert(m.u =~= views(u@));
        assert(m.v =~= views(v@));
        assert(m.col4row =~= col4row@);
        assert(m.row4col =~= row4col@);
    }
    let mut cur_row: usize = 0;
    while cur_row < nr
        invariant
            cur_row <= nr,
            costs == views(cost@),
            cost.len() == nr * nc,
            cost.len() <= usize::MAX,
            u.len() == nr,
            v.len() == nc,
            is_matched(col4row@, row4col@, cur_row as int, nr as int, nc as int),
            matching::<W>(costs, nr as int, nc as int, cur_row as nat) == Some(
                Matching {
                    u: views(u@),
                    v: views(v@),
                    col4row: col4row@,
                    row4col: row4col@,
                },
            ),
        decreases nr - cur_row,
    {
        let ghost m = Matching {
            u: views(u@),
            v: views(v@),
            col4row: col4row@,
            row4col: row4col@,
        };
        proof {
            lemma_matched_is_partial(
                col4row@,
                row4col@,
                cur_row as int,
                nr as int,
                nc as int,
            );
        }
        let found: Option<Search<W>> = {
            let p: Problem<W> = Problem { nr, nc, cost, u: &u, v: &v, row4col: &row4col };
            augmenting_path(&p, cur_row)
        };
        match found {
            None => {
                proof {
                    lemma_failed::<W>(
                        costs,
                        nr as int,
                        nc as int,
                        (cur_row + 1) as nat,
                        nr as nat,
                    );
                }
                return None;
            },
            Some(s) => {
                let ghost end = s.end();
                let ghost rec = choose|rec: Record| #[trigger]
                    is_found(end, rec, row4col@, cur_row as int, nr as int, nc as int);
                proof {
                    assert(end.dist.len() == nc);
                }
                raise_rows(&mut u, &col4row, cur_row, &s, Ghost(row4col@));
                lower_columns(&mut v, &s, Ghost(row4col@), Ghost(cur_row as int), Ghost(nr as int));
                augment::<W::V>(
                    &s.path,
                    s.sink,
                    &mut col4row,
                    &mut row4col,
                    Ghost(end),
                    Ghost(rec),
                    Ghost(cur_row as int),
                );
                proof {
                    assert(views(u@).len() == nr);
                    assert(views(v@).len() == nc);
                    let next = grown::<W>(nc as int, m, cur_row as int, end);
                    assert(next.u == views(u@));
                    assert(next.v == views(v@));
                    assert(search_in::<W>(costs, nr as int, nc as int, m, cur_row as int) == Some(
                        end,
                    ));
                    assert(matching::<W>(costs, nr as int, nc as int, (cur_row + 1) as nat)
                        == Some(next));
                }
            },
        }
        cur_row = cur_row + 1;
    }
    let mut cols: Vec<usize> = Vec::with_capacity(nr);
    while cols.len() < nr
        invariant
            cols.len() <= nr,
            is_matched(col4row@, row4col@, nr as int, nr as int, nc as int),
            forall|i: int| 0 <= i < cols.len() ==> col4row@[i] == Some(#[trigger] cols@[i]),
        decreases nr - cols.len(),
    {
        let i: usize = cols.len();
        proof {
            assert(col4row@[i as int] is Some);
        }
        if let Some(j) = col4row[i] {
            cols.push(j);
        }
    }
    proof {
        let all = solution::<W>(costs, nr as int, nc as int)->0;
        assert(cols@ =~= all);
        let c = positions(cols@);
        assert forall|a: int, b: int| 0 <= a < c.len() && 0 <= b < c.len() && a != b implies c[a]
            != c[b] by {
            assert(col4row@[a] == Some(cols@[a]));
            assert(col4row@[b] == Some(cols@[b]));
            assert(row4col@[col4row@[a]->0 as int] == Some(a as usize));
            assert(row4col@[col4row@[b]->0 as int] == Some(b as usize));
        }
        assert forall|k: int| 0 <= k < c.len() implies 0 <= #[trigger] c[k] < nc by {
            assert(col4row@[k] == Some(cols@[k]));
        }
    }
    Some(cols)
}

/// Once a search has failed there is no matching of more rows.
proof fn lemma_failed<W: Weight>(cost: Seq<W::V>, nr: int, nc: int, k: nat, n: nat)
    requires
        k <= n,
        matching::<W>(cost, nr, nc, k) is None,
    ensures
        matching::<W>(cost, nr, nc, n) is None,
    decreases n,
{
    if k < n {
        lemma_failed::<W>(cost, nr, nc, k, (n - 1) as nat);
    }
}

} // verus!
