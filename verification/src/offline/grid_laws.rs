//! How many columns the frame grid has.

use vstd::prelude::*;
use crate::cluster::hungarian::layout::{ChunkAssignment, MAX_SPEAKER_SLOTS};
use crate::offline::algo::{grid_clusters, largest_count, largest_in, largest_label};

verus! {

/// Some row holds the label `k`.
pub open spec fn has_label(rows: Seq<ChunkAssignment>, k: int) -> bool {
    exists|i: int, s: int|
        0 <= i < rows.len() && 0 <= s < MAX_SPEAKER_SLOTS && #[trigger] rows[i]@[s] == k
}

proof fn lemma_largest_in(row: ChunkAssignment, n: nat, before: int)
    requires
        n <= MAX_SPEAKER_SLOTS,
    ensures
        before <= largest_in(row, n, before),
        forall|s: int| 0 <= s < n ==> #[trigger] row@[s] <= largest_in(row, n, before),
        largest_in(row, n, before) == before || exists|s: int|
            0 <= s < n && #[trigger] row@[s] == largest_in(row, n, before),
    decreases n,
{
    if n > 0 {
        lemma_largest_in(row, (n - 1) as nat, before);
        assert(row@[n - 1] <= largest_in(row, n, before));
    }
}

proof fn lemma_largest_label(rows: Seq<ChunkAssignment>)
    ensures
        -1 <= largest_label(rows),
        forall|i: int, s: int|
            0 <= i < rows.len() && 0 <= s < MAX_SPEAKER_SLOTS ==> #[trigger] rows[i]@[s]
                <= largest_label(rows),
        largest_label(rows) == -1 || has_label(rows, largest_label(rows)),
    decreases rows.len(),
{
    if rows.len() > 0 {
        let before = rows.drop_last();
        let row = rows.last();
        let n = MAX_SPEAKER_SLOTS as nat;
        lemma_largest_label(before);
        let m = largest_label(before);
        lemma_largest_in(row, n, m);
        let r = largest_label(rows);
        assert forall|i: int, s: int|
            0 <= i < rows.len() && 0 <= s < MAX_SPEAKER_SLOTS implies #[trigger] rows[i]@[s] <= r by {
            if i < rows.len() - 1 {
                assert(before[i]@[s] <= m);
            } else {
                assert(row@[s] <= r);
            }
        }
        if r == m {
            if m != -1 {
                let (i, s) = choose|i: int, s: int|
                    0 <= i < before.len() && 0 <= s < MAX_SPEAKER_SLOTS && #[trigger] before[i]@[s]
                        == m;
                assert(rows[i]@[s] == r);
            }
        } else {
            let s = choose|s: int| 0 <= s < n && #[trigger] row@[s] == r;
            assert(rows[rows.len() - 1]@[s] == r);
        }
    }
}

proof fn lemma_largest_count(count: Seq<u8>)
    ensures
        0 <= largest_count(count),
        forall|t: int| 0 <= t < count.len() ==> #[trigger] count[t] <= largest_count(count),
        largest_count(count) == 0 || exists|t: int|
            0 <= t < count.len() && #[trigger] count[t] == largest_count(count),
    decreases count.len(),
{
    if count.len() > 0 {
        let before = count.drop_last();
        lemma_largest_count(before);
        let r = largest_count(count);
        assert forall|t: int| 0 <= t < count.len() implies #[trigger] count[t] <= r by {
            if t < count.len() - 1 {
                assert(before[t] <= largest_count(before));
            }
        }
        if r == largest_count(before) {
            if r != 0 {
                let t = choose|t: int| 0 <= t < before.len() && #[trigger] before[t] == r;
                assert(count[t] == r);
            }
        } else {
            assert(count[count.len() - 1] == r);
        }
    }
}

/// The frame grid has a column for every label and as many as every count, one at least,
/// and no more than that.
pub proof fn law_grid_is_just_wide_enough(rows: Seq<ChunkAssignment>, count: Seq<u8>)
    ensures
        1 <= grid_clusters(rows, count),
        forall|i: int, s: int|
            0 <= i < rows.len() && 0 <= s < MAX_SPEAKER_SLOTS ==> #[trigger] rows[i]@[s]
                < grid_clusters(rows, count),
        forall|t: int| 0 <= t < count.len() ==> #[trigger] count[t] <= grid_clusters(rows, count),
        grid_clusters(rows, count) == 1 || has_label(rows, grid_clusters(rows, count) - 1) || exists|
            t: int,
        | 0 <= t < count.len() && #[trigger] count[t] == grid_clusters(rows, count),
{
    lemma_largest_label(rows);
    lemma_largest_count(count);
    let g = grid_clusters(rows, count);
    assert forall|i: int, s: int|
        0 <= i < rows.len() && 0 <= s < MAX_SPEAKER_SLOTS implies #[trigger] rows[i]@[s] < g by {
        assert(rows[i]@[s] <= largest_label(rows));
    }
    assert forall|t: int| 0 <= t < count.len() implies #[trigger] count[t] <= g by {
        assert(count[t] <= largest_count(count));
    }
}

} // verus!
