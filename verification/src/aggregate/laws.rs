//! What holds of every aggregation.

use vstd::prelude::*;
use crate::aggregate::count::{active_speakers, all_finite, count_error, is_count, positive, start_frame, CountGrid, CountTensor};
use crate::aggregate::hamming::{hamming_error, is_cosine, is_hamming_aggregate, weighted_sum, window_angle};
use crate::cluster::hungarian::sums::{is_selection, lemma_index, lemma_picked_all, lemma_selection_is_full, picked, sum};
use crate::float::arith::Num;
use crate::float::close::{lemma_average_at_least, lemma_average_at_most, lemma_average_ordered};
use crate::float::order::{lemma_natural_exact, lemma_natural_ordered, lemma_over_ordered, lemma_rounded_ordered, lemma_saturated_ordered, lemma_times_ordered};
use crate::float::Double;
use crate::window::SlidingWindow;

verus! {

proof fn lemma_active_bounded(segmentations: Seq<Double>, onset: Double, base: int, n: nat)
    ensures
        active_speakers(segmentations, onset, base, n) <= n,
    decreases n,
{
    if n > 0 {
        lemma_active_bounded(segmentations, onset, base, (n - 1) as nat);
    }
}

proof fn lemma_total_bounded(grid: CountGrid, n: nat, t: int)
    ensures
        grid.total(n, t) <= grid.speakers * grid.coverage(n, t),
        grid.coverage(n, t) <= n,
    decreases n,
{
    if n > 0 {
        let c = (n - 1) as nat;
        lemma_total_bounded(grid, c, t);
        lemma_active_bounded(
            grid.segmentations,
            grid.onset,
            (c * grid.frames_per_chunk + grid.local(c, t)) * grid.speakers,
            grid.speakers,
        );
        let k = grid.coverage(c, t);
        assert(grid.speakers * (k + 1) == grid.speakers * k + grid.speakers) by (nonlinear_arith);
    } else {
        assert(grid.speakers * 0 == 0) by (nonlinear_arith);
    }
}

/// No frame counts more speakers than a chunk has, nor more than 255.
pub proof fn law_count_is_bounded(grid: CountGrid, num_chunks: nat, t: int)
    requires
        num_chunks <= u64::MAX,
    ensures
        grid.count_at(num_chunks, t) <= (if grid.speakers < 255 { grid.speakers } else { 255 }),
{
    let total = grid.total(num_chunks, t);
    let coverage = grid.coverage(num_chunks, t);
    lemma_total_bounded(grid, num_chunks, t);
    if coverage > 0 && grid.speakers < 255 {
        lemma_average_at_most(total, coverage, grid.speakers);
    }
}

/// The grid with another onset.
pub open spec fn with_onset(grid: CountGrid, onset: Double) -> CountGrid {
    CountGrid { onset, ..grid }
}

proof fn lemma_active_falls(segmentations: Seq<Double>, onset: Double, higher: Double, base: int, n: nat)
    requires
        onset.at_most(higher),
    ensures
        active_speakers(segmentations, higher, base, n) <= active_speakers(
            segmentations,
            onset,
            base,
            n,
        ),
    decreases n,
{
    if n > 0 {
        lemma_active_falls(segmentations, onset, higher, base, (n - 1) as nat);
    }
}

proof fn lemma_total_falls(grid: CountGrid, higher: Double, n: nat, t: int)
    requires
        grid.onset.at_most(higher),
    ensures
        with_onset(grid, higher).total(n, t) <= grid.total(n, t),
        with_onset(grid, higher).coverage(n, t) == grid.coverage(n, t),
    decreases n,
{
    if n > 0 {
        let c = (n - 1) as nat;
        lemma_total_falls(grid, higher, c, t);
        assert(with_onset(grid, higher).local(c, t) == grid.local(c, t));
        lemma_active_falls(
            grid.segmentations,
            grid.onset,
            higher,
            (c * grid.frames_per_chunk + grid.local(c, t)) * grid.speakers,
            grid.speakers,
        );
    }
}

/// No frame counts more speakers under a higher onset.
pub proof fn law_count_falls_with_onset(grid: CountGrid, higher: Double, num_chunks: nat, t: int)
    requires
        grid.onset.at_most(higher),
        num_chunks <= u64::MAX,
        num_chunks * grid.speakers <= u64::MAX,
    ensures
        with_onset(grid, higher).count_at(num_chunks, t) <= grid.count_at(num_chunks, t),
{
    let coverage = grid.coverage(num_chunks, t);
    let total = grid.total(num_chunks, t);
    lemma_total_falls(grid, higher, num_chunks, t);
    lemma_total_bounded(grid, num_chunks, t);
    if coverage > 0 {
        assert(total <= u64::MAX) by (nonlinear_arith)
            requires
                total <= grid.speakers * coverage,
                coverage <= num_chunks,
                num_chunks * grid.speakers <= u64::MAX,
        ;
        lemma_average_ordered(with_onset(grid, higher).total(num_chunks, t), total, coverage);
    }
}

/// Counting the same scores under a higher onset gives as many frames, none of which
/// counts more speakers.
pub proof fn law_counts_fall_with_onset(
    low: CountTensor,
    high: CountTensor,
    segmentations: Seq<Double>,
    num_chunks: nat,
    num_frames_per_chunk: nat,
    num_speakers: nat,
    onset: Double,
    higher: Double,
    chunks_sw: SlidingWindow,
    frames_sw: SlidingWindow,
)
    requires
        onset.at_most(higher),
        num_chunks <= u64::MAX,
        num_chunks * num_speakers <= u64::MAX,
        is_count(
            low,
            segmentations,
            num_chunks,
            num_frames_per_chunk,
            num_speakers,
            onset,
            chunks_sw,
            frames_sw,
        ),
        is_count(
            high,
            segmentations,
            num_chunks,
            num_frames_per_chunk,
            num_speakers,
            higher,
            chunks_sw,
            frames_sw,
        ),
    ensures
        high.counts().len() == low.counts().len(),
        forall|t: int|
            0 <= t < low.counts().len() ==> #[trigger] high.counts()[t] <= low.counts()[t],
{
    let grid = CountGrid {
        segmentations,
        frames_per_chunk: num_frames_per_chunk,
        speakers: num_speakers,
        onset,
        chunk_step: chunks_sw.stride(),
        frame_step: frames_sw.stride(),
    };
    assert forall|t: int| 0 <= t < low.counts().len() implies #[trigger] high.counts()[t]
        <= low.counts()[t] by {
        law_count_falls_with_onset(grid, higher, num_chunks, t);
        assert(low.counts()[t] == grid.count_at(num_chunks, t));
        assert(high.counts()[t] == with_onset(grid, higher).count_at(num_chunks, t));
    }
}

/// Where the score of speaker `s` in frame `f` of chunk `c` stands.
pub open spec fn score_index(c: int, f: int, s: int, frames: nat, speakers: nat) -> int {
    (c * frames + f) * speakers + s
}

/// `permuted` holds the scores of `segmentations`, the speakers of chunk `c` in the
/// order `orders[c]`.
pub open spec fn is_permuted(
    permuted: Seq<Double>,
    segmentations: Seq<Double>,
    orders: Seq<Seq<int>>,
    num_chunks: nat,
    frames: nat,
    speakers: nat,
) -> bool {
    &&& segmentations.len() == num_chunks * frames * speakers
    &&& permuted.len() == segmentations.len()
    &&& orders.len() == num_chunks
    &&& forall|c: int|
        0 <= c < num_chunks ==> (#[trigger] orders[c]).len() == speakers && is_selection(
            orders[c],
            speakers as int,
        )
    &&& forall|c: int, f: int, s: int|
        0 <= c < num_chunks && 0 <= f < frames && 0 <= s < speakers ==> permuted[
            #[trigger] score_index(c, f, s, frames, speakers)]
            == segmentations[score_index(c, f, orders[c][s], frames, speakers)]
}

/// One for each of `n` scores from `base` on that reaches the onset.
spec fn active_marks(segmentations: Seq<Double>, onset: Double, base: int, n: nat) -> Seq<int> {
    Seq::new(n, |s: int| if onset.at_most(segmentations[base + s]) { 1int } else { 0int })
}

proof fn lemma_active_is_sum(segmentations: Seq<Double>, onset: Double, base: int, n: nat)
    ensures
        active_speakers(segmentations, onset, base, n) == sum(
            active_marks(segmentations, onset, base, n),
        ),
    decreases n,
{
    if n > 0 {
        let m = (n - 1) as nat;
        lemma_active_is_sum(segmentations, onset, base, m);
        assert(active_marks(segmentations, onset, base, n).drop_last() =~= active_marks(
            segmentations,
            onset,
            base,
            m,
        ));
    }
}

/// The first `n` scores of a permuted frame, counted where they came from.
proof fn lemma_active_is_picked(
    permuted: Seq<Double>,
    segmentations: Seq<Double>,
    onset: Double,
    base: int,
    order: Seq<int>,
    speakers: nat,
    n: nat,
)
    requires
        n <= order.len() == speakers,
        is_selection(order, speakers as int),
        forall|s: int|
            0 <= s < speakers ==> permuted[base + s] == segmentations[base + #[trigger] order[s]],
    ensures
        active_speakers(permuted, onset, base, n) == picked(
            active_marks(segmentations, onset, base, speakers),
            order.take(n as int),
        ),
    decreases n,
{
    if n > 0 {
        let m = (n - 1) as nat;
        lemma_active_is_picked(permuted, segmentations, onset, base, order, speakers, m);
        let at = order.take(n as int);
        assert(at.drop_last() =~= order.take(m as int));
        assert(at.last() == order[m as int]);
        assert(0 <= order[m as int] < speakers);
        assert(permuted[base + m] == segmentations[base + order[m as int]]);
    }
}

proof fn lemma_active_permuted(
    permuted: Seq<Double>,
    segmentations: Seq<Double>,
    onset: Double,
    base: int,
    order: Seq<int>,
    speakers: nat,
)
    requires
        order.len() == speakers,
        is_selection(order, speakers as int),
        forall|s: int|
            0 <= s < speakers ==> permuted[base + s] == segmentations[base + #[trigger] order[s]],
    ensures
        active_speakers(permuted, onset, base, speakers) == active_speakers(
            segmentations,
            onset,
            base,
            speakers,
        ),
{
    let marks = active_marks(segmentations, onset, base, speakers);
    lemma_active_is_sum(segmentations, onset, base, speakers);
    lemma_active_is_picked(permuted, segmentations, onset, base, order, speakers, speakers);
    assert(order.take(speakers as int) =~= order);
    lemma_selection_is_full(order, speakers as int);
    assert forall|s: int| 0 <= s < marks.len() && !order.contains(s) implies #[trigger] marks[s] == 0 by {
        assert(order.contains(s));
    }
    lemma_picked_all(marks, order);
}

proof fn lemma_total_permuted(
    grid: CountGrid,
    permuted: Seq<Double>,
    orders: Seq<Seq<int>>,
    num_chunks: nat,
    n: nat,
    t: int,
)
    requires
        is_permuted(
            permuted,
            grid.segmentations,
            orders,
            num_chunks,
            grid.frames_per_chunk,
            grid.speakers,
        ),
        n <= num_chunks,
    ensures
        (CountGrid { segmentations: permuted, ..grid }).total(n, t) == grid.total(n, t),
        (CountGrid { segmentations: permuted, ..grid }).coverage(n, t) == grid.coverage(n, t),
    decreases n,
{
    let other = CountGrid { segmentations: permuted, ..grid };
    if n > 0 {
        let c = (n - 1) as nat;
        lemma_total_permuted(grid, permuted, orders, num_chunks, c, t);
        assert(other.local(c, t) == grid.local(c, t));
        if grid.covers(c, t) {
            let f = grid.local(c, t);
            let base = (c * grid.frames_per_chunk + f) * grid.speakers;
            let order = orders[c as int];
            assert forall|s: int| 0 <= s < grid.speakers implies permuted[base + s]
                == grid.segmentations[base + #[trigger] order[s]] by {
                let k = score_index(c as int, f, s, grid.frames_per_chunk, grid.speakers);
                assert(k == base + s);
            }
            lemma_active_permuted(
                permuted,
                grid.segmentations,
                grid.onset,
                base,
                order,
                grid.speakers,
            );
        }
    }
}

/// Position `t` is that of some score.
proof fn lemma_score_index(t: int, num_chunks: nat, frames: nat, speakers: nat) -> (r: (int, int, int))
    requires
        0 <= t < num_chunks * frames * speakers,
    ensures
        0 <= r.0 < num_chunks,
        0 <= r.1 < frames,
        0 <= r.2 < speakers,
        t == score_index(r.0, r.1, r.2, frames, speakers),
{
    assert(frames > 0 && speakers > 0) by (nonlinear_arith)
        requires
            0 < num_chunks * frames * speakers,
    ;
    let row = t / speakers as int;
    let s = t % speakers as int;
    vstd::arithmetic::div_mod::lemma_fundamental_div_mod(t, speakers as int);
    vstd::arithmetic::div_mod::lemma_div_pos_is_pos(t, speakers as int);
    assert(row < num_chunks * frames) by (nonlinear_arith)
        requires
            t == speakers * row + s,
            0 <= s,
            t < num_chunks * frames * speakers,
            speakers > 0,
    ;
    let c = row / frames as int;
    let f = row % frames as int;
    vstd::arithmetic::div_mod::lemma_fundamental_div_mod(row, frames as int);
    vstd::arithmetic::div_mod::lemma_div_pos_is_pos(row, frames as int);
    assert(c < num_chunks) by (nonlinear_arith)
        requires
            row == frames * c + f,
            0 <= f,
            row < num_chunks * frames,
            frames > 0,
    ;
    assert((c * frames + f) * speakers + s == t) by (nonlinear_arith)
        requires
            row == frames * c + f,
            t == speakers * row + s,
    ;
    (c, f, s)
}

/// Where a score stands among all scores.
proof fn lemma_score_inside(c: int, f: int, s: int, num_chunks: nat, frames: nat, speakers: nat)
    requires
        0 <= c < num_chunks,
        0 <= f < frames,
        0 <= s < speakers,
    ensures
        0 <= score_index(c, f, s, frames, speakers) < num_chunks * frames * speakers,
{
    lemma_index(num_chunks as int, frames as int, c, f);
    lemma_index((num_chunks * frames) as int, speakers as int, c * frames + f, s);
}

proof fn lemma_finite_permuted(
    permuted: Seq<Double>,
    segmentations: Seq<Double>,
    orders: Seq<Seq<int>>,
    num_chunks: nat,
    frames: nat,
    speakers: nat,
)
    requires
        is_permuted(permuted, segmentations, orders, num_chunks, frames, speakers),
    ensures
        all_finite(permuted) == all_finite(segmentations),
{
    if all_finite(segmentations) {
        assert forall|t: int| 0 <= t < permuted.len() implies (#[trigger] permuted[t]).finite() by {
            let (c, f, s) = lemma_score_index(t, num_chunks, frames, speakers);
            assert(0 <= orders[c][s] < speakers);
            lemma_score_inside(c, f, orders[c][s], num_chunks, frames, speakers);
            assert(permuted[score_index(c, f, s, frames, speakers)] == segmentations[score_index(
                c,
                f,
                orders[c][s],
                frames,
                speakers,
            )]);
        }
    }
    if all_finite(permuted) {
        assert forall|t: int| 0 <= t < segmentations.len() implies (#[trigger] segmentations[t]).finite() by {
            let (c, f, s) = lemma_score_index(t, num_chunks, frames, speakers);
            lemma_selection_is_full(orders[c], speakers as int);
            assert(orders[c].contains(s));
            let k = choose|k: int| 0 <= k < orders[c].len() && orders[c][k] == s;
            lemma_score_inside(c, f, k, num_chunks, frames, speakers);
            let at = score_index(c, f, k, frames, speakers);
            assert(permuted[at] == segmentations[t]);
            assert(permuted[at].finite());
        }
    }
}

/// The order of the speakers within a chunk is of no account: with the speakers of
/// each chunk in another order the same checks fail, and the same counts come out.
pub proof fn law_speaker_order_is_of_no_account(
    a: CountTensor,
    b: CountTensor,
    segmentations: Seq<Double>,
    permuted: Seq<Double>,
    orders: Seq<Seq<int>>,
    num_chunks: nat,
    num_frames_per_chunk: nat,
    num_speakers: nat,
    onset: Double,
    chunks_sw: SlidingWindow,
    frames_sw: SlidingWindow,
)
    requires
        is_permuted(
            permuted,
            segmentations,
            orders,
            num_chunks,
            num_frames_per_chunk,
            num_speakers,
        ),
    ensures
        count_error(
            permuted,
            num_chunks,
            num_frames_per_chunk,
            num_speakers,
            onset,
            chunks_sw,
            frames_sw,
        ) == count_error(
            segmentations,
            num_chunks,
            num_frames_per_chunk,
            num_speakers,
            onset,
            chunks_sw,
            frames_sw,
        ),
        is_count(
            a,
            segmentations,
            num_chunks,
            num_frames_per_chunk,
            num_speakers,
            onset,
            chunks_sw,
            frames_sw,
        ) && is_count(
            b,
            permuted,
            num_chunks,
            num_frames_per_chunk,
            num_speakers,
            onset,
            chunks_sw,
            frames_sw,
        ) ==> a.counts() == b.counts(),
{
    lemma_finite_permuted(
        permuted,
        segmentations,
        orders,
        num_chunks,
        num_frames_per_chunk,
        num_speakers,
    );
    let grid = CountGrid {
        segmentations,
        frames_per_chunk: num_frames_per_chunk,
        speakers: num_speakers,
        onset,
        chunk_step: chunks_sw.stride(),
        frame_step: frames_sw.stride(),
    };
    if is_count(
        a,
        segmentations,
        num_chunks,
        num_frames_per_chunk,
        num_speakers,
        onset,
        chunks_sw,
        frames_sw,
    ) && is_count(
        b,
        permuted,
        num_chunks,
        num_frames_per_chunk,
        num_speakers,
        onset,
        chunks_sw,
        frames_sw,
    ) {
        assert forall|t: int| 0 <= t < a.counts().len() implies a.counts()[t] == b.counts()[t] by {
            lemma_total_permuted(grid, permuted, orders, num_chunks, num_chunks, t);
            assert(a.counts()[t] == grid.count_at(num_chunks, t));
            assert(b.counts()[t] == (CountGrid { segmentations: permuted, ..grid }).count_at(
                num_chunks,
                t,
            ));
        }
        assert(a.counts() =~= b.counts());
    }
}

/// Every chunk that covers output frame `t` sees exactly `k` active speakers.
pub open spec fn unanimous(grid: CountGrid, num_chunks: nat, t: int, k: nat) -> bool {
    forall|c: nat|
        c < num_chunks && grid.covers(c, t) ==> #[trigger] grid.active(c, grid.local(c, t)) == k
}

proof fn lemma_unanimous_total(grid: CountGrid, n: nat, num_chunks: nat, t: int, k: nat)
    requires
        n <= num_chunks,
        unanimous(grid, num_chunks, t, k),
    ensures
        grid.total(n, t) == k * grid.coverage(n, t),
    decreases n,
{
    if n > 0 {
        let c = (n - 1) as nat;
        lemma_unanimous_total(grid, c, num_chunks, t, k);
        assert(grid.covers(c, t) ==> grid.active(c, grid.local(c, t)) == k);
        let m = grid.coverage(c, t);
        assert(k * (m + 1) == k * m + k) by (nonlinear_arith);
    } else {
        assert(k * 0 == 0) by (nonlinear_arith);
    }
}

/// Where all covering chunks agree on the number of active speakers, that
/// number (at most 255) is the count, however many chunks overlap.
pub proof fn law_unanimous_count(grid: CountGrid, num_chunks: nat, t: int, k: nat)
    requires
        unanimous(grid, num_chunks, t, k),
        grid.coverage(num_chunks, t) > 0,
        num_chunks <= u64::MAX,
        num_chunks * k <= u64::MAX,
    ensures
        grid.count_at(num_chunks, t) == if k > 255 { 255 } else { k },
{
    let coverage = grid.coverage(num_chunks, t);
    let total = grid.total(num_chunks, t);
    lemma_unanimous_total(grid, num_chunks, num_chunks, t, k);
    lemma_total_bounded(grid, num_chunks, t);
    assert(total <= u64::MAX) by (nonlinear_arith)
        requires
            total == k * coverage,
            coverage <= num_chunks,
            num_chunks * k <= u64::MAX,
    ;
    if k > 255 {
        assert(255 * coverage <= total) by (nonlinear_arith)
            requires
                total == k * coverage,
                k > 255,
        ;
        lemma_average_at_least(total, coverage, 255);
    } else {
        lemma_average_at_most(total, coverage, k);
        lemma_average_at_least(total, coverage, k);
    }
}

/// An output frame that no chunk reaches counts no speaker.
pub proof fn law_uncovered_count_is_zero(grid: CountGrid, num_chunks: nat, t: int)
    requires
        forall|c: nat| c < num_chunks ==> !#[trigger] grid.covers(c, t),
    ensures
        grid.count_at(num_chunks, t) == 0,
{
    lemma_uncovered(grid, num_chunks, num_chunks, t);
}

proof fn lemma_uncovered(grid: CountGrid, n: nat, num_chunks: nat, t: int)
    requires
        n <= num_chunks,
        forall|c: nat| c < num_chunks ==> !#[trigger] grid.covers(c, t),
    ensures
        grid.coverage(n, t) == 0,
    decreases n,
{
    if n > 0 {
        lemma_uncovered(grid, (n - 1) as nat, num_chunks, t);
        assert(!grid.covers((n - 1) as nat, t));
    }
}

/// The number of chunks less one, as computed, is the index of the last chunk.
pub open spec fn is_last_index(num_chunks: nat) -> bool {
    Double::natural(num_chunks).minus(Double { bits: 0x3ff0_0000_0000_0000 }) == Double::natural(
        (num_chunks - 1) as nat,
    )
}

/// Up to `2^53` chunks it is.
pub proof fn law_last_index(n: nat)
    requires
        1 <= n <= 0x20_0000_0000_0000,
    ensures
        is_last_index(n),
{
    let one = Double { bits: 0x3ff0_0000_0000_0000 };
    crate::float::double::lemma_double_format();
    let f = crate::float::double::binary64();
    lemma_natural_exact(n);
    lemma_natural_exact((n - 1) as nat);
    lemma_natural_exact(1);
    let p1074 = vstd::arithmetic::power2::pow2(1074) as int;
    vstd::arithmetic::power2::lemma_pow2_pos(1074);
    // the pattern of one
    assert(Double::natural(1) == one) by {
        vstd::arithmetic::power2::lemma2_to64();
        vstd::arithmetic::power2::lemma2_to64_rest();
        let h = crate::float::grid::half_span(53);
        assert(h == 0x10_0000_0000_0000);
        crate::float::grid::lemma_parts(53, 1022, h);
        vstd::arithmetic::power2::lemma_pow2_adds(52, 1022);
        let b = 1022 * h + h;
        assert(b == 0x3ff0_0000_0000_0000);
        crate::float::grid::lemma_representable(53, f.top as int, 1, b);
    }
    assert(f.value(one.num()) == p1074);
    let m = one.negated();
    crate::float::order::lemma_of_num(Num { negative: true, magnitude: one.num().magnitude });
    assert(f.value(m.num()) == -p1074);
    let total = f.value(Double::natural(n).num()) + f.value(m.num());
    assert(total == (n - 1) * p1074) by (nonlinear_arith)
        requires
            total == n * p1074 - p1074,
    ;
    assert(m.finite());
    if n == 1 {
        assert(total == 0) by (nonlinear_arith)
            requires
                total == (n - 1) * p1074,
                n == 1,
        ;
        assert(Double::natural(0) == Double::zero_spec()) by {
            crate::float::arith::lemma_zero_units(53);
            assert(0 * p1074 == 0);
            crate::float::grid::lemma_representable(53, f.top as int, 1, 0);
        }
    } else {
        assert(total > 0) by (nonlinear_arith)
            requires
                total == (n - 1) * p1074,
                n > 1,
                p1074 > 0,
        ;
    }
}

/// Chunks start no earlier than the chunks before them.
pub proof fn law_chunk_starts_are_ordered(c: nat, d: nat, chunk_step: Double, frame_step: Double)
    requires
        c <= d,
        positive(chunk_step),
        positive(frame_step),
        Double::natural(d).times(chunk_step).finite(),
        Double::natural(d).times(chunk_step).over(frame_step).finite(),
    ensures
        0 <= start_frame(c, chunk_step, frame_step) <= start_frame(d, chunk_step, frame_step),
{
    lemma_natural_ordered(c, d);
    let x = Double::natural(c);
    let y = Double::natural(d);
    // an infinite factor could not give a finite product
    assert(y.finite());
    lemma_times_ordered(x, y, chunk_step);
    lemma_over_ordered(x.times(chunk_step), y.times(chunk_step), frame_step);
    lemma_rounded_ordered(x.times(chunk_step).over(frame_step), y.times(chunk_step).over(frame_step));
    lemma_saturated_ordered(
        x.times(chunk_step).over(frame_step).rounded(),
        y.times(chunk_step).over(frame_step).rounded(),
    );
}

/// An accepted Hamming aggregation drops no contribution: every frame of every
/// chunk falls on an output frame. The start of the last chunk is computed from the
/// number of chunks less one, which must be its index.
pub proof fn law_hamming_drops_nothing(
    values: Seq<Double>,
    num_chunks: nat,
    num_frames_per_chunk: nat,
    chunk_step: Double,
    frame_step: Double,
    num_output_frames: nat,
    c: nat,
    f: nat,
)
    requires
        hamming_error(
            values,
            num_chunks,
            num_frames_per_chunk,
            chunk_step,
            frame_step,
            num_output_frames,
        ) is None,
        is_last_index(num_chunks),
        c < num_chunks,
        f < num_frames_per_chunk,
    ensures
        0 <= start_frame(c, chunk_step, frame_step) + f < num_output_frames,
{
    law_chunk_starts_are_ordered(c, (num_chunks - 1) as nat, chunk_step, frame_step);
}

proof fn lemma_beyond_is_zero(
    values: Seq<Double>,
    cosines: Seq<Double>,
    chunk_step: Double,
    frame_step: Double,
    n: nat,
    t: int,
)
    requires
        forall|c: nat|
            c < n ==> #[trigger] start_frame(c, chunk_step, frame_step) + cosines.len() <= t,
    ensures
        weighted_sum(values, cosines, chunk_step, frame_step, n, t) == Double::zero_spec(),
    decreases n,
{
    if n > 0 {
        lemma_beyond_is_zero(values, cosines, chunk_step, frame_step, (n - 1) as nat, t);
        assert(start_frame((n - 1) as nat, chunk_step, frame_step) + cosines.len() <= t);
    }
}

/// Asking for more output frames only appends zeros: the frames of the shorter
/// output stay as they are.
pub proof fn law_longer_output_appends_zeros<F: Fn(Double) -> Double>(
    out: Seq<Double>,
    longer: Seq<Double>,
    values: Seq<Double>,
    num_chunks: nat,
    num_frames_per_chunk: nat,
    chunk_step: Double,
    frame_step: Double,
    num_output_frames: nat,
    more_output_frames: nat,
    cosine: F,
)
    requires
        is_cosine(cosine),
        num_output_frames <= more_output_frames,
        hamming_error(
            values,
            num_chunks,
            num_frames_per_chunk,
            chunk_step,
            frame_step,
            num_output_frames,
        ) is None,
        is_last_index(num_chunks),
        is_hamming_aggregate(
            out,
            values,
            num_chunks,
            num_frames_per_chunk,
            chunk_step,
            frame_step,
            num_output_frames,
            cosine,
        ),
        is_hamming_aggregate(
            longer,
            values,
            num_chunks,
            num_frames_per_chunk,
            chunk_step,
            frame_step,
            more_output_frames,
            cosine,
        ),
    ensures
        longer == out + Seq::new(
            (more_output_frames - num_output_frames) as nat,
            |t: int| Double::zero_spec(),
        ),
{
    let a = choose|cosines: Seq<Double>|
        {
            &&& #[trigger] cosines.len() == num_frames_per_chunk
            &&& forall|n: int|
                0 <= n < num_frames_per_chunk ==> call_ensures(
                    cosine,
                    (window_angle(n as nat, num_frames_per_chunk),),
                    #[trigger] cosines[n],
                )
            &&& out == Seq::new(
                num_output_frames,
                |t: int| weighted_sum(values, cosines, chunk_step, frame_step, num_chunks, t),
            )
        };
    let b = choose|cosines: Seq<Double>|
        {
            &&& #[trigger] cosines.len() == num_frames_per_chunk
            &&& forall|n: int|
                0 <= n < num_frames_per_chunk ==> call_ensures(
                    cosine,
                    (window_angle(n as nat, num_frames_per_chunk),),
                    #[trigger] cosines[n],
                )
            &&& longer == Seq::new(
                more_output_frames,
                |t: int| weighted_sum(values, cosines, chunk_step, frame_step, num_chunks, t),
            )
        };
    assert forall|n: int| 0 <= n < num_frames_per_chunk implies a[n] == b[n] by {
        let x = window_angle(n as nat, num_frames_per_chunk);
        assert(call_ensures(cosine, (x,), a[n]));
        assert(call_ensures(cosine, (x,), b[n]));
    }
    assert(a =~= b);
    assert forall|t: int| num_output_frames <= t < more_output_frames implies longer[t]
        == Double::zero_spec() by {
        assert forall|c: nat| c < num_chunks implies #[trigger] start_frame(
            c,
            chunk_step,
            frame_step,
        ) + b.len() <= t by {
            law_hamming_drops_nothing(
                values,
                num_chunks,
                num_frames_per_chunk,
                chunk_step,
                frame_step,
                num_output_frames,
                c,
                (num_frames_per_chunk - 1) as nat,
            );
        }
        lemma_beyond_is_zero(values, b, chunk_step, frame_step, num_chunks, t);
    }
    assert(longer =~= out + Seq::new(
        (more_output_frames - num_output_frames) as nat,
        |t: int| Double::zero_spec(),
    ));
}

} // verus!
