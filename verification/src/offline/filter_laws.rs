//! What makes a (chunk, speaker) pair train.

use vstd::arithmetic::power2::{lemma_pow2_adds, lemma_pow2_pos, lemma_pow2_strictly_increases, pow2};
use vstd::prelude::*;
use crate::cluster::hungarian::sums::{is_selection, lemma_selection_is_full, sum};
use crate::float::arith::abs;
use crate::float::double::{binary64, lemma_double_format};
use crate::float::error::{law_product_is_close, law_sum_is_close, lemma_one, lemma_sum_step, limit, one};
use crate::float::grid::{distance, gap_exponent, half_span, lemma_half_span, significand};
use crate::float::order::lemma_natural_exact;
use crate::float::Double;
use crate::offline::filter::ScoreGrid;

verus! {

/// Speaker `s` is heard in the frame.
pub open spec fn is_heard(grid: ScoreGrid, c: int, f: int, s: int) -> bool {
    0 <= s < grid.speakers && Double::zero_spec().below(grid.at(c, f, s))
}

/// Exactly one speaker is heard in the frame, whichever of all it is.
pub open spec fn is_sole(grid: ScoreGrid, c: int, f: int) -> bool {
    exists|s: int|
        {
            &&& #[trigger] is_heard(grid, c, f, s)
            &&& forall|t: int| #[trigger] is_heard(grid, c, f, t) ==> t == s
        }
}

/// No speaker is heard among the first `n`.
proof fn lemma_none(grid: ScoreGrid, c: int, f: int, n: nat)
    requires
        n <= grid.speakers,
    ensures
        grid.active(c, f, n) == 0 <==> forall|s: int| s < n ==> !#[trigger] is_heard(grid, c, f, s),
    decreases n,
{
    if n > 0 {
        lemma_none(grid, c, f, (n - 1) as nat);
        if grid.active(c, f, n) == 0 {
            assert forall|s: int| s < n implies !#[trigger] is_heard(grid, c, f, s) by {}
        } else if forall|s: int| s < n ==> !#[trigger] is_heard(grid, c, f, s) {
            assert(!is_heard(grid, c, f, n - 1));
        }
    }
}

/// Speaker `s` alone is heard among the first `n`.
spec fn is_sole_among(grid: ScoreGrid, c: int, f: int, n: nat, s: int) -> bool {
    &&& s < n
    &&& is_heard(grid, c, f, s)
    &&& forall|t: int| t < n && #[trigger] is_heard(grid, c, f, t) ==> t == s
}

/// Where one is counted, one is heard alone.
proof fn lemma_counted_is_heard(grid: ScoreGrid, c: int, f: int, n: nat) -> (s: int)
    requires
        n <= grid.speakers,
        grid.active(c, f, n) == 1,
    ensures
        is_sole_among(grid, c, f, n, s),
    decreases n,
{
    let m = (n - 1) as nat;
    if is_heard(grid, c, f, m as int) {
        lemma_none(grid, c, f, m);
        m as int
    } else {
        lemma_counted_is_heard(grid, c, f, m)
    }
}

/// One that is heard alone is counted.
proof fn lemma_heard_is_counted(grid: ScoreGrid, c: int, f: int, n: nat, s: int)
    requires
        n <= grid.speakers,
        is_sole_among(grid, c, f, n, s),
    ensures
        grid.active(c, f, n) == 1,
    decreases n,
{
    let m = (n - 1) as nat;
    if s == m {
        lemma_none(grid, c, f, m);
    } else {
        assert(!is_heard(grid, c, f, m as int));
        lemma_heard_is_counted(grid, c, f, m, s);
    }
}

/// A frame is clean exactly if one of all speakers is heard in it and no other.
pub proof fn law_clean_frame_has_one_speaker(grid: ScoreGrid, c: int, f: int)
    ensures
        grid.is_clean(c, f) <==> is_sole(grid, c, f),
{
    let n = grid.speakers;
    if grid.is_clean(c, f) {
        let s = lemma_counted_is_heard(grid, c, f, n);
        assert(is_heard(grid, c, f, s));
    }
    if is_sole(grid, c, f) {
        let s = choose|s: int|
            {
                &&& #[trigger] is_heard(grid, c, f, s)
                &&& forall|t: int| #[trigger] is_heard(grid, c, f, t) ==> t == s
            };
        assert(is_sole_among(grid, c, f, n, s));
        lemma_heard_is_counted(grid, c, f, n, s);
    }
}

/// In chunk `c` the slots of `other` are those of `grid` in the given order.
pub open spec fn is_reslotted(grid: ScoreGrid, other: ScoreGrid, c: int, order: Seq<int>) -> bool {
    &&& other.frames_per_chunk == grid.frames_per_chunk
    &&& other.speakers == grid.speakers
    &&& order.len() == grid.speakers
    &&& is_selection(order, grid.speakers as int)
    &&& forall|f: int, s: int|
        0 <= f < grid.frames_per_chunk && 0 <= s < grid.speakers ==> #[trigger] other.at(c, f, s)
            == grid.at(c, f, order[s])
}

proof fn lemma_sole_reslotted(grid: ScoreGrid, other: ScoreGrid, c: int, order: Seq<int>, f: int)
    requires
        is_reslotted(grid, other, c, order),
        0 <= f < grid.frames_per_chunk,
    ensures
        is_sole(other, c, f) <==> is_sole(grid, c, f),
{
    lemma_selection_is_full(order, grid.speakers as int);
    if is_sole(other, c, f) {
        let s = choose|s: int|
            {
                &&& #[trigger] is_heard(other, c, f, s)
                &&& forall|t: int| #[trigger] is_heard(other, c, f, t) ==> t == s
            };
        assert(other.at(c, f, s) == grid.at(c, f, order[s]));
        assert(is_heard(grid, c, f, order[s]));
        assert forall|t: int| #[trigger] is_heard(grid, c, f, t) implies t == order[s] by {
            assert(order.contains(t));
            let k = choose|k: int| 0 <= k < order.len() && order[k] == t;
            assert(other.at(c, f, k) == grid.at(c, f, order[k]));
            assert(is_heard(other, c, f, k));
        }
    }
    if is_sole(grid, c, f) {
        let s = choose|s: int|
            {
                &&& #[trigger] is_heard(grid, c, f, s)
                &&& forall|t: int| #[trigger] is_heard(grid, c, f, t) ==> t == s
            };
        assert(order.contains(s));
        let k = choose|k: int| 0 <= k < order.len() && order[k] == s;
        assert(other.at(c, f, k) == grid.at(c, f, order[k]));
        assert(is_heard(other, c, f, k));
        assert forall|t: int| #[trigger] is_heard(other, c, f, t) implies t == k by {
            assert(other.at(c, f, t) == grid.at(c, f, order[t]));
            assert(is_heard(grid, c, f, order[t]));
        }
    }
}

proof fn lemma_clean_score_reslotted(
    grid: ScoreGrid,
    other: ScoreGrid,
    c: int,
    order: Seq<int>,
    s: int,
    n: nat,
)
    requires
        is_reslotted(grid, other, c, order),
        0 <= s < grid.speakers,
        n <= grid.frames_per_chunk,
    ensures
        other.clean_score(c, s, n) == grid.clean_score(c, order[s], n),
    decreases n,
{
    if n > 0 {
        let f = n - 1;
        lemma_clean_score_reslotted(grid, other, c, order, s, f as nat);
        lemma_sole_reslotted(grid, other, c, order, f);
        law_clean_frame_has_one_speaker(grid, c, f);
        law_clean_frame_has_one_speaker(other, c, f);
        assert(other.at(c, f, s) == grid.at(c, f, order[s]));
    }
}

/// The order of the speaker slots is of no account: with the slots of a chunk in
/// another order, the same speakers of it train, in their new slots.
pub proof fn law_slot_order_is_of_no_account(
    grid: ScoreGrid,
    other: ScoreGrid,
    c: int,
    order: Seq<int>,
    s: int,
)
    requires
        is_reslotted(grid, other, c, order),
        0 <= s < grid.speakers,
    ensures
        other.trains(c, s) <==> grid.trains(c, order[s]),
{
    lemma_clean_score_reslotted(grid, other, c, order, s, grid.frames_per_chunk);
}

/// The exact scores of a speaker in the frames where one speaker is heard alone, zero in
/// the others.
pub open spec fn sole_scores(grid: ScoreGrid, c: int, s: int) -> Seq<int> {
    Seq::new(
        grid.frames_per_chunk,
        |f: int| if is_sole(grid, c, f) { grid.at(c, f, s).units() } else { 0 },
    )
}

/// The scores of a speaker in a chunk lie between zero and one.
pub open spec fn are_shares(grid: ScoreGrid, c: int, s: int) -> bool {
    &&& grid.frames_per_chunk <= 0x4_0000_0000_0000
    &&& forall|f: int|
        0 <= f < grid.frames_per_chunk ==> {
            let x = #[trigger] grid.at(c, f, s);
            x.finite() && 0 <= x.units() <= one()
        }
}

/// A clean score is the exact sum of the scores in the clean frames, up to rounding.
proof fn lemma_clean_score(grid: ScoreGrid, c: int, s: int, n: nat)
    requires
        are_shares(grid, c, s),
        n <= grid.frames_per_chunk,
    ensures
        grid.clean_score(c, s, n).finite(),
        0 <= sum(sole_scores(grid, c, s).take(n as int)) <= n * one(),
        0x10_0000_0000_0000 * distance(
            grid.clean_score(c, s, n).units(),
            sum(sole_scores(grid, c, s).take(n as int)),
        ) <= n * (n * one()),
    decreases n,
{
    let v = sole_scores(grid, c, s);
    lemma_one();
    lemma_double_format();
    crate::float::arith::lemma_zero_units(53);
    if n > 0 {
        let m = (n - 1) as nat;
        lemma_clean_score(grid, c, s, m);
        law_clean_frame_has_one_speaker(grid, c, m as int);
        lemma_sum_step(v, m);
        let u = one();
        let x = grid.at(c, m as int, s);
        assert(x.finite());
        let before = grid.clean_score(c, s, m);
        let far = distance(before.units(), sum(v.take(m as int)));
        let mu = m * u;
        let nu = n * u;
        assert(nu == mu + u && mu >= 0) by (nonlinear_arith)
            requires
                mu == m * u,
                nu == n * u,
                n == m + 1,
                m >= 0,
                u > 0,
        ;
        assert(0x4 * far <= mu) by (nonlinear_arith)
            requires
                0x10_0000_0000_0000 * far <= m * mu,
                m <= 0x4_0000_0000_0000,
                mu >= 0,
        ;
        assert(nu <= 0x4_0000_0000_0000 * u) by (nonlinear_arith)
            requires
                nu == n * u,
                n <= 0x4_0000_0000_0000,
                u > 0,
        ;
        assert(2 * nu <= limit()) by {
            lemma_pow2_strictly_increases(1074, 2045);
        }
        let nnu = n * nu;
        let mmu = m * mu;
        assert(nnu >= mmu + nu) by (nonlinear_arith)
            requires
                nnu == n * nu,
                mmu == m * mu,
                n == m + 1,
                nu >= mu,
                m >= 0,
        ;
        if grid.is_clean(c, m as int) {
            law_sum_is_close(before, x);
            let after = before.plus(x);
            let d = distance(after.units(), before.units() + x.units());
            assert(0x1f_ffff_ffff_ffff * d <= 2 * nu);
        }
    } else {
        assert(v.take(0).len() == 0);
        assert(0 * one() == 0);
        assert(0 * (0 * one()) == 0);
    }
}

/// A fifth, in units.
proof fn lemma_fifth()
    ensures
        ({
            let fifth = Double { bits: 0x3fc9_9999_9999_999a };
            &&& fifth.finite()
            &&& fifth.units() == 0x19_9999_9999_999a * pow2(1019)
            &&& 5 * fifth.units() == one() + pow2(1020)
            &&& one() == pow2(55) * pow2(1019)
        }),
{
    let fifth = Double { bits: 0x3fc9_9999_9999_999a };
    let b = 0x3fc9_9999_9999_999aint;
    lemma_double_format();
    lemma_half_span(53);
    vstd::arithmetic::power2::lemma2_to64();
    vstd::arithmetic::power2::lemma2_to64_rest();
    let h = half_span(53);
    assert(h == 0x10_0000_0000_0000);
    vstd::arithmetic::div_mod::lemma_fundamental_div_mod_converse(b, h, 1020, 0x9_9999_9999_999a);
    assert(gap_exponent(53, b) == 1019);
    assert(significand(53, b) == 0x19_9999_9999_999a);
    assert(fifth.num().magnitude == b);
    lemma_pow2_adds(55, 1019);
    lemma_pow2_adds(1, 1019);
}

/// The least clean score that trains is a fifth of the frames, up to rounding.
pub proof fn law_least_score_is_a_fifth(grid: ScoreGrid)
    requires
        grid.frames_per_chunk <= 0x4_0000_0000_0000,
    ensures
        grid.least_score().finite(),
        0x2_0000_0000_0000 * distance(
            5 * grid.least_score().units(),
            grid.frames_per_chunk * one(),
        ) <= grid.frames_per_chunk * one() + one(),
{
    lemma_fifth();
    lemma_one();
    let n = grid.frames_per_chunk;
    let u = one();
    let fifth = Double { bits: 0x3fc9_9999_9999_999a };
    lemma_natural_exact(n);
    let x = fifth.units();
    let nu = n * u;
    lemma_pow2_strictly_increases(1019, 1020);
    lemma_pow2_strictly_increases(1074, 2045);
    lemma_pow2_adds(54, 1020);
    lemma_pow2_pos(1019);
    vstd::arithmetic::power2::lemma2_to64();
    vstd::arithmetic::power2::lemma2_to64_rest();
    assert(0 <= x <= u);
    assert(0 <= nu <= 0x4_0000_0000_0000 * u) by (nonlinear_arith)
        requires
            nu == n * u,
            n <= 0x4_0000_0000_0000,
            u > 0,
    ;
    assert(0 <= x * nu <= limit() * u) by (nonlinear_arith)
        requires
            0 <= x <= u,
            0 <= nu <= limit(),
            u > 0,
    ;
    law_product_is_close(fifth, Double::natural(n));
    let l = grid.least_score().units();
    let nx = n * x;
    // l is n x up to rounding
    let far = distance(l, nx);
    assert(distance(l * u, x * nu) == far * u) by (nonlinear_arith)
        requires
            nu == n * u,
            nx == n * x,
            far == (if l <= nx { nx - l } else { l - nx }),
            distance(l * u, x * nu) == (if l * u <= x * nu { x * nu - l * u } else { l * u - x
                * nu }),
            u > 0,
    ;
    let la = abs(l);
    assert(0x20_0000_0000_0000 * far <= la + 0x10_0000_0000_0000) by (nonlinear_arith)
        requires
            0x20_0000_0000_0000 * (far * u) <= (la + 0x10_0000_0000_0000) * u,
            u > 0,
    ;
    let tiny = pow2(1020) as int;
    assert(5 * nx == nu + n * tiny) by (nonlinear_arith)
        requires
            nx == n * x,
            5 * x == u + tiny,
            nu == n * u,
    ;
    assert(u == 0x40_0000_0000_0000 * tiny);
    let nt = n * tiny;
    assert(nu == 0x40_0000_0000_0000 * nt) by (nonlinear_arith)
        requires
            nu == n * u,
            nt == n * tiny,
            u == 0x40_0000_0000_0000 * tiny,
    ;
    assert(u > 0x1000_0000_0000_0000) by {
        lemma_pow2_strictly_increases(62, 1074);
    }
}

/// A pair whose speaker is heard alone for more than a fifth of the chunk trains, and
/// one heard alone for less does not: the scores in the frames in which exactly one
/// speaker is heard, added up exactly, decide, up to rounding.
pub proof fn law_a_fifth_of_the_chunk_trains(grid: ScoreGrid, c: int, s: int)
    requires
        are_shares(grid, c, s),
    ensures
        ({
            let n = grid.frames_per_chunk as int;
            let total = sum(sole_scores(grid, c, s));
            let slack = 5 * (n * (n * one())) + 8 * (n * one()) + 8 * one();
            &&& 0x10_0000_0000_0000 * (5 * total - n * one()) > slack ==> grid.trains(c, s)
            &&& 0x10_0000_0000_0000 * (n * one() - 5 * total) > slack ==> !grid.trains(c, s)
        }),
{
    let n = grid.frames_per_chunk;
    let v = sole_scores(grid, c, s);
    assert(v.take(n as int) =~= v);
    lemma_clean_score(grid, c, s, n);
    law_least_score_is_a_fifth(grid);
    let score = grid.clean_score(c, s, n);
    let least = grid.least_score();
    lemma_double_format();
    crate::float::arith::law_rank_orders_values(binary64(), least.num(), score.num());
}

} // verus!
