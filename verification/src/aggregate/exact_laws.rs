//! What the counts and the frame grid are, in exact arithmetic.

use vstd::arithmetic::power2::{lemma_pow2_adds, lemma_pow2_pos, lemma_pow2_strictly_increases, pow2};
use vstd::prelude::*;
use crate::aggregate::count::{active_speakers, average_count, output_frames, start_frame, CountGrid};
use crate::float::error::{law_quotient_is_close, lemma_one, limit, one};
use crate::float::grid::distance;
use crate::float::nearest::law_rounded_is_nearest;
use crate::float::order::lemma_natural_exact;
use crate::float::relative::{is_near, is_plain, lemma_near_chain, lemma_near_divided, lemma_near_scaled, lemma_usual_product, lemma_usual_quotient, lemma_usual_sum};
use crate::float::Double;

verus! {

/// The speakers whose score reaches the onset, among the first `n` from `base` on.
pub open spec fn heard(segmentations: Seq<Double>, onset: Double, base: int, n: nat) -> Set<int> {
    Set::new(|s: int| 0 <= s < n && onset.at_most(segmentations[base + s]))
}

/// The active speakers are counted one by one: all those whose score reaches the onset,
/// and no other.
pub proof fn law_active_speakers_are_those_heard(
    segmentations: Seq<Double>,
    onset: Double,
    base: int,
    n: nat,
)
    ensures
        heard(segmentations, onset, base, n).finite(),
        active_speakers(segmentations, onset, base, n) == heard(segmentations, onset, base, n).len(),
    decreases n,
{
    let all = heard(segmentations, onset, base, n);
    if n == 0 {
        assert(all =~= Set::empty());
    } else {
        let m = (n - 1) as nat;
        law_active_speakers_are_those_heard(segmentations, onset, base, m);
        let before = heard(segmentations, onset, base, m);
        if onset.at_most(segmentations[base + m]) {
            assert(all =~= before.insert(m as int));
        } else {
            assert(all =~= before);
        }
    }
}

/// The chunks among the first `n` that hold output frame `t`.
pub open spec fn covering(grid: CountGrid, n: nat, t: int) -> Set<int> {
    Set::new(
        |c: int|
            0 <= c < n && start_frame(c as nat, grid.chunk_step, grid.frame_step) <= t
                < start_frame(c as nat, grid.chunk_step, grid.frame_step) + grid.frames_per_chunk,
    )
}

/// The chunks and speakers that are active at output frame `t`.
pub open spec fn active_pairs(grid: CountGrid, n: nat, t: int) -> Set<(int, int)> {
    Set::new(
        |p: (int, int)|
            covering(grid, n, t).contains(p.0) && 0 <= p.1 < grid.speakers && grid.onset.at_most(
                grid.segmentations[(p.0 * grid.frames_per_chunk + (t - start_frame(
                    p.0 as nat,
                    grid.chunk_step,
                    grid.frame_step,
                ))) * grid.speakers + p.1],
            ),
    )
}

/// Pairs with one chunk are as many as their speakers.
proof fn lemma_pairs_of_one(c: int, speakers: Set<int>, pairs: Set<(int, int)>)
    requires
        speakers.finite(),
        forall|p: (int, int)| #[trigger]
            pairs.contains(p) <==> p.0 == c && speakers.contains(p.1),
    ensures
        pairs.finite(),
        pairs.len() == speakers.len(),
    decreases speakers.len(),
{
    if speakers.len() == 0 {
        assert(pairs =~= Set::empty());
    } else {
        let s = speakers.choose();
        assert(speakers.contains(s));
        let less = pairs.remove((c, s));
        lemma_pairs_of_one(c, speakers.remove(s), less);
        assert(pairs.contains((c, s)));
        assert(pairs =~= less.insert((c, s)));
    }
}

/// The coverage is the number of chunks that hold the frame, and the total is the number
/// of pairs of such a chunk and a speaker active in it.
pub proof fn law_totals_are_cardinalities(grid: CountGrid, n: nat, t: int)
    ensures
        covering(grid, n, t).finite(),
        grid.coverage(n, t) == covering(grid, n, t).len(),
        active_pairs(grid, n, t).finite(),
        grid.total(n, t) == active_pairs(grid, n, t).len(),
    decreases n,
{
    let all = covering(grid, n, t);
    let pairs = active_pairs(grid, n, t);
    if n == 0 {
        assert(all =~= Set::empty());
        assert(pairs =~= Set::empty());
    } else {
        let c = (n - 1) as nat;
        law_totals_are_cardinalities(grid, c, t);
        let before = covering(grid, c, t);
        let held = active_pairs(grid, c, t);
        if grid.covers(c, t) {
            assert(all =~= before.insert(c as int));
            let base = (c * grid.frames_per_chunk + grid.local(c, t)) * grid.speakers;
            law_active_speakers_are_those_heard(
                grid.segmentations,
                grid.onset,
                base,
                grid.speakers,
            );
            let speakers = heard(grid.segmentations, grid.onset, base, grid.speakers);
            let own = Set::new(|p: (int, int)| p.0 == c && speakers.contains(p.1));
            lemma_pairs_of_one(c as int, speakers, own);
            assert(pairs =~= held.union(own));
            assert(held.disjoint(own));
            vstd::set_lib::lemma_set_disjoint_lens(held, own);
        } else {
            assert(all =~= before);
            assert(pairs =~= held);
        }
    }
}

/// The count is the integer nearest to the mean over the covering chunks; above 254 and
/// a half it is 255.
#[verifier::spinoff_prover]
pub proof fn law_average_is_nearest(total: nat, coverage: nat)
    requires
        0 < coverage < 0x1_0000_0000_0000,
        total < 0x1_0000_0000_0000,
    ensures
        average_count(total, coverage) < 255 ==> 2 * distance(
            average_count(total, coverage) * coverage,
            total as int,
        ) <= coverage,
        average_count(total, coverage) == 255 ==> 509 * coverage <= 2 * total,
{
    let u = one();
    lemma_one();
    lemma_natural_exact(total);
    lemma_natural_exact(coverage);
    let (a, b) = (Double::natural(total), Double::natural(coverage));
    let (t, c) = (total as int, coverage as int);
    let (tu, cu) = (t * u, c * u);
    lemma_limit_ample();
    assert(cu > 0 && tu * u <= limit() * cu) by (nonlinear_arith)
        requires
            cu == c * u,
            tu == t * u,
            c >= 1,
            u > 0,
            0 <= t < 0x1_0000_0000_0000,
            limit() >= 0x1_0000_0000_0000 * u,
    ;
    law_quotient_is_close(a, b);
    let x = a.over(b);
    let q = x.units();
    crate::float::double::lemma_double_format();
    crate::float::error::lemma_sizes(crate::float::double::binary64(), x.num());
    assert(q >= 0);
    // q c is t u, up to rounding
    let qc = q * c;
    let far = distance(qc, tu);
    assert(0x20_0000_0000_0000 * far <= qc + 0x10_0000_0000_0000 * c) by (nonlinear_arith)
        requires
            0x20_0000_0000_0000 * distance(q * cu, tu * u) <= (q + 0x10_0000_0000_0000) * cu,
            distance(q * cu, tu * u) == (if q * cu <= tu * u { tu * u - q * cu } else { q * cu - tu
                * u }),
            far == (if qc <= tu { tu - qc } else { qc - tu }),
            qc == q * c,
            cu == c * u,
            u > 0,
    ;
    lemma_pow2_strictly_increases(62, 1074);
    vstd::arithmetic::power2::lemma2_to64_rest();
    assert(tu <= 0x1_0000_0000_0000 * u) by (nonlinear_arith)
        requires
            tu == t * u,
            t < 0x1_0000_0000_0000,
            u > 0,
    ;
    assert(4 * far < u);
    assert(q < 0x4_0000_0000_0000 * u) by (nonlinear_arith)
        requires
            qc == q * c,
            c >= 1,
            q >= 0,
            qc <= 0x1_0000_0000_0000 * u + u,
            u > 0,
    ;
    law_rounded_is_nearest(x);
    let r = x.rounded().saturated();
    let rcu = (r * c) * u;
    assert(2 * distance(rcu, qc) <= cu) by (nonlinear_arith)
        requires
            2 * distance(r * u, q) <= u,
            distance(r * u, q) == (if r * u <= q { q - r * u } else { r * u - q }),
            distance(rcu, qc) == (if rcu <= qc { qc - rcu } else { rcu - qc }),
            rcu == (r * c) * u,
            qc == q * c,
            cu == c * u,
            c >= 1,
    ;
    let rc = r * c;
    let d = distance(rc, t);
    assert(distance(rcu, tu) == d * u) by (nonlinear_arith)
        requires
            rcu == rc * u,
            tu == t * u,
            d == (if rc <= t { t - rc } else { rc - t }),
            distance(rcu, tu) == (if rcu <= tu { tu - rcu } else { rcu - tu }),
            u > 0,
    ;
    let du = d * u;
    assert(2 * du < cu + u);
    assert(2 * d <= c) by (nonlinear_arith)
        requires
            2 * du < cu + u,
            du == d * u,
            cu == c * u,
            u > 0,
    ;
    if r >= 255 {
        assert(255 * c <= rc) by (nonlinear_arith)
            requires
                rc == r * c,
                r >= 255,
                c >= 1,
        ;
    }
}

proof fn lemma_limit_ample()
    ensures
        limit() >= 0x1_0000_0000_0000 * one(),
{
    lemma_pow2_strictly_increases(1074, 2045);
    lemma_pow2_pos(1074);
}

/// The count at an output frame that some chunk holds is the integer nearest to the mean
/// number of active speakers over the chunks that hold it.
pub proof fn law_count_is_the_mean(grid: CountGrid, num_chunks: nat, t: int)
    requires
        covering(grid, num_chunks, t).len() > 0,
        num_chunks < 0x1_0000_0000_0000,
        active_pairs(grid, num_chunks, t).len() < 0x1_0000_0000_0000,
    ensures
        ({
            let count = grid.count_at(num_chunks, t) as int;
            let chunks = covering(grid, num_chunks, t).len();
            let pairs = active_pairs(grid, num_chunks, t).len();
            &&& count < 255 ==> 2 * distance(count * chunks, pairs as int) <= chunks
            &&& count == 255 ==> 509 * chunks <= 2 * pairs
        }),
{
    law_totals_are_cardinalities(grid, num_chunks, t);
    lemma_coverage_bounded(grid, num_chunks, t);
    law_average_is_nearest(grid.total(num_chunks, t), grid.coverage(num_chunks, t));
}

proof fn lemma_coverage_bounded(grid: CountGrid, n: nat, t: int)
    ensures
        grid.coverage(n, t) <= n,
    decreases n,
{
    if n > 0 {
        lemma_coverage_bounded(grid, (n - 1) as nat, t);
    }
}

/// A time near `w` falls on the frame nearest to it.
#[verifier::spinoff_prover]
proof fn lemma_nearest_frame(z: Double, w: int, frame_step: Double, k: int)
    requires
        z.finite(),
        is_plain(frame_step),
        0 <= k <= 0x100,
        is_near(z.units(), w, k),
        pow2(973) <= z.units(),
        z.units() <= 0x1_0000_0000_0000 * frame_step.units(),
    ensures
        ({
            let x = z.over(frame_step).rounded();
            &&& x.finite()
            &&& 0 <= x.saturated()
            &&& x.saturated() == x.whole()
            &&& 0x8_0000_0000_0000 * distance(x.saturated() * frame_step.units(), w)
                <= 0x4_0000_0000_0000 * frame_step.units() + 2 * ((k + 2) * w)
        }),
{
    let u = one();
    lemma_one();
    let f = frame_step.units();
    let a = z.units();
    lemma_pow2_pos(973);
    lemma_pow2_pos(974);
    lemma_limit_ample();
    assert(a * u <= limit() * f) by (nonlinear_arith)
        requires
            a <= 0x1_0000_0000_0000 * f,
            limit() >= 0x1_0000_0000_0000 * u,
            u > 0,
            f > 0,
    ;
    lemma_pow2_adds(973, 1074);
    lemma_pow2_adds(64, 1174);
    lemma_pow2_strictly_increases(1238, 2047);
    assert(a * u >= pow2(64) * f) by (nonlinear_arith)
        requires
            a >= pow2(973),
            f <= pow2(1174),
            u == pow2(1074),
            u > 0,
            pow2(2047) == pow2(973) * pow2(1074),
            pow2(1238) == pow2(64) * pow2(1174),
            pow2(1238) < pow2(2047),
            pow2(64) >= 0,
    ;
    lemma_usual_quotient(z, frame_step);
    let x = z.over(frame_step);
    let q = x.units();
    let qf = q * f;
    lemma_near_scaled(a, w, u, k);
    lemma_near_chain(qf, a * u, w * u, 1, k);
    let au = a * u;
    assert(1 * au == au);
    assert(qf <= 2 * au);
    assert(q < 0x4_0000_0000_0000 * u) by (nonlinear_arith)
        requires
            qf == q * f,
            qf <= 2 * au,
            au == a * u,
            a <= 0x1_0000_0000_0000 * f,
            f > 0,
            u > 0,
            q >= 0,
    ;
    law_positive_quotient(z, frame_step);
    law_rounded_is_nearest(x);
    let r = x.rounded().saturated();
    let rfu = (r * f) * u;
    let fu = f * u;
    assert(2 * distance(rfu, qf) <= fu) by (nonlinear_arith)
        requires
            2 * distance(r * u, q) <= u,
            distance(r * u, q) == (if r * u <= q { q - r * u } else { r * u - q }),
            distance(rfu, qf) == (if rfu <= qf { qf - rfu } else { rfu - qf }),
            rfu == (r * f) * u,
            qf == q * f,
            fu == f * u,
            f >= 0,
    ;
    let wu = w * u;
    let kw = (k + 2) * w;
    let rf = r * f;
    let d = distance(rf, w);
    assert(distance(rfu, wu) == d * u && (k + 2) * wu == kw * u) by (nonlinear_arith)
        requires
            rfu == rf * u,
            wu == w * u,
            kw == (k + 2) * w,
            d == (if rf <= w { w - rf } else { rf - w }),
            distance(rfu, wu) == (if rfu <= wu { wu - rfu } else { rfu - wu }),
            u > 0,
    ;
    assert(k + 2 == 1 + k + 1);
    let du = d * u;
    let kwu = kw * u;
    assert(0x8_0000_0000_0000 * du <= 0x4_0000_0000_0000 * fu + 2 * kwu);
    assert(0x8_0000_0000_0000 * d <= 0x4_0000_0000_0000 * f + 2 * kw) by (nonlinear_arith)
        requires
            0x8_0000_0000_0000 * du <= 0x4_0000_0000_0000 * fu + 2 * kwu,
            du == d * u,
            fu == f * u,
            kwu == kw * u,
            u > 0,
    ;
}

/// A quotient of positive numbers is not negative.
proof fn law_positive_quotient(a: Double, b: Double)
    requires
        a.finite(),
        b.finite(),
        0 < a.units(),
        0 < b.units(),
        a.units() * one() <= limit() * b.units(),
    ensures
        !a.over(b).num().negative,
{
    crate::float::double::lemma_double_format();
    crate::float::error::lemma_sizes(crate::float::double::binary64(), a.num());
    crate::float::error::lemma_sizes(crate::float::double::binary64(), b.num());
    law_quotient_is_close(a, b);
}

/// A whole number of steps.
proof fn lemma_steps(c: nat, step: Double)
    requires
        0 < c < 0x1_0000_0000_0000,
        is_plain(step),
    ensures
        ({
            let z = Double::natural(c).times(step);
            &&& z.finite()
            &&& pow2(973) <= z.units()
            &&& is_near(z.units(), c * step.units(), 1)
        }),
{
    let u = one();
    lemma_one();
    lemma_natural_exact(c);
    let s = step.units();
    let cu = c * u;
    let cs = c * s;
    lemma_pow2_pos(974);
    lemma_pow2_adds(1074, 974);
    lemma_pow2_strictly_increases(1200, 2048);
    lemma_pow2_adds(48, 1074);
    lemma_pow2_adds(1122, 1174);
    lemma_pow2_strictly_increases(2296, 3100);
    lemma_pow2_adds(1, 973);
    vstd::arithmetic::power2::lemma2_to64();
    vstd::arithmetic::power2::lemma2_to64_rest();
    assert(cu * s >= pow2(2048)) by (nonlinear_arith)
        requires
            cu == c * u,
            c >= 1,
            u == pow2(1074),
            s >= pow2(974),
            pow2(2048) == pow2(1074) * pow2(974),
            u > 0,
    ;
    assert(cu <= pow2(1122)) by (nonlinear_arith)
        requires
            cu == c * u,
            c < 0x1_0000_0000_0000,
            u == pow2(1074),
            pow2(1122) == 0x1_0000_0000_0000 * pow2(1074),
            u > 0,
    ;
    assert(cu * s <= pow2(2296)) by (nonlinear_arith)
        requires
            0 <= cu <= pow2(1122),
            0 <= s <= pow2(1174),
            pow2(2296) == pow2(1122) * pow2(1174),
    ;
    lemma_usual_product(Double::natural(c), step);
    let z = Double::natural(c).times(step).units();
    assert(cu * s == cs * u) by (nonlinear_arith)
        requires
            cu == c * u,
            cs == c * s,
    ;
    lemma_near_divided(z, cs, u, 1);
    assert(cs >= s) by (nonlinear_arith)
        requires
            cs == c * s,
            c >= 1,
            s >= 0,
    ;
    assert(1 * cs == cs);
}

/// Chunk `c` starts at the frame nearest to `c` chunk steps: times the frame step it is
/// off by half a frame step at most, and rounding.
pub proof fn law_chunks_start_a_step_apart(c: nat, chunk_step: Double, frame_step: Double)
    requires
        c < 0x1_0000_0000_0000,
        is_plain(chunk_step),
        is_plain(frame_step),
        c * chunk_step.units() <= 0x8000_0000_0000 * frame_step.units(),
    ensures
        start_frame(0, chunk_step, frame_step) == 0,
        0x8_0000_0000_0000 * distance(
            start_frame(c, chunk_step, frame_step) * frame_step.units(),
            c * chunk_step.units(),
        ) <= 0x4_0000_0000_0000 * frame_step.units() + 6 * (c * chunk_step.units()),
{
    lemma_first_start(chunk_step, frame_step);
    if c > 0 {
        lemma_steps(c, chunk_step);
        let z = Double::natural(c).times(chunk_step);
        let w = c * chunk_step.units();
        assert(1 * w == w);
        assert(chunk_step.units() <= w) by (nonlinear_arith)
            requires
                w == c * chunk_step.units(),
                c >= 1,
                chunk_step.units() >= 0,
        ;
        lemma_nearest_frame(z, w, frame_step, 1);
        assert((1 + 2) * w == 3 * w);
    } else {
        assert(0 * frame_step.units() == 0);
        assert(0 * chunk_step.units() == 0);
    }
}

/// No steps at all.
proof fn lemma_no_steps(step: Double)
    requires
        is_plain(step),
    ensures
        Double::natural(0).times(step).finite(),
        Double::natural(0).times(step).units() == 0,
        !Double::natural(0).times(step).num().negative,
{
    let u = one();
    lemma_one();
    lemma_limit_ample();
    lemma_natural_exact(0);
    lemma_pow2_pos(974);
    crate::float::double::lemma_double_format();
    let f = crate::float::double::binary64();
    let zero = Double::natural(0);
    assert(0 * pow2(1074) == 0);
    assert(0 * step.units() == 0);
    let z = zero.times(step);
    crate::float::error::lemma_sizes(f, zero.num());
    crate::float::error::lemma_sizes(f, step.num());
    assert(limit() * u >= 0) by (nonlinear_arith)
        requires
            limit() >= 0,
            u >= 0,
    ;
    crate::float::error::law_product_is_close(zero, step);
    crate::float::arith::lemma_zero_units(53);
    crate::float::grid::lemma_representable(53, f.top as int, u, 0);
    assert(z.num().magnitude == 0);
    crate::float::error::lemma_sizes(f, z.num());
}

/// The first chunk starts at the first frame.
proof fn lemma_first_start(chunk_step: Double, frame_step: Double)
    requires
        is_plain(chunk_step),
        is_plain(frame_step),
    ensures
        start_frame(0, chunk_step, frame_step) == 0,
{
    let u = one();
    lemma_one();
    lemma_limit_ample();
    lemma_no_steps(chunk_step);
    lemma_pow2_pos(974);
    crate::float::double::lemma_double_format();
    let f = crate::float::double::binary64();
    let z = Double::natural(0).times(chunk_step);
    crate::float::error::lemma_sizes(f, z.num());
    crate::float::error::lemma_sizes(f, frame_step.num());
    assert(0 * u == 0);
    assert(0 <= limit() * frame_step.units()) by (nonlinear_arith)
        requires
            limit() >= 0,
            frame_step.units() >= 0,
    ;
    law_quotient_is_close(z, frame_step);
    crate::float::arith::lemma_zero_units(53);
    crate::float::grid::lemma_representable(53, f.top as int, frame_step.units(), 0);
    let x = z.over(frame_step);
    assert(x.num().magnitude == 0);
    crate::float::error::lemma_sizes(f, x.num());
    law_rounded_is_nearest(x);
    let r = x.rounded().saturated();
    assert(r == 0) by (nonlinear_arith)
        requires
            2 * distance(r * u, 0) <= u,
            distance(r * u, 0) == (if r * u <= 0 { -(r * u) } else { r * u }),
            u > 0,
            r >= 0,
    ;
}

/// The output frames reach to the end of the last chunk: one less than their number is
/// the frame nearest to the chunk duration and the chunk steps before the last chunk.
pub proof fn law_output_reaches_the_last_chunk(
    num_chunks: nat,
    chunk_duration: Double,
    chunk_step: Double,
    frame_step: Double,
)
    requires
        1 <= num_chunks < 0x1_0000_0000_0000,
        is_plain(chunk_duration),
        is_plain(chunk_step),
        is_plain(frame_step),
        output_frames(num_chunks, chunk_duration, chunk_step, frame_step) is Ok,
        chunk_duration.units() + (num_chunks - 1) * chunk_step.units() <= 0x4000_0000_0000
            * frame_step.units(),
    ensures
        ({
            let frames = output_frames(num_chunks, chunk_duration, chunk_step, frame_step)->Ok_0;
            let end = chunk_duration.units() + (num_chunks - 1) * chunk_step.units();
            0x8_0000_0000_0000 * distance((frames - 1) * frame_step.units(), end)
                <= 0x4_0000_0000_0000 * frame_step.units() + 10 * end
        }),
{
    let m = (num_chunks - 1) as nat;
    let z = Double::natural(m).times(chunk_step);
    let w = m * chunk_step.units();
    let d = chunk_duration.units();
    if m > 0 {
        lemma_steps(m, chunk_step);
    } else {
        lemma_no_steps(chunk_step);
        assert(0 * chunk_step.units() == 0);
        assert(1 * w == w);
    }
    lemma_pow2_pos(974);
    lemma_pow2_adds(1, 973);
    lemma_pow2_adds(48, 1174);
    lemma_pow2_strictly_increases(1222, 2045);
    vstd::arithmetic::power2::lemma2_to64();
    vstd::arithmetic::power2::lemma2_to64_rest();
    assert(w >= 0) by (nonlinear_arith)
        requires
            w == m * chunk_step.units(),
            chunk_step.units() >= 0,
    ;
    assert(1 * w == w);
    assert(pow2(1222) == 0x1_0000_0000_0000 * pow2(1174)) by (nonlinear_arith)
        requires
            pow2(1222) == pow2(48) * pow2(1174),
            pow2(48) == 0x1_0000_0000_0000,
    ;
    assert(pow2(974) == 2 * pow2(973)) by (nonlinear_arith)
        requires
            pow2(974) == pow2(1) * pow2(973),
            pow2(1) == 2,
    ;
    assert(d + z.units() <= pow2(1222) <= limit());
    lemma_usual_sum(chunk_duration, z);
    let a = chunk_duration.plus(z);
    crate::float::relative::lemma_near_same(d);
    crate::float::relative::lemma_near_wider(d, d, 0, 1);
    crate::float::relative::lemma_near_sum(d, d, z.units(), w, 1);
    lemma_near_chain(a.units(), d + z.units(), d + w, 1, 1);
    let e = d + w;
    let part = d + z.units();
    assert(1 * part == part && 3 * e == e + e + e);
    lemma_nearest_frame(a, e, frame_step, 3);
    assert((3 + 2) * e == 5 * e);
}

} // verus!
