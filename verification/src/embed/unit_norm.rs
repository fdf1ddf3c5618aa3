//! The length of an embedding is one, up to rounding.

use vstd::arithmetic::power2::{lemma_pow2_adds, lemma_pow2_pos, lemma_pow2_strictly_increases, pow2};
use vstd::prelude::*;
use crate::embed::laws::{is_zero, law_components_are_at_most_one, lemma_norm_bounded, lemma_norm_covers, lemma_one, lemma_some_component, lemma_square_sum, square_sum};
use crate::embed::options::EMBEDDING_DIM;
use crate::embed::types::{direction, has_direction, norm, norm_from, squares, Embedding};
use crate::float::arith::Num;
use crate::float::close::law_rounding_is_close;
use crate::float::double::{binary64, lemma_double_format, Double};
use crate::float::exact::lemma_square_exact;
use crate::float::grid::{distance, gap_exponent, half_span, lemma_half_span, lemma_split, lemma_units_step, nearest, significand, units};
use crate::float::laws::{law_conversion_is_monotone, law_sum_covers_its_terms, lemma_root_exists, lemma_sizes_grow, lemma_sum_with_zero, plain};
use crate::float::order::{lemma_nearest_exists, lemma_of_num};
use crate::float::root::nearest_root;
use crate::float::single::{binary32, lemma_single_format, Single};

verus! {

/// The size of a number in single precision, in units.
pub open spec fn size_of(x: Single) -> int {
    binary32().size(x.num())
}

/// The squares of the first `k` sizes, added up exactly.
pub open spec fn exact_squares(a: Seq<Single>, k: nat) -> int
    decreases k,
{
    if k == 0 {
        0
    } else {
        exact_squares(a, (k - 1) as nat) + size_of(a[k - 1]) * size_of(a[k - 1])
    }
}

/// The rounded sum of squares is close to the exact one.
proof fn lemma_sum_close(start: Double, a: Seq<Single>, k: nat)
    requires
        is_zero(start),
        k <= a.len(),
        forall|i: int| 0 <= i < a.len() ==> (#[trigger] a[i]).finite(),
        square_sum(start, a, k).finite(),
    ensures
        ({
            let s = binary64().size(square_sum(start, a, k).num());
            &&& s >= 0
            &&& 0x20_0000_0000_0000 * distance(s, exact_squares(a, k) * pow2(776)) <= k * s
        }),
    decreases k,
{
    lemma_double_format();
    let f = binary64();
    let w = pow2(776) as int;
    let now = square_sum(start, a, k).num();
    lemma_sizes_grow(f, now, now);
    if k == 0 {
        crate::float::arith::lemma_zero_units(53);
        assert(0 * w == 0);
    } else {
        let j = (k - 1) as nat;
        assert forall|i: int| 0 <= i < k implies !(#[trigger] a[i]).nan() by {
            assert(a[i].finite());
        }
        lemma_square_sum(start, a, j);
        let x = a[j as int];
        lemma_square_exact(x);
        let before = square_sum(start, a, j).num();
        let q = squares(a)[j as int].num();
        if j == 0 {
            lemma_sum_with_zero(f, q, before);
        } else {
            law_sum_covers_its_terms(f, before, q);
        }
        lemma_of_num(f.plus(before, q));
        assert(now == f.plus(before, q));
        assert(before.magnitude <= now.magnitude);
        lemma_sum_close(start, a, j);
        lemma_sizes_grow(f, before, now);
        lemma_sizes_grow(f, q, q);
        let total = f.size(before) + f.size(q);
        let s = f.size(now);
        assert(0x20_0000_0000_0000 * distance(s, total) <= s) by {
            assert(f.value(before) == f.size(before));
            if total == 0 {
                crate::float::arith::lemma_zero_units(53);
            } else {
                let top = f.top as int;
                lemma_nearest_exists(53, top, total, 1);
                let b = nearest(53, top, total, 1);
                assert(b == now.magnitude);
                law_rounding_is_close(53, top, total, 1, b);
                vstd::arithmetic::power2::lemma2_to64();
                vstd::arithmetic::power2::lemma2_to64_rest();
                assert(units(53, b) * 1 == s);
            }
        }
        let exact = exact_squares(a, j);
        let square = size_of(x) * size_of(x);
        assert((exact + square) * w == exact * w + square * w) by (nonlinear_arith);
        let sb = f.size(before);
        assert(j * sb <= j * s) by (nonlinear_arith)
            requires
                sb <= s,
                j >= 0,
        ;
        assert(k * s == j * s + s) by (nonlinear_arith)
            requires
                k == j + 1,
        ;
    }
}

/// A rounded root is close to the exact one.
proof fn lemma_root_close(radicand: int, b: int)
    requires
        radicand >= 0,
        b == nearest_root(53, binary64().top as int, radicand),
        b < binary64().top,
        gap_exponent(53, b) > 0,
    ensures
        0x8_0000_0000_0000 * distance(units(53, b) * units(53, b), radicand) <= units(53, b)
            * units(53, b),
{
    lemma_double_format();
    let top = binary64().top as int;
    lemma_root_exists(53, top, radicand);
    let r = units(53, b);
    lemma_half_span(53);
    let h = half_span(53);
    vstd::arithmetic::power2::lemma2_to64();
    vstd::arithmetic::power2::lemma2_to64_rest();
    assert(h == 0x10_0000_0000_0000);
    assert(b >= h);
    let g = pow2(gap_exponent(53, b)) as int;
    let l = pow2(gap_exponent(53, b - 1)) as int;
    lemma_units_step(53, b);
    lemma_units_step(53, b - 1);
    lemma_pow2_pos(gap_exponent(53, b));
    lemma_pow2_pos(gap_exponent(53, b - 1));
    crate::float::close::lemma_gaps_grow(53, b - 1, b);
    lemma_split(53, b);
    assert(0x10_0000_0000_0000 * g <= r) by (nonlinear_arith)
        requires
            r == significand(53, b) * g,
            significand(53, b) >= 0x10_0000_0000_0000,
            g > 0,
    ;
    let square = r * r;
    let cross = r * g;
    let small = g * g;
    assert((r + (r + g)) * (r + (r + g)) == 4 * square + 4 * cross + small) by (nonlinear_arith)
        requires
            square == r * r,
            cross == r * g,
            small == g * g,
    ;
    let low = (r - l) + r;
    assert(low * low >= 4 * square - 4 * cross) by (nonlinear_arith)
        requires
            low == 2 * r - l,
            0 < l <= g,
            0 <= r,
            square == r * r,
            cross == r * g,
    ;
    assert(0x10_0000_0000_0000 * cross <= square) by (nonlinear_arith)
        requires
            0x10_0000_0000_0000 * g <= r,
            cross == r * g,
            square == r * r,
            r >= 0,
    ;
    assert(small <= cross) by (nonlinear_arith)
        requires
            small == g * g,
            cross == r * g,
            g <= r,
            g > 0,
    ;
    assert(small >= 0 && cross >= 0) by (nonlinear_arith)
        requires
            small == g * g,
            cross == r * g,
            g > 0,
            r >= 0,
    ;
}

/// From `2^24 |x - y| <= x` to the squares.
proof fn lemma_squares_close(x: int, y: int)
    requires
        x >= 0,
        y >= 0,
        0x100_0000 * distance(x, y) <= x,
    ensures
        0x200_0000 * distance(x * x, y * y) <= 5 * (x * x),
{
    let e = distance(x, y);
    assert(y <= x + e && e <= x);
    assert(distance(x * x, y * y) == e * (x + y)) by (nonlinear_arith)
        requires
            e == distance(x, y),
            x >= 0,
            y >= 0,
    ;
    let square = x * x;
    let cross = e * x;
    let small = e * e;
    assert(e * (x + y) <= 2 * cross + small) by (nonlinear_arith)
        requires
            y <= x + e,
            e >= 0,
            cross == e * x,
            small == e * e,
    ;
    assert(0x100_0000 * cross <= square) by (nonlinear_arith)
        requires
            0x100_0000 * e <= x,
            cross == e * x,
            square == x * x,
            x >= 0,
    ;
    assert(0x100_0000 * small <= cross) by (nonlinear_arith)
        requires
            0x100_0000 * e <= x,
            cross == e * x,
            small == e * e,
            e >= 0,
    ;
    assert(small >= 0 && cross >= 0) by (nonlinear_arith)
        requires
            small == e * e,
            cross == e * x,
            e >= 0,
            x >= 0,
    ;
}

/// The square of a computed norm is close to the exact sum of squares.
proof fn lemma_norm_close(start: Double, a: Seq<Single>)
    requires
        is_zero(start),
        0 < a.len() <= 256,
        forall|i: int| 0 <= i < a.len() ==> (#[trigger] a[i]).finite(),
        norm_from(start, a).finite(),
        norm_from(start, a).num().magnitude >= 0x100_0000,
    ensures
        ({
            let n = size_of(norm_from(start, a));
            0x40_0000 * distance(n * n, exact_squares(a, a.len())) <= n * n
        }),
{
    lemma_double_format();
    lemma_single_format();
    let f = binary64();
    let k = a.len();
    let sum = square_sum(start, a, k);
    let s = sum.num();
    assert forall|i: int| 0 <= i < k implies !(#[trigger] a[i]).nan() by {
        assert(a[i].finite());
    }
    lemma_square_sum(start, a, k);
    let root = f.root(s);
    let n = norm_from(start, a).num();
    lemma_norm_covers(start, a);
    lemma_sizes_grow(f, s, s);
    let p = pow2(1074) as int;
    let q = pow2(149) as int;
    let w = pow2(776) as int;
    lemma_pow2_pos(1074);
    lemma_pow2_pos(149);
    lemma_pow2_pos(776);
    assert(f.size(s) * p >= 0) by (nonlinear_arith)
        requires
            f.size(s) >= 0,
            p > 0,
    ;
    lemma_root_exists(53, f.top as int, f.size(s) * p);
    lemma_of_num(root);
    assert(sum.root().num() == root);
    assert(plain(f, root));
    law_conversion_is_monotone(f, binary32(), root, root);
    assert(n == f.converted(binary32(), root));
    // neither infinite nor zero
    assert(sum.finite()) by {
        if f.is_infinite(s) {
            assert(root == s);
        }
    }
    assert(f.is_finite(root));
    let r = f.size(root);
    lemma_sizes_grow(f, root, root);
    let top = binary32().top as int;
    assert(r * q >= 0) by (nonlinear_arith)
        requires
            r >= 0,
            q > 0,
    ;
    lemma_nearest_exists(24, top, r * q, p);
    let b = nearest(24, top, r * q, p);
    assert(n.magnitude == b);
    vstd::arithmetic::power2::lemma2_to64();
    vstd::arithmetic::power2::lemma2_to64_rest();
    assert(half_span(24) == 0x80_0000);
    assert(gap_exponent(24, b) > 0) by {
        assert(b / 0x80_0000 >= 2) by (nonlinear_arith)
            requires
                b >= 0x100_0000,
        ;
    }
    law_rounding_is_close(24, top, r * q, p, b);
    let size = size_of(norm_from(start, a));
    assert(size == units(24, b));
    lemma_split(24, b);
    lemma_pow2_pos(gap_exponent(24, b));
    assert(size >= 0x80_0000) by (nonlinear_arith)
        requires
            size == significand(24, b) * pow2(gap_exponent(24, b)),
            significand(24, b) >= 0x80_0000,
            pow2(gap_exponent(24, b)) >= 1,
    ;
    let x = size * p;
    let y = r * q;
    assert(0x100_0000 * distance(x, y) <= x);
    assert(x >= 0) by (nonlinear_arith)
        requires
            x == size * p,
            size >= 0,
            p > 0,
    ;
    lemma_squares_close(x, y);
    // the root is far from the smallest numbers
    let c = root.magnitude as int;
    assert(gap_exponent(53, c) > 0) by {
        if gap_exponent(53, c) == 0 {
            lemma_split(53, c);
            lemma_half_span(53);
            assert(units(53, c) == significand(53, c) * 1);
            assert(r < 0x20_0000_0000_0000);
            lemma_pow2_adds(149, 925);
            lemma_pow2_strictly_increases(64, 925);
            let t = pow2(925) as int;
            assert(y < 0x20_0000_0000_0000 * q) by (nonlinear_arith)
                requires
                    y == r * q,
                    r < 0x20_0000_0000_0000,
                    q > 0,
            ;
            assert(x >= 0x80_0000_0000_0000_0000_0000 * q) by (nonlinear_arith)
                requires
                    x == size * p,
                    p == q * t,
                    size >= 0x80_0000,
                    t >= 0x1_0000_0000_0000_0000,
                    q > 0,
            ;
            assert(0x100_0000 * (x - y) <= x);
            assert(0xff_ffff * x <= 0x100_0000 * y);
            assert(0xff_ffff * x >= 0xff_ffff * (0x80_0000_0000_0000_0000_0000 * q));
        }
    }
    assert(s.magnitude > 0) by {
        if s.magnitude == 0 {
            assert(root == s);
            crate::float::arith::lemma_zero_units(53);
            assert(0 * q == 0);
        }
    }
    lemma_root_close(f.size(s) * p, c);
    lemma_sum_close(start, a, k);
    // all on one scale
    let exact = exact_squares(a, k);
    let sx = f.size(s);
    lemma_pow2_adds(776, 1074);
    lemma_pow2_adds(149, 149);
    lemma_pow2_adds(1850, 298);
    lemma_pow2_adds(1074, 1074);
    assert(w * p * (q * q) == p * p);
    let scale = p * (q * q);
    let x1 = exact * (p * p);
    let x2 = sx * scale;
    let x3 = y * y;
    let x4 = x * x;
    assert(q * q > 0) by (nonlinear_arith)
        requires
            q > 0,
    ;
    assert(scale > 0) by (nonlinear_arith)
        requires
            scale == p * (q * q),
            p > 0,
            q * q > 0,
    ;
    assert(k * sx <= 256 * sx) by (nonlinear_arith)
        requires
            k <= 256,
            sx >= 0,
    ;
    let ew = exact * w;
    assert(0x2000_0000_0000 * distance(x2, x1) <= x2) by {
        assert(x1 == ew * scale) by (nonlinear_arith)
            requires
                x1 == exact * (p * p),
                ew == exact * w,
                scale == p * (q * q),
                w * p * (q * q) == p * p,
        ;
        lemma_scaled(0x2000_0000_0000, sx, ew, scale);
    }
    let rr = r * r;
    let sp = sx * p;
    assert(0x8_0000_0000_0000 * distance(x3, x2) <= x3) by {
        assert(x3 == rr * (q * q)) by (nonlinear_arith)
            requires
                x3 == y * y,
                y == r * q,
                rr == r * r,
        ;
        assert(x2 == sp * (q * q)) by (nonlinear_arith)
            requires
                x2 == sx * scale,
                scale == p * (q * q),
                sp == sx * p,
        ;
        lemma_scaled(0x8_0000_0000_0000, rr, sp, q * q);
    }
    assert(0x200_0000 * distance(x4, x3) <= 5 * x4);
    assert(x4 >= 0) by (nonlinear_arith)
        requires
            x4 == x * x,
    ;
    assert(0x40_0000 * distance(x4, x1) <= x4);
    let nn = size * size;
    assert(x4 == nn * (p * p)) by (nonlinear_arith)
        requires
            x4 == x * x,
            x == size * p,
            nn == size * size,
    ;
    assert(p * p > 0) by (nonlinear_arith)
        requires
            p > 0,
    ;
    lemma_unscaled(0x40_0000, nn, exact, p * p);
}

/// Scaling two numbers keeps how close they are.
proof fn lemma_scaled(factor: int, x: int, y: int, scale: int)
    requires
        factor * distance(x, y) <= x,
        scale > 0,
        factor > 0,
    ensures
        factor * distance(x * scale, y * scale) <= x * scale,
{
    let e = distance(x, y);
    assert(distance(x * scale, y * scale) == e * scale) by (nonlinear_arith)
        requires
            e == distance(x, y),
            scale > 0,
    ;
    assert(factor * (e * scale) <= x * scale) by (nonlinear_arith)
        requires
            factor * e <= x,
            scale > 0,
    ;
}

proof fn lemma_unscaled(factor: int, x: int, y: int, scale: int)
    requires
        factor * distance(x * scale, y * scale) <= x * scale,
        scale > 0,
        factor > 0,
    ensures
        factor * distance(x, y) <= x,
{
    let e = distance(x, y);
    assert(distance(x * scale, y * scale) == e * scale) by (nonlinear_arith)
        requires
            e == distance(x, y),
            scale > 0,
    ;
    assert(factor * e <= x) by (nonlinear_arith)
        requires
            factor * (e * scale) <= x * scale,
            scale > 0,
    ;
}

/// One component of an embedding, against the quotient that it rounds.
pub proof fn lemma_component_close(raw: Seq<Single>, i: int)
    requires
        has_direction(raw),
        0 <= i < raw.len(),
    ensures
        ({
            let n = size_of(norm(raw));
            let x = size_of(direction(raw)[i]) * n;
            let y = size_of(raw[i]) * pow2(149);
            &&& n > 0
            &&& 0 <= size_of(direction(raw)[i]) <= pow2(149)
            &&& y >= 0
            &&& 0x100_0000 * distance(x, y) <= x + 0x80_0000 * n
        }),
{
    lemma_single_format();
    let f = binary32();
    let top = f.top as int;
    lemma_norm_covers(Double::minus_zero_spec(), raw);
    law_components_are_at_most_one(raw);
    lemma_one();
    let n = norm(raw).num();
    let c = direction(raw)[i];
    let x = raw[i].num();
    lemma_sizes_grow(f, n, n);
    lemma_sizes_grow(f, x, x);
    lemma_sizes_grow(f, c.num(), Num { negative: false, magnitude: 0x3f80_0000 });
    let q = pow2(149) as int;
    lemma_pow2_pos(149);
    let num = f.size(x) * q;
    assert(num >= 0) by (nonlinear_arith)
        requires
            num == f.size(x) * q,
            f.size(x) >= 0,
            q > 0,
    ;
    lemma_nearest_exists(24, top, num, f.size(n));
    let b = nearest(24, top, num, f.size(n));
    assert(c.num().magnitude == b);
    law_rounding_is_close(24, top, num, f.size(n), b);
    vstd::arithmetic::power2::lemma2_to64();
    let d = units(24, b);
    assert(d * f.size(n) >= 0) by (nonlinear_arith)
        requires
            d >= 0,
            f.size(n) >= 0,
    ;
    if gap_exponent(24, b) == 0 {
        assert(1 * f.size(n) == f.size(n));
    }
}

/// The squares of one component and of its quotient.
proof fn lemma_term_close(x: int, y: int, z: int, limit: int)
    requires
        0 <= x <= limit,
        y >= 0,
        0 < z <= limit,
        0x100_0000 * distance(x, y) <= x + z,
    ensures
        0x1_0000_0000_0000 * distance(x * x, y * y) <= 0x400_0000 * (x * x) + 0x800_0000 * (limit
            * z),
{
    let e = distance(x, y);
    assert(distance(x * x, y * y) == e * (x + y)) by (nonlinear_arith)
        requires
            e == distance(x, y),
            x >= 0,
            y >= 0,
    ;
    let v = x + z;
    assert(0x100_0000 * (x + y) <= 0x200_0001 * v);
    let product = e * (x + y);
    assert(0x1_0000_0000_0000 * product <= v * (0x200_0000 * x + v)) by (nonlinear_arith)
        requires
            product == e * (x + y),
            0x100_0000 * e <= v,
            y <= x + e,
            e >= 0,
            x >= 0,
            v >= 0,
    ;
    assert(v * (0x200_0000 * x + v) <= 0x400_0000 * (x * x) + 0x800_0000 * (limit * z))
        by (nonlinear_arith)
        requires
            v == x + z,
            0 <= x <= limit,
            0 < z <= limit,
    ;
}

/// The squares of all components, against those of the quotients.
proof fn lemma_terms_close(raw: Seq<Single>, k: nat)
    requires
        has_direction(raw),
        k <= raw.len(),
    ensures
        ({
            let n = size_of(norm(raw));
            let q = pow2(149) as int;
            let b = exact_squares(direction(raw), k) * (n * n);
            let a = exact_squares(raw, k) * (q * q);
            &&& b >= 0
            &&& a >= 0
            &&& 0x1_0000_0000_0000 * distance(b, a) <= 0x400_0000 * b + k * (0x800_0000 * ((q * n)
                * (0x80_0000 * n)))
        }),
    decreases k,
{
    let n = size_of(norm(raw));
    let q = pow2(149) as int;
    let t = 0x800_0000 * ((q * n) * (0x80_0000 * n));
    if k == 0 {
        assert(0 * (n * n) == 0 && 0 * (q * q) == 0 && 0 * t == 0) by (nonlinear_arith);
    } else {
        let j = (k - 1) as nat;
        lemma_terms_close(raw, j);
        lemma_component_close(raw, j as int);
        let d = size_of(direction(raw)[j as int]);
        let c = size_of(raw[j as int]);
        let x = d * n;
        let y = c * q;
        vstd::arithmetic::power2::lemma2_to64();
        lemma_pow2_strictly_increases(23, 149);
        assert(0 <= x <= q * n) by (nonlinear_arith)
            requires
                x == d * n,
                0 <= d <= q,
                n > 0,
        ;
        assert(0x80_0000 * n <= q * n) by (nonlinear_arith)
            requires
                0x80_0000 <= q,
                n > 0,
        ;
        lemma_term_close(x, y, 0x80_0000 * n, q * n);
        let b0 = exact_squares(direction(raw), j);
        let a0 = exact_squares(raw, j);
        assert((b0 + d * d) * (n * n) == b0 * (n * n) + x * x) by (nonlinear_arith)
            requires
                x == d * n,
        ;
        assert((a0 + c * c) * (q * q) == a0 * (q * q) + y * y) by (nonlinear_arith)
            requires
                y == c * q,
        ;
        assert(k * t == j * t + t) by (nonlinear_arith)
            requires
                k == j + 1,
        ;
        assert(x * x >= 0 && y * y >= 0) by (nonlinear_arith);
    }
}

/// The exact squares of the components of an embedding add up to one, up to rounding.
pub proof fn lemma_squares_near_one(raw: Seq<Single>)
    requires
        0 < raw.len() <= 256,
        has_direction(raw),
    ensures
        ({
            let b = exact_squares(direction(raw), raw.len());
            let qq = pow2(149) * pow2(149);
            0x10_0000_0000_0000 * distance(b, qq as int) <= 0x4000_0000 * b + 0x4000_0001 * qq
        }),
{
    lemma_single_format();
    let start = Double::minus_zero_spec();
    let c = direction(raw);
    let k = raw.len();
    lemma_norm_covers(start, raw);
    assert(norm(raw).num().magnitude >= 0x100_0000);
    lemma_norm_close(start, raw);
    lemma_terms_close(raw, k);
    lemma_component_close(raw, 0);
    let n = size_of(norm(raw));
    let q = pow2(149) as int;
    lemma_pow2_pos(149);
    vstd::arithmetic::power2::lemma2_to64();
    vstd::arithmetic::power2::lemma2_to64_rest();
    let a = exact_squares(raw, k);
    let b = exact_squares(c, k);
    let nn = n * n;
    let qq = q * q;
    assert(nn > 0) by (nonlinear_arith)
        requires
            nn == n * n,
            n > 0,
    ;
    assert(qq > 0) by (nonlinear_arith)
        requires
            qq == q * q,
            q > 0,
    ;
    // all against the square of one
    lemma_scaled(0x40_0000, nn, a, qq);
    let t = 0x800_0000 * ((q * n) * (0x80_0000 * n));
    let qn = q * nn;
    assert(t == 0x4_0000_0000_0000 * qn) by (nonlinear_arith)
        requires
            t == 0x800_0000 * ((q * n) * (0x80_0000 * n)),
            qn == q * nn,
            nn == n * n,
    ;
    assert(k * t <= 256 * t) by (nonlinear_arith)
        requires
            k <= 256,
            t == 0x4_0000_0000_0000 * qn,
            qn >= 0,
    ;
    lemma_pow2_adds(64, 85);
    lemma_pow2_adds(64, 21);
    let bn = b * nn;
    let aq = a * qq;
    let nq = nn * qq;
    assert(qn * 0x1_0000_0000_0000_0000 <= nq) by (nonlinear_arith)
        requires
            qn == q * nn,
            nq == nn * qq,
            qq == q * q,
            q >= 0x1_0000_0000_0000_0000,
            nn > 0,
    ;
    assert(0x10_0000_0000_0000 * distance(bn, aq) <= 0x4000_0000 * bn + nq);
    assert(0x40_0000 * distance(nq, aq) <= nq);
    assert(0x10_0000_0000_0000 * distance(bn, nq) <= 0x4000_0000 * bn + 0x4000_0001 * nq);
    let qqnn = qq * nn;
    assert(nq == qqnn) by (nonlinear_arith)
        requires
            nq == nn * qq,
            qqnn == qq * nn,
    ;
    assert(0x10_0000_0000_0000 * distance(b, qq) <= 0x4000_0000 * b + 0x4000_0001 * qq) by {
        let far = distance(b, qq);
        assert(distance(bn, qqnn) == far * nn) by (nonlinear_arith)
            requires
                far == distance(b, qq),
                bn == b * nn,
                qqnn == qq * nn,
                nn > 0,
        ;
        assert(0x10_0000_0000_0000 * far <= 0x4000_0000 * b + 0x4000_0001 * qq) by (nonlinear_arith)
            requires
                0x10_0000_0000_0000 * (far * nn) <= 0x4000_0000 * (b * nn) + 0x4000_0001 * (qq
                    * nn),
                nn > 0,
        ;
    }
}

/// The length of an embedding made from a vector with a direction is one, up to
/// `2^-20`.
pub proof fn law_embeddings_have_unit_norm(raw: Seq<Single>, e: Embedding)
    requires
        raw.len() == EMBEDDING_DIM,
        has_direction(raw),
        e.components() == direction(raw),
    ensures
        norm(e.components()).finite(),
        !norm(e.components()).num().negative,
        0x10_0000 * distance(size_of(norm(e.components())), pow2(149) as int) <= pow2(149),
{
    lemma_single_format();
    let start = Double::minus_zero_spec();
    let c = direction(raw);
    let k = raw.len();
    law_components_are_at_most_one(raw);
    let largest = lemma_some_component(raw);
    assert forall|i: int| 0 <= i < c.len() implies (#[trigger] c[i]).finite() by {}
    lemma_norm_covers(start, c);
    assert(c[largest].num().magnitude <= norm(c).num().magnitude);
    assert forall|i: int| 0 <= i < c.len() implies size_of(#[trigger] c[i]) <= pow2(149) by {
        lemma_component_close(raw, i);
    }
    lemma_norm_bounded(start, c, 149);
    lemma_norm_close(start, c);
    lemma_squares_near_one(raw);
    let m = size_of(norm(c));
    let q = pow2(149) as int;
    lemma_pow2_pos(149);
    let b = exact_squares(c, k);
    let qq = q * q;
    let mm = m * m;
    assert(qq > 0) by (nonlinear_arith)
        requires
            qq == q * q,
            q > 0,
    ;
    assert(0x40_0000 * distance(mm, b) <= mm);
    assert(0x10_0000 * distance(mm, qq) <= qq);
    let far = distance(m, q);
    lemma_sizes_grow(binary32(), norm(c).num(), norm(c).num());
    assert(0x10_0000 * far <= q) by (nonlinear_arith)
        requires
            0x10_0000 * distance(mm, qq) <= qq,
            far == distance(m, q),
            mm == m * m,
            qq == q * q,
            m >= 0,
            q > 0,
    ;
}

} // verus!
