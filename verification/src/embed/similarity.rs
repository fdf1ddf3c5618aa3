//! The similarity of two embeddings is at most one, up to rounding.

use vstd::arithmetic::power2::{lemma_pow2_adds, lemma_pow2_pos, lemma_pow2_strictly_increases, pow2};
use vstd::prelude::*;
use crate::embed::laws::{law_components_are_at_most_one, lemma_one, lemma_power_size};
use crate::embed::options::EMBEDDING_DIM;
use crate::embed::types::{direction, dot, has_direction, products, Embedding};
use crate::embed::unit_norm::{exact_squares, lemma_component_close, lemma_squares_near_one, size_of};
use crate::float::arith::abs;
use crate::float::close::law_rounding_is_close;
use crate::float::grid::{lemma_representable, nearest, units};
use crate::float::laws::lemma_sizes_grow;
use crate::float::order::{lemma_nearest_exists, lemma_nearest_monotone};
use crate::float::single::{binary32, lemma_single_format, Single};
use crate::float::sums::added_single;

verus! {

/// A rounded value exceeds the exact one by no more than its own last digit, or half a
/// unit.
proof fn lemma_rounded_up(num: int, den: int, b: int)
    requires
        num >= 0,
        den > 0,
        b == nearest(24, binary32().top as int, num, den),
        b < binary32().top,
    ensures
        0xff_ffff * (units(24, b) * den) <= 0x100_0000 * num + 0x80_0000 * den,
        den == 1 ==> 0xff_ffff * units(24, b) <= 0x100_0000 * num,
{
    lemma_single_format();
    let top = binary32().top as int;
    lemma_nearest_exists(24, top, num, den);
    law_rounding_is_close(24, top, num, den, b);
    vstd::arithmetic::power2::lemma2_to64();
    assert(units(24, b) * 1 == units(24, b));
    assert(1 * den == den);
}

/// The rounded product of two components, against the exact one.
proof fn lemma_product(a: Single, b: Single)
    requires
        a.finite(),
        b.finite(),
        size_of(a) <= pow2(149),
        size_of(b) <= pow2(149),
    ensures
        a.times(b).finite(),
        0 <= size_of(a.times(b)) <= pow2(149),
        size_of(a) >= 0,
        size_of(b) >= 0,
        0xff_ffff * (size_of(a.times(b)) * pow2(149)) <= 0x100_0000 * (size_of(a) * size_of(b))
            + 0x80_0000 * pow2(149),
{
    lemma_single_format();
    let f = binary32();
    let top = f.top as int;
    let q = pow2(149) as int;
    lemma_pow2_pos(149);
    lemma_one();
    lemma_sizes_grow(f, a.num(), a.num());
    lemma_sizes_grow(f, b.num(), b.num());
    let x = size_of(a);
    let y = size_of(b);
    assert(0 <= x * y <= q * q) by (nonlinear_arith)
        requires
            0 <= x <= q,
            0 <= y <= q,
    ;
    let one = 0x3f80_0000int;
    assert(units(24, one) == q);
    lemma_representable(24, top, q, one);
    lemma_nearest_monotone(24, top, x * y, q * q, q);
    let r = nearest(24, top, x * y, q);
    assert(r <= one);
    assert(a.times(b).num().magnitude == r);
    lemma_rounded_up(x * y, q, r);
    lemma_sizes_grow(
        f,
        a.times(b).num(),
        crate::float::arith::Num { negative: false, magnitude: 0x3f80_0000 },
    );
}

/// The sizes of the first `k` numbers, added up exactly.
spec fn exact_sizes(values: Seq<Single>, k: nat) -> int
    decreases k,
{
    if k == 0 {
        0
    } else {
        exact_sizes(values, (k - 1) as nat) + size_of(values[k - 1])
    }
}

/// Rounding lets a sum grow by at most two units in the last of 24 digits per term.
proof fn lemma_sum_bounded(values: Seq<Single>, k: nat)
    requires
        k <= values.len(),
        k <= 256,
        forall|i: int|
            0 <= i < values.len() ==> (#[trigger] values[i]).finite() && 0 <= size_of(values[i])
                <= pow2(149),
    ensures
        ({
            let s = added_single(Single::minus_zero_spec(), values, k);
            let p = exact_sizes(values, k);
            &&& s.finite()
            &&& 0 <= p <= k * pow2(149)
            &&& 0 <= size_of(s)
            &&& 0x100_0000 * size_of(s) <= (0x100_0000 + 2 * k) * p
        }),
    decreases k,
{
    lemma_single_format();
    let f = binary32();
    let top = f.top as int;
    let q = pow2(149) as int;
    lemma_pow2_pos(149);
    crate::float::arith::lemma_zero_units(24);
    if k == 0 {
        assert(0 * q == 0);
    } else {
        let j = (k - 1) as nat;
        lemma_sum_bounded(values, j);
        let s0 = added_single(Single::minus_zero_spec(), values, j);
        let v = values[j as int];
        let s = added_single(Single::minus_zero_spec(), values, k);
        let p0 = exact_sizes(values, j);
        let p = exact_sizes(values, k);
        let m0 = size_of(s0);
        let pv = size_of(v);
        assert(k * q == j * q + q) by (nonlinear_arith)
            requires
                k == j + 1,
        ;
        let kp0 = j * p0;
        assert((0x100_0000 + 2 * j) * p0 == 0x100_0000 * p0 + 2 * kp0) by (nonlinear_arith)
            requires
                kp0 == j * p0,
        ;
        assert(0 <= kp0 <= 256 * p0) by (nonlinear_arith)
            requires
                kp0 == j * p0,
                0 <= j <= 256,
                p0 >= 0,
        ;
        assert(j * q <= 256 * q) by (nonlinear_arith)
            requires
                j <= 256,
                q > 0,
        ;
        let total = abs(f.value(s0.num()) + f.value(v.num()));
        assert(0 <= total <= m0 + pv);
        // far from overflow
        let c = lemma_power_size(169);
        vstd::arithmetic::power2::lemma2_to64();
        lemma_pow2_adds(149, 20);
        crate::float::grid::lemma_parts(24, 254, 0x80_0000);
        lemma_pow2_adds(23, 254);
        lemma_pow2_strictly_increases(169, 277);
        assert(c < top);
        assert(total <= units(24, c) * 1);
        lemma_representable(24, top, 1, c);
        lemma_nearest_monotone(24, top, total, units(24, c) * 1, 1);
        let r = nearest(24, top, total, 1);
        let m = size_of(s);
        assert(0xff_ffff * m <= 0x100_0000 * total && s.finite() && m >= 0) by {
            if total == 0 {
                assert(s.num().magnitude == 0);
            } else {
                assert(s.num().magnitude == r);
                lemma_rounded_up(total, 1, r);
                lemma_sizes_grow(f, s.num(), s.num());
            }
        }
        let kp = k * p;
        assert((0x100_0000 + 2 * k) * p == 0x100_0000 * p + 2 * kp) by (nonlinear_arith)
            requires
                kp == k * p,
        ;
        assert(kp == kp0 + p0 + k * pv) by (nonlinear_arith)
            requires
                kp == k * p,
                p == p0 + pv,
                kp0 == j * p0,
                k == j + 1,
        ;
        assert(k * pv >= pv) by (nonlinear_arith)
            requires
                k >= 1,
                pv >= 0,
        ;
        assert(kp <= 256 * p) by (nonlinear_arith)
            requires
                kp == k * p,
                k <= 256,
                p >= 0,
        ;
        // 0xff_ffff m <= 2^24 p + 2 (kp - p)
        assert(0xff_ffff * m <= 0x100_0000 * p + 2 * kp - 2 * p);
        assert(0x100_0000 * m <= 0x100_0000 * p + 2 * kp);
    }
}

/// The sizes of the products, against the squares of the components.
proof fn lemma_products_bounded(a: Seq<Single>, b: Seq<Single>, k: nat)
    requires
        a.len() == b.len(),
        k <= a.len(),
        forall|i: int|
            0 <= i < a.len() ==> (#[trigger] a[i]).finite() && size_of(a[i]) <= pow2(149),
        forall|i: int|
            0 <= i < b.len() ==> (#[trigger] b[i]).finite() && size_of(b[i]) <= pow2(149),
    ensures
        0xff_ffff * (exact_sizes(products(a, b), k) * pow2(149)) <= 0x80_0000 * (exact_squares(a, k)
            + exact_squares(b, k)) + k * (0x80_0000 * pow2(149)),
    decreases k,
{
    let q = pow2(149) as int;
    let t = 0x80_0000 * q;
    if k == 0 {
        assert(0 * q == 0 && 0 * t == 0) by (nonlinear_arith);
    } else {
        let j = (k - 1) as nat;
        lemma_products_bounded(a, b, j);
        lemma_product(a[j as int], b[j as int]);
        let x = size_of(a[j as int]);
        let y = size_of(b[j as int]);
        let p = size_of(products(a, b)[j as int]);
        let p0 = exact_sizes(products(a, b), j);
        assert(2 * (x * y) <= x * x + y * y) by (nonlinear_arith);
        assert((p0 + p) * q == p0 * q + p * q) by (nonlinear_arith);
        assert(k * t == j * t + t) by (nonlinear_arith)
            requires
                k == j + 1,
        ;
    }
}

/// The similarity of two embeddings made from vectors with directions lies between
/// `-1 - 2^-14` and `1 + 2^-14`.
pub proof fn law_similarity_is_bounded(
    raw: Seq<Single>,
    other: Seq<Single>,
    a: Embedding,
    b: Embedding,
)
    requires
        raw.len() == EMBEDDING_DIM,
        other.len() == EMBEDDING_DIM,
        has_direction(raw),
        has_direction(other),
        a.components() == direction(raw),
        b.components() == direction(other),
    ensures
        dot(a.components(), b.components()).finite(),
        0x4000 * size_of(dot(a.components(), b.components())) <= 0x4001 * pow2(149),
{
    lemma_single_format();
    let x = direction(raw);
    let y = direction(other);
    let q = pow2(149) as int;
    lemma_pow2_pos(149);
    law_components_are_at_most_one(raw);
    law_components_are_at_most_one(other);
    assert forall|i: int| 0 <= i < x.len() implies (#[trigger] x[i]).finite() && size_of(x[i])
        <= pow2(149) by {
        lemma_component_close(raw, i);
    }
    assert forall|i: int| 0 <= i < y.len() implies (#[trigger] y[i]).finite() && size_of(y[i])
        <= pow2(149) by {
        lemma_component_close(other, i);
    }
    let terms = products(x, y);
    assert forall|i: int| 0 <= i < terms.len() implies (#[trigger] terms[i]).finite() && 0
        <= size_of(terms[i]) <= pow2(149) by {
        lemma_product(x[i], y[i]);
    }
    let k = terms.len();
    lemma_sum_bounded(terms, k);
    lemma_products_bounded(x, y, k);
    lemma_squares_near_one(raw);
    lemma_squares_near_one(other);
    let p = exact_sizes(terms, k);
    let m = size_of(dot(x, y));
    let qq = q * q;
    let pq = p * q;
    let sx = exact_squares(x, k);
    let sy = exact_squares(y, k);
    vstd::arithmetic::power2::lemma2_to64();
    lemma_pow2_strictly_increases(64, 149);
    assert(q * 0x1_0000_0000_0000_0000 <= qq) by (nonlinear_arith)
        requires
            qq == q * q,
            q >= 0x1_0000_0000_0000_0000,
    ;
    assert(k == 256);
    assert(0xff_ffff * pq <= 0x80_0000 * (sx + sy) + 256 * (0x80_0000 * q));
    assert(0x4_0000 * pq <= 0x4_0001 * qq);
    assert(0x4_0000 * p <= 0x4_0001 * q) by (nonlinear_arith)
        requires
            0x4_0000 * pq <= 0x4_0001 * qq,
            pq == p * q,
            qq == q * q,
            q > 0,
    ;
    assert((0x100_0000 + 2 * 256) * p == 0x100_0200 * p);
    assert(0x100_0000 * m <= 0x100_0200 * p);
}

} // verus!
