//! What holds of every embedding.

use vstd::arithmetic::power2::{lemma_pow2_adds, lemma_pow2_pos, lemma_pow2_strictly_increases, pow2};
use vstd::prelude::*;
use crate::cluster::offline::{embedding_error, is_finite};
use crate::embed::options::EMBEDDING_DIM;
use crate::embed::types::{direction, dot, has_direction, norm, norm_epsilon, norm_from, products, squares, Embedding};
use crate::float::arith::Num;
use crate::float::double::{binary64, lemma_double_format, Double};
use crate::float::exact::{is_place, lemma_place, lemma_root_of_square, lemma_square_exact, place, scale, whole};
use crate::float::grid::{half_span, lemma_parts, lemma_representable, units};
use crate::float::laws::{law_conversion_is_monotone, law_root_is_monotone, law_sum_covers_its_terms, law_sum_is_monotone, lemma_quotient_bound, lemma_root_exact, lemma_root_monotone, lemma_sizes_grow, lemma_sum_with_zero, plain};
use crate::float::order::lemma_of_num;
use crate::float::rounding::{digits, lemma_digits};
use crate::float::single::{binary32, lemma_single_format, Single};
use crate::float::sums::added;

verus! {

/// The two zeros.
pub open spec fn is_zero(x: Double) -> bool {
    x.num().magnitude == 0
}

/// The sum of the first `k` squares.
pub open spec fn square_sum(start: Double, a: Seq<Single>, k: nat) -> Double {
    added(start, squares(a), k)
}

/// A square is not negative, and NaN or infinite only for such a component.
pub proof fn lemma_square(x: Single)
    ensures
        ({
            let q = x.widened().times(x.widened()).num();
            &&& q.magnitude < 0x8000_0000_0000_0000
            &&& binary64().is_nan(q) <==> x.nan()
            &&& !x.nan() ==> plain(binary64(), q)
            &&& !x.nan() && !x.finite() ==> q.magnitude == binary64().top
            &&& x.finite() ==> binary64().is_finite(q)
        }),
{
    lemma_double_format();
    lemma_single_format();
    let w = binary32().converted(binary64(), x.num());
    if x.finite() {
        lemma_square_exact(x);
    } else {
        lemma_of_num(w);
        lemma_of_num(binary64().times(w, w));
    }
}

/// A sum of squares: NaN where a component is, and otherwise no smaller than any
/// of the squares.
pub proof fn lemma_square_sum(start: Double, a: Seq<Single>, k: nat)
    requires
        is_zero(start),
        k <= a.len(),
    ensures
        ({
            let s = square_sum(start, a, k).num();
            &&& (exists|i: int| 0 <= i < k && (#[trigger] a[i]).nan()) ==> binary64().is_nan(s)
            &&& (forall|i: int| 0 <= i < k ==> !(#[trigger] a[i]).nan()) ==> {
                &&& !binary64().is_nan(s)
                &&& k > 0 ==> !s.negative
                &&& k == 0 ==> s.magnitude == 0
                &&& forall|i: int|
                    0 <= i < k ==> (#[trigger] squares(a)[i]).num().magnitude <= s.magnitude
            }
        }),
    decreases k,
{
    lemma_double_format();
    if k > 0 {
        let j = (k - 1) as nat;
        lemma_square_sum(start, a, j);
        lemma_square(a[j as int]);
        let s = square_sum(start, a, j).num();
        let q = squares(a)[j as int].num();
        let f = binary64();
        if f.is_nan(s) || f.is_nan(q) {
            lemma_of_num(f.plus(s, q));
            if forall|i: int| 0 <= i < k ==> !(#[trigger] a[i]).nan() {
                assert(!a[j as int].nan());
            }
        } else {
            assert(!a[j as int].nan());
            assert forall|i: int| 0 <= i < k implies !(#[trigger] a[i]).nan() by {
                if i < j && a[i].nan() {
                    assert(f.is_nan(s));
                }
            }
            if j == 0 {
                lemma_sum_with_zero(f, q, s);
            } else {
                law_sum_covers_its_terms(f, s, q);
            }
            lemma_of_num(f.plus(s, q));
            let t = square_sum(start, a, k).num();
            assert forall|i: int| 0 <= i < k implies (#[trigger] squares(a)[i]).num().magnitude
                <= t.magnitude by {
                if i < j {
                    assert(squares(a)[i].num().magnitude <= s.magnitude);
                }
            }
        }
    }
}

/// A norm that is finite has finite components, none larger than the norm.
pub proof fn lemma_norm_covers(start: Double, a: Seq<Single>)
    requires
        is_zero(start),
        a.len() > 0,
    ensures
        ({
            let n = norm_from(start, a);
            &&& n.finite() ==> forall|i: int| 0 <= i < a.len() ==> (#[trigger] a[i]).finite()
            &&& (forall|i: int| 0 <= i < a.len() ==> (#[trigger] a[i]).finite()) ==> {
                &&& !n.nan()
                &&& !n.num().negative
                &&& forall|i: int|
                    0 <= i < a.len() ==> (#[trigger] a[i]).num().magnitude <= n.num().magnitude
            }
        }),
{
    lemma_double_format();
    lemma_single_format();
    let f = binary64();
    let s = square_sum(start, a, a.len()).num();
    lemma_square_sum(start, a, a.len());
    let n = norm_from(start, a);
    if exists|i: int| 0 <= i < a.len() && (#[trigger] a[i]).nan() {
        let i = choose|i: int| 0 <= i < a.len() && (#[trigger] a[i]).nan();
        assert(!a[i].finite());
        lemma_of_num(f.root(s));
        assert(f.is_nan(f.root(s)));
        assert(!n.finite());
    } else {
        assert(plain(f, s));
        assert forall|i: int| 0 <= i < a.len() implies (if (#[trigger] a[i]).finite() {
            !n.nan() && !n.num().negative && a[i].num().magnitude <= n.num().magnitude
        } else {
            !n.finite()
        }) by {
            let q = squares(a)[i].num();
            lemma_square(a[i]);
            law_root_is_monotone(f, q, s);
            lemma_of_num(f.root(s));
            lemma_of_num(f.root(q));
            law_conversion_is_monotone(f, binary32(), f.root(q), f.root(s));
            if a[i].finite() {
                lemma_root_of_square(a[i]);
            } else {
                assert(f.is_infinite(s));
                assert(f.root(s) == s);
            }
        }
        if n.finite() {
            assert forall|i: int| 0 <= i < a.len() implies (#[trigger] a[i]).finite() by {}
        }
    }
}

/// The magnitude of one and its size.
pub proof fn lemma_one()
    ensures
        binary32().size(Num { negative: false, magnitude: 0x3f80_0000 }) == pow2(149),
{
    vstd::arithmetic::power2::lemma2_to64();
    assert(half_span(24) == 0x80_0000);
    lemma_parts(24, 126, 0x80_0000);
    lemma_pow2_adds(23, 126);
}

/// The magnitude of `1/32` and its size.
proof fn lemma_one_part()
    ensures
        binary32().size(Num { negative: false, magnitude: 0x3d00_0000 }) == pow2(144),
{
    vstd::arithmetic::power2::lemma2_to64();
    assert(half_span(24) == 0x80_0000);
    lemma_parts(24, 121, 0x80_0000);
    lemma_pow2_adds(23, 121);
}

/// Every component of an embedding is a number from -1 to 1.
pub proof fn law_components_are_at_most_one(raw: Seq<Single>)
    requires
        has_direction(raw),
        raw.len() > 0,
    ensures
        forall|i: int|
            0 <= i < raw.len() ==> {
                let c = #[trigger] direction(raw)[i];
                c.finite() && c.absolute().at_most(Single::one_spec())
            },
{
    lemma_single_format();
    let f = binary32();
    let start = Double::minus_zero_spec();
    let n = norm(raw);
    lemma_norm_covers(start, raw);
    lemma_one();
    let one = Num { negative: false, magnitude: 0x3f80_0000 };
    assert forall|i: int| 0 <= i < raw.len() implies {
        let c = #[trigger] direction(raw)[i];
        c.finite() && c.absolute().at_most(Single::one_spec())
    } by {
        let x = raw[i].num();
        lemma_sizes_grow(f, x, n.num());
        assert(f.size(x) * pow2(149) <= f.size(one) * f.size(n.num())) by (nonlinear_arith)
            requires
                f.size(x) <= f.size(n.num()),
                f.size(one) == pow2(149),
        ;
        lemma_quotient_bound(f, x, n.num(), one);
    }
}

/// The position of a component of largest magnitude.
proof fn lemma_largest(a: Seq<Single>, k: nat) -> (j: int)
    requires
        0 < k <= a.len(),
    ensures
        0 <= j < k,
        forall|i: int| 0 <= i < k ==> (#[trigger] a[i]).num().magnitude <= a[j].num().magnitude,
    decreases k,
{
    if k == 1 {
        0
    } else {
        let r = lemma_largest(a, (k - 1) as nat);
        if a[k - 1].num().magnitude > a[r].num().magnitude {
            k - 1
        } else {
            r
        }
    }
}

/// Where every component is below `2^t` units, the sum of `k` squares is at most
/// that of `k` squares of `2^t`.
proof fn lemma_square_sum_bounded(start: Double, a: Seq<Single>, k: nat, t: nat)
    requires
        is_zero(start),
        k <= a.len(),
        k <= 256,
        t <= 300,
        forall|i: int| 0 <= i < a.len() ==> (#[trigger] a[i]).finite(),
        forall|i: int|
            0 <= i < a.len() ==> binary32().size((#[trigger] a[i]).num()) <= pow2(t),
    ensures
        ({
            let s = square_sum(start, a, k).num();
            let e = (2 * t + 776) as nat;
            &&& !binary64().is_nan(s)
            &&& k > 0 ==> !s.negative
            &&& s.magnitude <= place(k, e)
            &&& is_place(k, e, place(k, e))
        }),
    decreases k,
{
    lemma_double_format();
    let f = binary64();
    let e = (2 * t + 776) as nat;
    lemma_place(k, e);
    assert forall|i: int| 0 <= i < k implies !(#[trigger] a[i]).nan() by {
        assert(a[i].finite());
    }
    lemma_square_sum(start, a, k);
    if k > 0 {
        let j = (k - 1) as nat;
        lemma_square_sum_bounded(start, a, j, t);
        lemma_square_sum(start, a, j);
        lemma_place(1, e);
        lemma_place(j, e);
        let x = a[j as int];
        let q = squares(a)[j as int].num();
        lemma_square(x);
        lemma_square_exact(x);
        let size = binary32().size(x.num());
        lemma_single_format();
        lemma_sizes_grow(binary32(), x.num(), x.num());
        lemma_pow2_adds(t, t);
        lemma_pow2_adds((2 * t) as nat, 776);
        lemma_pow2_pos(t);
        lemma_pow2_pos(776);
        assert(size * size <= pow2(t) * pow2(t)) by (nonlinear_arith)
            requires
                0 <= size <= pow2(t),
        ;
        assert(f.size(q) <= pow2(e)) by (nonlinear_arith)
            requires
                f.size(q) == size * size * pow2(776),
                size * size <= pow2(t) * pow2(t),
                pow2(e) == pow2((2 * t) as nat) * pow2(776),
                pow2((2 * t) as nat) == pow2(t) * pow2(t),
                pow2(776) > 0,
        ;
        let unit = Num { negative: false, magnitude: place(1, e) as u64 };
        let before = Num { negative: false, magnitude: place(j, e) as u64 };
        let after = Num { negative: false, magnitude: place(k, e) as u64 };
        assert(1 * pow2(e) == pow2(e));
        if q.magnitude > unit.magnitude {
            lemma_sizes_grow(f, unit, q);
        }
        let s = square_sum(start, a, j).num();
        let s_plain = Num { negative: false, magnitude: s.magnitude };
        assert(j * pow2(e) + pow2(e) == k * pow2(e)) by (nonlinear_arith)
            requires
                k == j + 1,
        ;
        lemma_pow2_pos(e);
        assert(k * pow2(e) > 0) by (nonlinear_arith)
            requires
                k > 0,
                pow2(e) > 0,
        ;
        lemma_representable(53, f.top as int, 1, place(k, e));
        assert(f.plus(before, unit) == after);
        law_sum_is_monotone(f, s_plain, q, before, unit);
        if j == 0 {
            lemma_sum_with_zero(f, q, s);
            lemma_sum_with_zero(f, q, s_plain);
        } else {
            assert(s == s_plain);
        }
        lemma_of_num(f.plus(s, q));
    }
}

/// The size of a power of two in single precision; the last one is that of
/// infinity.
pub proof fn lemma_power_size(m: nat) -> (b: int)
    requires
        m <= 277,
    ensures
        0 <= b <= binary32().top,
        units(24, b) == pow2(m),
{
    vstd::arithmetic::power2::lemma2_to64();
    assert(half_span(24) == 0x80_0000);
    if m <= 23 {
        lemma_pow2_pos(m);
        if m < 23 {
            lemma_pow2_strictly_increases(m, 23);
        }
        lemma_parts(24, 0, pow2(m) as int);
        assert(pow2(m) * 1 == pow2(m));
        pow2(m) as int
    } else {
        let g = (m - 23) as nat;
        lemma_parts(24, g, 0x80_0000);
        lemma_pow2_adds(23, g);
        (g * 0x80_0000 + 0x80_0000) as int
    }
}

/// A norm of at most 256 components up to `2^t` units is at most sixteen times as
/// large, if that is finite.
pub proof fn lemma_norm_bounded(start: Double, a: Seq<Single>, t: nat)
    requires
        is_zero(start),
        0 < a.len() <= 256,
        t <= 300,
        forall|i: int| 0 <= i < a.len() ==> (#[trigger] a[i]).finite(),
        forall|i: int|
            0 <= i < a.len() ==> binary32().size((#[trigger] a[i]).num()) <= pow2(t),
        t + 4 >= 277 ==> norm_from(start, a).finite(),
    ensures
        norm_from(start, a).finite(),
        binary32().size(norm_from(start, a).num()) <= pow2(t + 4),
{
    lemma_double_format();
    lemma_single_format();
    let f = binary64();
    let k = a.len();
    let e = (2 * t + 776) as nat;
    let s = square_sum(start, a, k).num();
    lemma_square_sum_bounded(start, a, k, t);
    lemma_place(k, e);
    let limit = Num { negative: false, magnitude: place(k, e) as u64 };
    lemma_sizes_grow(f, s, limit);
    lemma_sizes_grow(f, s, s);
    let r = (t + 929) as nat;
    lemma_place(1, r);
    let b = place(1, r);
    assert(1 * pow2(r) == pow2(r));
    lemma_pow2_adds(e, 8);
    lemma_pow2_adds((e + 8) as nat, 1074);
    lemma_pow2_adds(r, r);
    lemma_pow2_pos(e);
    lemma_pow2_pos(1074);
    vstd::arithmetic::power2::lemma2_to64();
    assert(k * pow2(e) <= pow2((e + 8) as nat)) by (nonlinear_arith)
        requires
            k <= 256,
            pow2((e + 8) as nat) == pow2(e) * 256,
            pow2(e) > 0,
    ;
    let radicand = f.size(s) * pow2(1074);
    assert(0 <= radicand <= pow2(r) * pow2(r)) by (nonlinear_arith)
        requires
            0 <= f.size(s) <= pow2((e + 8) as nat),
            radicand == f.size(s) * pow2(1074),
            pow2((e + 8 + 1074) as nat) == pow2((e + 8) as nat) * pow2(1074),
            pow2((r + r) as nat) == pow2(r) * pow2(r),
            r + r == e + 8 + 1074,
            pow2(1074) > 0,
    ;
    lemma_root_monotone(53, f.top as int, radicand, units(53, b) * units(53, b));
    lemma_root_exact(53, f.top as int, b);
    let bound = Num { negative: false, magnitude: b as u64 };
    let root = f.root(s);
    lemma_of_num(root);
    assert(root.magnitude <= b);
    assert(plain(f, root));
    law_conversion_is_monotone(f, binary32(), root, bound);
    let n = norm_from(start, a).num();
    assert(n == f.converted(binary32(), root));
    let m = t + 4;
    if m <= 277 {
        let c = lemma_power_size(m);
        lemma_pow2_adds(m, 925);
        lemma_pow2_adds(925, 149);
        assert(f.size(bound) * pow2(149) == units(24, c) * pow2(1074)) by (nonlinear_arith)
            requires
                f.size(bound) == pow2(m) * pow2(925),
                units(24, c) == pow2(m),
                pow2(1074) == pow2(925) * pow2(149),
        ;
        lemma_representable(24, binary32().top as int, pow2(1074) as int, c);
        lemma_sizes_grow(binary32(), n, Num { negative: false, magnitude: c as u64 });
        if m < 277 {
            vstd::arithmetic::power2::lemma2_to64();
            lemma_parts(24, 254, 0x80_0000);
            lemma_pow2_adds(23, 254);
            lemma_pow2_strictly_increases(m, 277);
            assert(c < binary32().top);
        }
    } else {
        let c = lemma_power_size(277);
        vstd::arithmetic::power2::lemma2_to64();
        lemma_parts(24, 254, 0x80_0000);
        lemma_pow2_adds(23, 254);
        lemma_pow2_strictly_increases(277, m);
        lemma_sizes_grow(
            binary32(),
            n,
            Num { negative: false, magnitude: binary32().top },
        );
    }
}

/// Some component of an embedding is at least `1/32`.
pub proof fn lemma_some_component(raw: Seq<Single>) -> (j: int)
    requires
        has_direction(raw),
        0 < raw.len() <= 256,
    ensures
        0 <= j < raw.len(),
        direction(raw)[j].num().magnitude >= 0x3d00_0000,
{
    lemma_single_format();
    let f = binary32();
    let start = Double::minus_zero_spec();
    let n = norm(raw);
    lemma_norm_covers(start, raw);
    let j = lemma_largest(raw, raw.len());
    let x = raw[j];
    let q = whole(x);
    let g = scale(x);
    crate::float::exact::lemma_single_parts(x);
    lemma_sizes_grow(f, x.num(), n.num());
    if x.num().magnitude == 0 {
        assert forall|i: int| 0 <= i < raw.len() implies binary32().size(
            (#[trigger] raw[i]).num(),
        ) <= pow2(0) by {
            lemma_sizes_grow(f, raw[i].num(), x.num());
            lemma_pow2_pos(0);
        }
        lemma_norm_bounded(start, raw, 0);
        vstd::arithmetic::power2::lemma2_to64();
        lemma_parts(24, 0, 16);
        assert(16 * 1 == 16);
        let sixteen = Num { negative: false, magnitude: 16 };
        lemma_sizes_grow(f, sixteen, n.num());
        assert(n.num().magnitude <= 16);
        assert(n.below(norm_epsilon()));
    } else {
        let l = digits(q);
        lemma_digits(q);
        vstd::arithmetic::power2::lemma2_to64();
        if l > 24 {
            lemma_pow2_strictly_increases(24, l);
            if l > 25 {
                lemma_pow2_strictly_increases(24, (l - 1) as nat);
            }
        }
        let t = l + g;
        lemma_pow2_adds(l, g);
        lemma_pow2_adds((l - 1) as nat, g);
        lemma_pow2_pos(g);
        let size = f.size(x.num());
        assert(size <= pow2(t) && pow2((t - 1) as nat) <= size) by (nonlinear_arith)
            requires
                size == q * pow2(g),
                pow2((l - 1) as nat) <= q < pow2(l),
                pow2(t) == pow2(l) * pow2(g),
                pow2((t - 1) as nat) == pow2((l - 1) as nat) * pow2(g),
                pow2(g) > 0,
        ;
        assert forall|i: int| 0 <= i < raw.len() implies binary32().size(
            (#[trigger] raw[i]).num(),
        ) <= pow2(t) by {
            lemma_sizes_grow(f, raw[i].num(), x.num());
        }
        lemma_norm_bounded(start, raw, t);
        let part = Num { negative: false, magnitude: 0x3d00_0000 };
        lemma_one_part();
        lemma_pow2_adds((t - 1) as nat, 5);
        lemma_pow2_adds(144, 5);
        lemma_pow2_pos(144);
        assert(size * pow2(149) >= f.size(part) * f.size(n.num())) by (nonlinear_arith)
            requires
                f.size(part) == pow2(144),
                f.size(n.num()) <= pow2(t + 4),
                pow2(t + 4) == pow2((t - 1) as nat) * 32,
                pow2((t - 1) as nat) <= size,
                pow2(149) == pow2(144) * 32,
                pow2(144) > 0,
        ;
        lemma_quotient_bound(f, x.num(), n.num(), part);
    }
    j
}

/// An embedding made from a vector with a direction has a norm that is not
/// negligible and finite components, so clustering accepts it.
pub proof fn law_embeddings_are_accepted(raw: Seq<Single>, e: Embedding)
    requires
        raw.len() == EMBEDDING_DIM,
        has_direction(raw),
        e.components() == direction(raw),
    ensures
        embedding_error(e) is None,
        !norm(e.components()).below(norm_epsilon()),
{
    lemma_single_format();
    law_components_are_at_most_one(raw);
    let j = lemma_some_component(raw);
    let c = direction(raw);
    assert forall|i: int| 0 <= i < c.len() implies (#[trigger] c[i]).finite() by {}
    lemma_norm_covers(Double::zero_spec(), c);
    lemma_norm_covers(Double::minus_zero_spec(), c);
    assert(c[j].num().magnitude <= norm_from(Double::zero_spec(), c).num().magnitude);
    assert(c[j].num().magnitude <= norm(c).num().magnitude);
    assert(is_finite(e));
}

/// Similarity is symmetric, to the last bit.
pub proof fn law_similarity_is_symmetric(a: Seq<Single>, b: Seq<Single>)
    requires
        a.len() == b.len(),
    ensures
        dot(a, b) == dot(b, a),
{
    assert forall|i: int| 0 <= i < a.len() implies products(a, b)[i] == products(b, a)[i] by {
        let f = binary32();
        let (x, y) = (a[i].num(), b[i].num());
        assert(f.size(x) * f.size(y) == f.size(y) * f.size(x)) by (nonlinear_arith);
    }
    assert(products(a, b) =~= products(b, a));
}

} // verus!
