//! What powers and band energies are, in exact arithmetic.

use vstd::arithmetic::power2::{lemma_pow2_adds, lemma_pow2_pos, lemma_pow2_strictly_increases, pow2};
use vstd::prelude::*;
use crate::cluster::hungarian::sums::sum;
use crate::embed::dot_laws::{exact_products, single_one};
use crate::embed::fbank::{energy_floor, floored, power_of, powers, wide_dot, wide_products, Complex};
use crate::float::arith::{abs, law_rank_orders_values};
use crate::float::close::lemma_gaps_grow;
use crate::float::error::{law_added_is_close, lemma_sizes, lemma_sizes_sum, lemma_squares_ordered, limit, sizes_of, units_of};
use crate::float::error_single::{law_single_product_is_close, law_single_sum_is_close, lemma_single_of_num, lemma_sum_bounded, lemma_sum_scaled, lemma_sums_close, lemma_widened_units, single_limit, widening};
use crate::float::error_terms::{lemma_sum_of_both, lemma_sum_of_one};
use crate::float::grid::{distance, gap_exponent, half_span, lemma_half_span, lemma_parts, lemma_split, lemma_units_increasing, lemma_units_step, significand, units};
use crate::float::laws::{lemma_root_exact, lemma_root_exists, lemma_root_monotone};
use crate::float::root::nearest_root;
use crate::float::single::{binary32, lemma_single_format, Single};
use crate::float::Double;

verus! {

/// A root is off by at most half a unit in its last of 24 digits: so is its square, by
/// about one unit.
#[verifier::spinoff_prover]
pub proof fn law_single_root_is_close(x: Single)
    requires
        x.finite(),
        0 < x.units() <= pow2(277),
    ensures
        x.root().finite(),
        x.root().units() > 0,
        ({
            let r = x.root().units();
            &&& (0xff_ffff * r) * (0xff_ffff * r) <= 0x1_0000_0000_0000 * (x.units()
                * single_one())
            &&& 0x1_0000_0000_0000 * (x.units() * single_one()) <= (0x100_0001 * r) * (0x100_0001
                * r)
        }),
{
    lemma_single_format();
    let w = single_one();
    lemma_pow2_pos(149);
    let f = binary32();
    let top = f.top as int;
    lemma_sizes(f, x.num());
    let size = f.size(x.num());
    let rad = size * w;
    lemma_half_span(24);
    vstd::arithmetic::power2::lemma2_to64();
    let h = half_span(24);
    assert(h == 0x80_0000);
    // between 2^74 and 2^213
    lemma_parts(24, 190, h);
    lemma_parts(24, 51, h);
    let c = 190 * h + h;
    let low = 51 * h + h;
    lemma_pow2_adds(23, 190);
    lemma_pow2_adds(23, 51);
    lemma_pow2_adds(213, 213);
    lemma_pow2_adds(74, 74);
    lemma_pow2_adds(277, 149);
    lemma_pow2_strictly_increases(148, 149);
    lemma_pow2_strictly_increases(24, 74);
    assert(rad <= pow2(426)) by (nonlinear_arith)
        requires
            rad == size * w,
            size <= pow2(277),
            w == pow2(149),
            w >= 0,
            pow2(426) == pow2(277) * pow2(149),
    ;
    assert(units(24, c) * units(24, c) == pow2(426));
    assert(units(24, low) * units(24, low) == pow2(148));
    assert(w <= rad) by (nonlinear_arith)
        requires
            rad == size * w,
            size >= 1,
            w > 0,
    ;
    lemma_root_exact(24, top, c);
    lemma_root_exact(24, top, low);
    lemma_root_monotone(24, top, rad, units(24, c) * units(24, c));
    lemma_root_monotone(24, top, units(24, low) * units(24, low), rad);
    lemma_root_exists(24, top, rad);
    let b = nearest_root(24, top, rad);
    let u = units(24, b);
    if low < b {
        lemma_units_increasing(24, low, b);
    }
    assert(u >= pow2(74));
    lemma_split(24, b);
    let g = pow2(gap_exponent(24, b)) as int;
    let q = significand(24, b);
    assert(gap_exponent(24, b) > 0) by {
        if gap_exponent(24, b) == 0 {
            assert(u == q * 1);
        }
    }
    assert(u >= h * g) by (nonlinear_arith)
        requires
            u == q * g,
            q >= h,
            g >= 0,
    ;
    lemma_units_step(24, b);
    lemma_units_step(24, b - 1);
    lemma_gaps_grow(24, b - 1, b);
    let l = pow2(gap_exponent(24, b - 1)) as int;
    lemma_pow2_pos(gap_exponent(24, b));
    let high = 2 * u + g;
    let below = 2 * u - l;
    assert(below == units(24, b - 1) + u);
    assert(high == u + units(24, b + 1));
    assert(0 <= h * high <= 0x100_0001 * u) by (nonlinear_arith)
        requires
            high == 2 * u + g,
            u >= h * g,
            h == 0x80_0000,
            g > 0,
            u >= 0,
    ;
    assert(0 <= 0xff_ffff * u <= h * below) by (nonlinear_arith)
        requires
            below == 2 * u - l,
            l <= g,
            u >= h * g,
            h == 0x80_0000,
            u >= 0,
    ;
    lemma_squares_ordered(h * high, 0x100_0001 * u);
    lemma_squares_ordered(0xff_ffff * u, h * below);
    assert((h * high) * (h * high) == h * h * (high * high)) by (nonlinear_arith);
    assert((h * below) * (h * below) == h * h * (below * below)) by (nonlinear_arith);
    assert(h * h * (below * below) <= h * h * (4 * rad) && h * h * (4 * rad) <= h * h * (high
        * high)) by (nonlinear_arith)
        requires
            below * below <= 4 * rad <= high * high,
            h > 0,
    ;
    assert(h * h * (4 * rad) == 0x1_0000_0000_0000 * rad) by (nonlinear_arith)
        requires
            h == 0x80_0000,
    ;
    lemma_single_of_num(f.root(x.num()));
    assert(x.root().units() == u);
}

/// The bound on the square of a root.
proof fn lemma_root_square(r: int, x: int)
    requires
        r >= 0,
        x >= 0,
        (0xff_ffff * r) * (0xff_ffff * r) <= 0x1_0000_0000_0000 * x,
        0x1_0000_0000_0000 * x <= (0x100_0001 * r) * (0x100_0001 * r),
    ensures
        0x40_0000 * distance(r * r, x) <= x,
{
    let rr = r * r;
    assert(0xff_fffe_0000_01 * rr <= 0x1_0000_0000_0000 * x && 0x1_0000_0000_0000 * x
        <= 0x1_0000_0200_0001 * rr) by (nonlinear_arith)
        requires
            rr == r * r,
            (0xff_ffff * r) * (0xff_ffff * r) <= 0x1_0000_0000_0000 * x,
            0x1_0000_0000_0000 * x <= (0x100_0001 * r) * (0x100_0001 * r),
    ;
    assert(rr >= 0) by (nonlinear_arith)
        requires
            rr == r * r,
    ;
}

/// A square of a component.
proof fn lemma_component_square(a: Single)
    requires
        a.finite(),
        abs(a.units()) <= pow2(200),
    ensures
        ({
            let s = a.times(a);
            let t = a.units() * a.units();
            &&& s.finite()
            &&& 0 <= s.units() <= pow2(252)
            &&& 0x40_0000 * distance(s.units() * single_one(), t) <= t + 0x40_0000 * single_one()
            &&& 0 <= t <= pow2(400)
        }),
{
    let u = single_one();
    lemma_pow2_pos(149);
    lemma_pow2_adds(200, 200);
    lemma_pow2_adds(253, 149);
    lemma_pow2_strictly_increases(400, 402);
    lemma_pow2_adds(1, 400);
    lemma_pow2_adds(252, 149);
    lemma_pow2_strictly_increases(149, 400);
    vstd::arithmetic::power2::lemma2_to64();
    let x = a.units();
    let t = x * x;
    assert(0 <= t <= pow2(400)) by (nonlinear_arith)
        requires
            t == x * x,
            -pow2(200) <= x <= pow2(200),
            pow2(400) == pow2(200) * pow2(200),
    ;
    assert(pow2(402) <= single_limit() * u) by (nonlinear_arith)
        requires
            single_limit() == 0x80_0000 * pow2(253),
            u == pow2(149),
            pow2(402) == pow2(253) * pow2(149),
    ;
    law_single_product_is_close(a, a);
    let r = a.times(a).units();
    let ra = abs(r);
    let ru = r * u;
    lemma_single_format();
    lemma_sizes(binary32(), a.times(a).num());
    assert(r >= 0);
    assert((ra + 0x80_0000) * u == ru + 0x80_0000 * u && ru >= 0) by (nonlinear_arith)
        requires
            ru == r * u,
            ra == r,
            r >= 0,
            u > 0,
    ;
    assert(pow2(401) == 2 * pow2(400)) by (nonlinear_arith)
        requires
            pow2(401) == pow2(1) * pow2(400),
            pow2(1) == 2,
    ;
    assert(ru <= pow2(401));
    assert(r <= pow2(252)) by (nonlinear_arith)
        requires
            ru == r * u,
            ru <= pow2(401),
            pow2(401) == pow2(252) * u,
            u > 0,
    ;
}

/// A power is the square of the magnitude of a complex number: the sum of the squares of
/// both its parts, up to rounding.
#[verifier::spinoff_prover]
pub proof fn law_power_is_the_squared_magnitude(c: Complex)
    requires
        c.re.finite(),
        c.im.finite(),
        abs(c.re.units()) <= pow2(200),
        abs(c.im.units()) <= pow2(200),
        c.re.units() * c.re.units() + c.im.units() * c.im.units() >= pow2(218),
    ensures
        power_of(c).finite(),
        ({
            let e = c.re.units() * c.re.units() + c.im.units() * c.im.units();
            0x4_0000 * distance(power_of(c).units() * single_one(), e) <= e
        }),
{
    let u = single_one();
    lemma_pow2_pos(149);
    lemma_component_square(c.re);
    lemma_component_square(c.im);
    let a = c.re.times(c.re);
    let b = c.im.times(c.im);
    let (s, t) = (c.re.units() * c.re.units(), c.im.units() * c.im.units());
    let e = s + t;
    lemma_pow2_adds(1, 252);
    lemma_pow2_adds(1, 253);
    lemma_pow2_pos(253);
    lemma_pow2_strictly_increases(254, 277);
    lemma_pow2_adds(69, 149);
    lemma_pow2_adds(60, 9);
    vstd::arithmetic::power2::lemma2_to64();
    vstd::arithmetic::power2::lemma2_to64_rest();
    law_single_sum_is_close(a, b);
    let q = a.plus(b);
    let x = q.units();
    let xu = x * u;
    let (au, bu) = (a.units() * u, b.units() * u);
    assert(0xff_ffff * distance(xu, au + bu) <= au + bu) by (nonlinear_arith)
        requires
            0xff_ffff * distance(x, a.units() + b.units()) <= a.units() + b.units(),
            distance(x, a.units() + b.units()) == (if x <= a.units() + b.units() {
                a.units() + b.units() - x
            } else {
                x - (a.units() + b.units())
            }),
            distance(xu, au + bu) == (if xu <= au + bu { au + bu - xu } else { xu - (au + bu) }),
            xu == x * u,
            au == a.units() * u,
            bu == b.units() * u,
            u > 0,
    ;
    assert(pow2(218) == pow2(69) * u);
    assert(e >= 0x1000_0000_0000_0000 * u) by (nonlinear_arith)
        requires
            e >= pow2(69) * u,
            pow2(69) >= 0x1000_0000_0000_0000,
            u > 0,
    ;
    assert(0x40_0000 * distance(au + bu, e) <= e + 0x80_0000 * u);
    assert(0x20_0000 * distance(xu, e) <= 2 * e);
    assert(x > 0) by (nonlinear_arith)
        requires
            xu > 0,
            xu == x * u,
            u > 0,
    ;
    law_single_root_is_close(q);
    let m = q.root();
    let r = m.units();
    lemma_root_square(r, xu);
    let rr = r * r;
    // in range
    lemma_pow2_adds(254, 149);
    lemma_pow2_adds(253, 149);
    assert(xu <= pow2(403)) by (nonlinear_arith)
        requires
            xu == x * u,
            x <= pow2(254),
            pow2(403) == pow2(254) * u,
            u > 0,
    ;
    assert(pow2(403) == 2 * pow2(402)) by {
        lemma_pow2_adds(1, 402);
    }
    assert(rr <= single_limit() * u) by (nonlinear_arith)
        requires
            rr <= 2 * pow2(403),
            pow2(403) == 2 * pow2(402),
            pow2(402) == pow2(253) * u,
            single_limit() == 0x80_0000 * pow2(253),
            pow2(253) > 0,
            u > 0,
    ;
    law_single_product_is_close(m, m);
    let p = power_of(c).units();
    let pu = p * u;
    lemma_single_format();
    lemma_sizes(binary32(), power_of(c).num());
    assert(p >= 0);
    assert((p + 0x80_0000) * u == pu + 0x80_0000 * u && pu >= 0) by (nonlinear_arith)
        requires
            pu == p * u,
            p >= 0,
            u > 0,
    ;
    assert(0x10_0000 * distance(rr, e) <= 2 * e);
    assert(0x100_0000 * distance(pu, rr) <= pu + 0x80_0000 * u);
}

/// The powers are those of all numbers of a spectrum.
pub proof fn law_every_number_has_its_power(spectrum: Seq<Complex>, k: int)
    requires
        0 <= k < spectrum.len(),
    ensures
        powers(spectrum).len() == spectrum.len(),
        powers(spectrum)[k] == power_of(spectrum[k]),
{
}

/// `2^22` times the error of a wide dot product of `n` numbers whose products have
/// magnitudes that add up to `size`.
pub open spec fn wide_error(n: int, size: int) -> int {
    4 * size + 0x80_0000 * (n * single_one())
}

/// The arithmetic of the bound.
proof fn lemma_wide_arith(n: int, u: int, su: int, qu: int, qsize: int, total: int, size: int)
    requires
        0 <= n <= 0x10_0000,
        u > 0,
        0 <= size,
        0 <= qsize,
        0x10_0000_0000_0000 * distance(su, qu) <= n * qsize,
        0x40_0000 * distance(qu, total) <= size + 0x40_0000 * (n * u),
        0x40_0000 * distance(qsize, size) <= size + 0x40_0000 * (n * u),
    ensures
        0x40_0000 * distance(su, total) <= 4 * size + 0x80_0000 * (n * u),
{
    let nu = n * u;
    let nq = n * qsize;
    assert(0 <= nu && nq <= 0x10_0000 * qsize) by (nonlinear_arith)
        requires
            nu == n * u,
            nq == n * qsize,
            0 <= n <= 0x10_0000,
            u > 0,
            qsize >= 0,
    ;
}

/// A band energy before its floor is the sum of the products of all powers and weights,
/// up to rounding.
#[verifier::spinoff_prover]
pub proof fn law_wide_dot_is_close(a: Seq<Single>, b: Seq<Single>)
    requires
        a.len() == b.len(),
        a.len() <= 0x10_0000,
        forall|i: int| 0 <= i < a.len() ==> (#[trigger] a[i]).finite() && abs(a[i].units()) <= pow2(
            229,
        ),
        forall|i: int|
            0 <= i < b.len() ==> (#[trigger] b[i]).finite() && abs(b[i].units()) <= 2
                * single_one(),
    ensures
        wide_dot(a, b).finite(),
        0x40_0000 * distance(
            wide_dot(a, b).units() * single_one(),
            sum(exact_products(a, b)) * widening(),
        ) <= wide_error(a.len() as int, sum(sizes_of(exact_products(a, b)))) * widening(),
{
    let n = a.len() as int;
    let u = single_one();
    let k = widening();
    let c = 0x40_0000int;
    lemma_pow2_pos(149);
    lemma_pow2_pos(925);
    lemma_pow2_pos(230);
    lemma_pow2_adds(1, 229);
    lemma_pow2_adds(230, 149);
    lemma_pow2_adds(253, 149);
    lemma_pow2_strictly_increases(379, 402);
    vstd::arithmetic::power2::lemma2_to64();
    let singles = Seq::new(n as nat, |i: int| a[i].times(b[i]));
    let values = wide_products(a, b);
    let t = exact_products(a, b);
    let v = Seq::new(n as nat, |i: int| singles[i].units());
    let z = sizes_of(v);
    let w = sizes_of(t);
    let scaled = Seq::new(n as nat, |i: int| v[i] * u);
    let sizes = Seq::new(n as nat, |i: int| z[i] * u);
    let errors = Seq::new(n as nat, |i: int| w[i] + c * u);
    let flat = Seq::new(n as nat, |i: int| c * u);
    let most = pow2(379) as int;
    let wide = units_of(values);
    assert forall|i: int| 0 <= i < n implies {
        &&& (#[trigger] values[i]).finite()
        &&& wide[i] == v[i] * k
        &&& sizes_of(wide)[i] == z[i] * k
        &&& c * distance(scaled[i], t[i]) <= errors[i]
        &&& c * distance(sizes[i], w[i]) <= errors[i]
        &&& abs(t[i]) <= most
    } by {
        assert(a[i].finite() && b[i].finite());
        let (x, y) = (a[i].units(), b[i].units());
        let e = x * y;
        assert(abs(e) <= most) by (nonlinear_arith)
            requires
                e == x * y,
                -pow2(229) <= x <= pow2(229),
                -2 * u <= y <= 2 * u,
                most == (2 * pow2(229)) * u,
                abs(e) == (if e < 0 { -e } else { e }),
                u > 0,
        ;
        assert(pow2(402) <= single_limit() * u) by (nonlinear_arith)
            requires
                single_limit() == 0x80_0000 * pow2(253),
                u == pow2(149),
                pow2(402) == pow2(253) * pow2(149),
        ;
        law_single_product_is_close(a[i], b[i]);
        lemma_widened_units(singles[i]);
        let r = v[i];
        let ra = abs(r);
        let ru = r * u;
        assert(abs(ru) == ra * u && (ra + 0x80_0000) * u == ra * u + 0x80_0000 * u && abs(r * k)
            == ra * k) by (nonlinear_arith)
            requires
                ru == r * u,
                ra == (if r < 0 { -r } else { r }),
                abs(ru) == (if ru < 0 { -ru } else { ru }),
                abs(r * k) == (if r * k < 0 { -(r * k) } else { r * k }),
                u > 0,
                k > 0,
        ;
    }
    assert forall|i: int| 0 <= i < n implies c * distance(#[trigger] scaled[i], t[i]) <= errors[i] by {
        assert(values[i].finite());
    }
    assert forall|i: int| 0 <= i < n implies c * distance(#[trigger] sizes[i], w[i]) <= errors[i] by {
        assert(values[i].finite());
    }
    assert forall|i: int| 0 <= i < n implies #[trigger] wide[i] == v[i] * k by {
        assert(values[i].finite());
    }
    assert forall|i: int| 0 <= i < n implies #[trigger] sizes_of(wide)[i] == z[i] * k by {
        assert(values[i].finite());
    }
    lemma_sums_close(scaled, t, errors, c);
    lemma_sums_close(sizes, w, errors, c);
    lemma_sum_of_both(w, flat, errors);
    lemma_sum_of_one(flat, c * u);
    lemma_sum_scaled(v, scaled, u);
    lemma_sum_scaled(z, sizes, u);
    lemma_sum_scaled(v, wide, k);
    lemma_sum_scaled(z, sizes_of(wide), k);
    let size = sum(w);
    assert(w.take(n) =~= w);
    lemma_sizes_sum(t, n as nat);
    assert(z.take(n) =~= z);
    lemma_sizes_sum(v, n as nat);
    let q = sum(v);
    let qa = sum(z);
    let nu = n * u;
    assert(n * (c * u) == c * nu) by (nonlinear_arith)
        requires
            nu == n * u,
    ;
    assert forall|i: int| 0 <= i < t.len() implies abs(#[trigger] t[i]) <= most by {
        assert(values[i].finite());
    }
    lemma_sum_bounded(t, most);
    let qau = qa * u;
    assert(qau <= 2 * size + nu);
    let top = pow2(230) as int;
    assert(qa <= 3 * (n * top)) by (nonlinear_arith)
        requires
            qau == qa * u,
            qau <= 2 * size + nu,
            size <= n * (top * u),
            nu == n * u,
            n >= 0,
            u >= 1,
            top >= 1,
    ;
    assert(qa <= 0x30_0000 * top) by (nonlinear_arith)
        requires
            qa <= 3 * (n * top),
            0 <= n <= 0x10_0000,
            top > 0,
    ;
    let qk = qa * k;
    lemma_pow2_adds(230, 925);
    lemma_pow2_strictly_increases(1155, 2045);
    assert(qk <= 0x30_0000 * pow2(1155)) by (nonlinear_arith)
        requires
            qk == qa * k,
            qa <= 0x30_0000 * top,
            pow2(1155) == top * k,
            k > 0,
    ;
    assert(2 * qk <= limit());
    assert(wide.take(n) =~= wide);
    assert(sizes_of(wide).take(n) =~= sizes_of(wide));
    crate::float::double::lemma_double_format();
    crate::float::arith::lemma_zero_units(53);
    assert forall|i: int| 0 <= i < n implies (#[trigger] values[i]).finite() by {}
    law_added_is_close(Double::zero_spec(), values, n as nat);
    let s = wide_dot(a, b).units();
    let total = sum(t);
    // everything times both units
    let su = s * u;
    let qku = (q * k) * u;
    let qaku = qk * u;
    let tk = total * k;
    let sk = size * k;
    assert(0x10_0000_0000_0000 * distance(su, qku) <= n * qaku && 0 <= qaku) by (nonlinear_arith)
        requires
            0x10_0000_0000_0000 * distance(s, q * k) <= n * qk,
            distance(s, q * k) == (if s <= q * k { q * k - s } else { s - q * k }),
            distance(su, qku) == (if su <= qku { qku - su } else { su - qku }),
            su == s * u,
            qku == (q * k) * u,
            qaku == qk * u,
            qk == qa * k,
            qa >= 0,
            k > 0,
            u > 0,
    ;
    let uk = u * k;
    assert(uk > 0) by (nonlinear_arith)
        requires
            uk == u * k,
            u > 0,
            k > 0,
    ;
    lemma_times_unit(q * u, total, size, nu, k);
    lemma_times_unit(qau, size, size, nu, k);
    assert((q * u) * k == qku && qau * k == qaku && nu * k == n * uk) by (nonlinear_arith)
        requires
            qku == (q * k) * u,
            qau == qa * u,
            qk == qa * k,
            qaku == qk * u,
            nu == n * u,
            uk == u * k,
    ;
    assert(sk >= 0) by (nonlinear_arith)
        requires
            sk == size * k,
            size >= 0,
            k > 0,
    ;
    lemma_wide_arith(n, uk, su, qku, qaku, tk, sk);
    assert((4 * size + 0x80_0000 * (n * u)) * k == 4 * sk + 0x80_0000 * (n * uk)) by (
    nonlinear_arith)
        requires
            sk == size * k,
            uk == u * k,
    ;
}

/// A bound times a factor.
proof fn lemma_times_unit(x: int, y: int, size: int, nu: int, k: int)
    requires
        0x40_0000 * distance(x, y) <= size + 0x40_0000 * nu,
        k > 0,
    ensures
        0x40_0000 * distance(x * k, y * k) <= size * k + 0x40_0000 * (nu * k),
{
    let d = distance(x, y);
    assert(distance(x * k, y * k) == d * k) by (nonlinear_arith)
        requires
            d == (if x <= y { y - x } else { x - y }),
            distance(x * k, y * k) == (if x * k <= y * k { y * k - x * k } else { x * k - y * k }),
            k > 0,
    ;
    assert(0x40_0000 * (d * k) <= size * k + 0x40_0000 * (nu * k)) by (nonlinear_arith)
        requires
            0x40_0000 * d <= size + 0x40_0000 * nu,
            k > 0,
    ;
}

/// A floored energy is the larger of the energy and the floor.
pub proof fn law_floor_is_the_larger(energy: Single)
    requires
        energy.finite(),
    ensures
        floored(energy).units() == if energy.units() < energy_floor().units() {
            energy_floor().units()
        } else {
            energy.units()
        },
{
    lemma_single_format();
    law_rank_orders_values(binary32(), energy.num(), energy_floor().num());
}

} // verus!
