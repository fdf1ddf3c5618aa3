//! Rounding of an exact result to the magnitude grid of a format.
//!
//! An operation first brings its exact result into the form `m * 2^e` units, or
//! strictly between `m` and `m + 1` times `2^e` when it has dropped a nonzero
//! rest (`sticky`). [`settle`] rounds that form.

use vstd::arithmetic::div_mod::lemma_fundamental_div_mod;
use vstd::arithmetic::power2::{lemma_pow2_adds, lemma_pow2_pos, lemma_pow2_strictly_increases, lemma_pow2_unfold, pow2};
use vstd::bits::lemma_u128_shr_is_div;
use vstd::prelude::*;
use crate::float::grid::{half_span, is_parts, lemma_half_span, lemma_parts, lemma_units_increasing, lemma_units_step, rounds_to, units};

verus! {

/// The number of binary digits of `m`.
pub open spec fn digits(m: nat) -> nat
    decreases m,
{
    if m == 0 {
        0
    } else {
        1 + digits(m / 2)
    }
}

pub proof fn lemma_digits(m: nat)
    ensures
        m < pow2(digits(m)),
        m > 0 ==> digits(m) >= 1 && pow2((digits(m) - 1) as nat) <= m,
    decreases m,
{
    if m == 0 {
        lemma_pow2_pos(0);
    } else {
        lemma_digits(m / 2);
        let k = digits(m / 2);
        lemma_pow2_unfold(k + 1);
        if m / 2 == 0 {
            assert(k == 0);
            assert(pow2(0) == 1) by {
                vstd::arithmetic::power2::lemma2_to64();
            }
        } else {
            lemma_pow2_unfold(k);
        }
    }
}

/// The digit count is the only one whose powers of two enclose `m`.
pub proof fn lemma_digits_unique(m: nat, n: nat)
    requires
        m < pow2(n),
        n >= 1,
        pow2((n - 1) as nat) <= m,
    ensures
        digits(m) == n,
{
    lemma_digits(m);
    lemma_pow2_pos((n - 1) as nat);
    let k = digits(m);
    if k < n {
        if k < n - 1 {
            lemma_pow2_strictly_increases(k, (n - 1) as nat);
        }
    } else if n < k {
        if n < k - 1 {
            lemma_pow2_strictly_increases(n, (k - 1) as nat);
        }
    }
}

/// Counts binary digits.
pub fn digit_count(m: u128) -> (n: u32)
    ensures
        n == digits(m as nat),
        n <= 128,
{
    let mut r: u128 = m;
    let mut n: u32 = 0;
    let mut s: u32 = 64;
    proof {
        vstd::arithmetic::power2::lemma2_to64();
        vstd::arithmetic::power2::lemma2_to64_rest();
        lemma_pow2_adds(64, 64);
        assert(pow2(128) == pow2(64) * pow2(64));
        assert(pow2(64) == 0x1_0000_0000_0000_0000);
        assert(0x1_0000_0000_0000_0000int * 0x1_0000_0000_0000_0000int
            == 0x1_0000_0000_0000_0000_0000_0000_0000_0000int);
        assert(m as int / pow2(0) as int == m);
    }
    while s > 0
        invariant
            r == m as int / pow2(n as nat) as int,
            s == 64 || s == 32 || s == 16 || s == 8 || s == 4 || s == 2 || s == 1 || s == 0,
            r < pow2((2 * s) as nat) || (s == 0 && r < 2),
            m > 0 ==> r > 0,
            m == 0 ==> n == 0,
            n + 2 * s <= 128 || (s == 0 && n <= 127),
        decreases s,
    {
        let t: u128 = r >> (s as u128);
        proof {
            lemma_u128_shr_is_div(r, s as u128);
            lemma_pow2_adds(s as nat, s as nat);
            lemma_pow2_pos(s as nat);
            lemma_pow2_pos(n as nat);
            let ps = pow2(s as nat) as int;
            assert(t == r as int / ps);
            if t == 0 {
                assert((r as int) < ps) by (nonlinear_arith)
                    requires
                        r as int / ps == 0,
                        ps > 0,
                ;
            } else {
                vstd::arithmetic::div_mod::lemma_div_denominator(m as int, pow2(n as nat) as int, ps);
                lemma_pow2_adds(n as nat, s as nat);
                assert(t < ps) by (nonlinear_arith)
                    requires
                        t == r as int / ps,
                        r < ps * ps,
                        ps > 0,
                ;
            }
            vstd::arithmetic::power2::lemma2_to64();
        }
        if t > 0 {
            r = t;
            n = n + s;
        }
        s = s / 2;
    }
    proof {
        lemma_pow2_pos(n as nat);
        lemma_pow2_unfold((n + 1) as nat);
        let pn = pow2(n as nat) as int;
        lemma_fundamental_div_mod(m as int, pn);
        if r > 0 {
            assert(pn <= m && m < 2 * pn) by (nonlinear_arith)
                requires
                    m as int == pn * 1 + m as int % pn,
                    0 <= m as int % pn < pn,
            ;
            lemma_digits_unique(m as nat, (n + 1) as nat);
        }
    }
    if r > 0 {
        n + 1
    } else {
        n
    }
}

/// A left shift that loses nothing multiplies by a power of two.
pub proof fn lemma_shift_left(m: u128, k: u128)
    requires
        k < 128,
        m * pow2(k as nat) <= u128::MAX,
    ensures
        m << k == m * pow2(k as nat),
    decreases k,
{
    if k == 0 {
        assert(m << 0u128 == m) by (bit_vector);
        vstd::arithmetic::power2::lemma2_to64();
    } else {
        let j: u128 = (k - 1) as u128;
        lemma_pow2_unfold(k as nat);
        assert(m * pow2(k as nat) == 2 * (m * pow2(j as nat))) by (nonlinear_arith)
            requires
                pow2(k as nat) == 2 * pow2(j as nat),
        ;
        lemma_shift_left(m, j);
        assert(m << k == (m << j) << 1u128) by (bit_vector)
            requires
                k == j + 1,
                k < 128,
        ;
        let x: u128 = m << j;
        assert((x << 1u128) == 2 * x) by (bit_vector)
            requires
                x < 0x8000_0000_0000_0000_0000_0000_0000_0000u128,
        ;
    }
}

/// `m * 2^k`, where it fits.
pub fn raised(m: u128, k: u32) -> (r: u128)
    requires
        k < 128,
        m * pow2(k as nat) <= u128::MAX,
    ensures
        r == m * pow2(k as nat),
{
    proof {
        lemma_shift_left(m, k as u128);
    }
    m << (k as u128)
}

/// The exponent of the grid step used for a result of `m * 2^e` units.
pub open spec fn settle_exponent(p: nat, m: nat, e: int) -> nat {
    if e + digits(m) - p > 0 { (e + digits(m) - p) as nat } else { 0 }
}

/// The significand before rounding: the grid steps wholly contained in
/// `m * 2^e` units.
pub open spec fn settle_floor(p: nat, m: nat, e: int) -> int {
    let d = settle_exponent(p, m, e) - e;
    if d <= 0 {
        m as int * pow2((-d) as nat)
    } else {
        m as int / pow2(d as nat) as int
    }
}

/// Whether the rest above [`settle_floor`] rounds up, ties to even.
pub open spec fn settle_up(p: nat, m: nat, e: int, sticky: bool) -> bool {
    let d = settle_exponent(p, m, e) - e;
    if d <= 0 {
        false
    } else {
        let rest = m as int % pow2(d as nat) as int;
        ||| 2 * rest > pow2(d as nat)
        ||| 2 * rest == pow2(d as nat) && (sticky || settle_floor(p, m, e) % 2 == 1)
    }
}

/// The magnitude that `m * 2^e` units (a little more, if `sticky`) rounds to.
pub open spec fn settle(p: nat, top: int, m: nat, e: int, sticky: bool) -> int {
    let b = settle_exponent(p, m, e) * half_span(p) + settle_floor(p, m, e) + (if settle_up(
        p,
        m,
        e,
        sticky,
    ) { 1int } else { 0 });
    if b >= top { top } else { b }
}

/// `2^k` for a nonnegative `k`, 1 otherwise.
pub open spec fn pow2_above(k: int) -> int {
    if k > 0 { pow2(k as nat) as int } else { 1 }
}

/// `num / den` units lie at `m * 2^e`, or strictly between that and
/// `(m + 1) * 2^e` when `sticky`.
pub open spec fn placed(m: nat, e: int, sticky: bool, num: int, den: int) -> bool {
    let step = pow2_above(e) * den;
    let value = num * pow2_above(-e);
    if sticky {
        m * step < value < (m + 1) * step
    } else {
        value == m * step
    }
}

pub proof fn lemma_pow2_above(k: int)
    ensures
        pow2_above(k) >= 1,
{
    if k > 0 {
        lemma_pow2_pos(k as nat);
    }
}

/// Exponent and floor of a rounded result form a magnitude.
pub proof fn lemma_settle_parts(p: nat, m: nat, e: int)
    requires
        p >= 1,
        m > 0,
    ensures
        is_parts(p, settle_exponent(p, m, e), settle_floor(p, m, e)),
{
    let g = settle_exponent(p, m, e);
    let d = g - e;
    let l = digits(m);
    let q = settle_floor(p, m, e);
    lemma_digits(m);
    lemma_half_span(p);
    if d <= 0 {
        let k = (-d) as nat;
        lemma_pow2_pos(k);
        assert(0 <= m * pow2(k)) by (nonlinear_arith);
        // l + k <= p
        lemma_pow2_adds(l, k);
        assert(m * pow2(k) < pow2(l) * pow2(k)) by (nonlinear_arith)
            requires
                m < pow2(l),
                pow2(k) > 0,
        ;
        if l + k < p {
            lemma_pow2_strictly_increases(l + k, p);
        }
        if g > 0 {
            assert(l + k == p);
            lemma_pow2_adds((l - 1) as nat, k);
            assert(pow2((l - 1) as nat) * pow2(k) <= m * pow2(k)) by (nonlinear_arith)
                requires
                    pow2((l - 1) as nat) <= m,
            ;
        }
    } else {
        let k = d as nat;
        let pk = pow2(k) as int;
        lemma_pow2_pos(k);
        lemma_fundamental_div_mod(m as int, pk);
        assert(q >= 0) by (nonlinear_arith)
            requires
                q == m as int / pk,
                m >= 0,
                pk > 0,
        ;
        // l <= p + k
        lemma_pow2_adds(p, k);
        if l < p + k {
            lemma_pow2_strictly_increases(l, p + k);
        }
        assert(q < pow2(p)) by (nonlinear_arith)
            requires
                q == m as int / pk,
                m < pow2(p) * pk,
                pk > 0,
        ;
        if g > 0 {
            assert(l == p + k);
            lemma_pow2_adds((p - 1) as nat, k);
            assert(q >= pow2((p - 1) as nat)) by (nonlinear_arith)
                requires
                    q == m as int / pk,
                    m >= pow2((p - 1) as nat) * pk,
                    pk > 0,
            ;
        }
    }
}

/// A value between two neighbours of the grid rounds to the one that the
/// comparison with their midpoint gives.
proof fn lemma_round_between(p: nat, top: int, num: int, den: int, g: nat, q: int, up: bool)
    requires
        p >= 2,
        top >= 0,
        den > 0,
        is_parts(p, g, q),
        q * (pow2(g) * den) <= num < (q + 1) * (pow2(g) * den),
        up ==> (2 * num > (2 * q + 1) * (pow2(g) * den) || (2 * num == (2 * q + 1) * (pow2(g) * den)
            && q % 2 == 1)),
        !up ==> (2 * num < (2 * q + 1) * (pow2(g) * den) || (2 * num == (2 * q + 1) * (pow2(g) * den)
            && q % 2 == 0)),
    ensures
        ({
            let b = g * half_span(p) + q + (if up { 1int } else { 0 });
            rounds_to(p, top, num, den, if b >= top { top } else { b })
        }),
{
    let h = half_span(p);
    let s = pow2(g) * den;
    let b0 = g * h + q;
    lemma_parts(p, g, q);
    lemma_units_step(p, b0);
    lemma_pow2_pos(g);
    lemma_half_span((p - 1) as nat);
    assert(h == 2 * half_span((p - 1) as nat));
    assert(b0 % 2 == q % 2) by {
        let k = half_span((p - 1) as nat);
        assert(g * h == 2 * (g * k)) by (nonlinear_arith)
            requires
                h == 2 * k,
        ;
    }
    let u0 = units(p, b0);
    assert(u0 * den == q * s) by (nonlinear_arith)
        requires
            u0 == q * pow2(g),
            s == pow2(g) * den,
    ;
    assert((u0 + (u0 + pow2(g))) * den == (2 * q + 1) * s) by (nonlinear_arith)
        requires
            u0 == q * pow2(g),
            s == pow2(g) * den,
    ;
    assert(s > 0) by (nonlinear_arith)
        requires
            s == pow2(g) * den,
            pow2(g) > 0,
            den > 0,
    ;
    assert((q + 1) * s == q * s + s && (2 * q + 1) * s == 2 * (q * s) + s) by (nonlinear_arith);
    let b = b0 + (if up { 1int } else { 0 });
    if b0 >= top {
        // the value is at least that of `top`
        if top > 0 {
            let ut = units(p, top);
            lemma_units_increasing(p, top - 1, top);
            if top < b0 {
                lemma_units_increasing(p, top, b0);
            }
            let l = units(p, top - 1);
            assert((l + ut) * den < 2 * (u0 * den)) by (nonlinear_arith)
                requires
                    l < ut <= u0,
                    den > 0,
            ;
        }
    } else if up {
        // b0 + 1 <= top
        assert(units(p, b0 + 1) * den == (q + 1) * s) by (nonlinear_arith)
            requires
                units(p, b0 + 1) == q * pow2(g) + pow2(g),
                s == pow2(g) * den,
        ;
        lemma_units_increasing(p, b0 + 1, b0 + 2);
        let u1 = units(p, b0 + 1);
        let u2 = units(p, b0 + 2);
        assert(2 * (u1 * den) < (u1 + u2) * den) by (nonlinear_arith)
            requires
                u1 < u2,
                den > 0,
        ;
    } else {
        if b0 > 0 {
            lemma_units_increasing(p, b0 - 1, b0);
            let l = units(p, b0 - 1);
            assert((l + u0) * den < 2 * (u0 * den)) by (nonlinear_arith)
                requires
                    l < u0,
                    den > 0,
            ;
        }
    }
}

/// A placed value rounds to the settled magnitude.
pub proof fn lemma_settle(p: nat, top: int, m: nat, e: int, sticky: bool, num: int, den: int)
    requires
        p >= 2,
        top >= 0,
        den > 0,
        m > 0,
        placed(m, e, sticky, num, den),
        sticky ==> digits(m) >= p + 2,
    ensures
        rounds_to(p, top, num, den, settle(p, top, m, e, sticky)),
{
    let g = settle_exponent(p, m, e);
    let d = g - e;
    let q = settle_floor(p, m, e);
    let s = pow2(g) * den;
    let up_e = pow2_above(e);
    let dn = pow2_above(-e);
    let step = up_e * den;
    let value = num * dn;
    lemma_settle_parts(p, m, e);
    lemma_pow2_above(e);
    lemma_pow2_above(-e);
    lemma_pow2_pos(g);
    assert(step > 0) by (nonlinear_arith)
        requires
            step == up_e * den,
            up_e >= 1,
            den > 0,
    ;
    assert(s > 0) by (nonlinear_arith)
        requires
            s == pow2(g) * den,
            pow2(g) > 0,
            den > 0,
    ;
    if d <= 0 {
        assert(!sticky);
        let k = (-d) as nat;
        let pk = pow2(k) as int;
        assert(dn == 1);
        assert(up_e == pow2(g) * pk) by {
            lemma_pow2_adds(g, k);
            if e <= 0 {
                assert(g == 0 && k == 0);
                vstd::arithmetic::power2::lemma2_to64();
            }
        }
        assert(num == q * s) by (nonlinear_arith)
            requires
                num * 1 == m * (up_e * den),
                up_e == pow2(g) * pk,
                q == m * pk,
                s == pow2(g) * den,
        ;
        assert((q + 1) * s == q * s + s && (2 * q + 1) * s == 2 * (q * s) + s) by (nonlinear_arith);
    } else {
        let k = d as nat;
        let pk = pow2(k) as int;
        lemma_pow2_pos(k);
        lemma_fundamental_div_mod(m as int, pk);
        let rest = m as int % pk;
        assert(s * dn == pk * step) by {
            if e >= 0 {
                lemma_pow2_adds(k, e as nat);
                assert(up_e == pow2(e as nat)) by {
                    vstd::arithmetic::power2::lemma2_to64();
                }
                assert(s * dn == pk * step) by (nonlinear_arith)
                    requires
                        s == pow2(g) * den,
                        dn == 1,
                        pow2(g) == pk * up_e,
                        step == up_e * den,
                ;
            } else {
                lemma_pow2_adds(g, (-e) as nat);
                assert(s * dn == pk * step) by (nonlinear_arith)
                    requires
                        s == pow2(g) * den,
                        dn == pow2((-e) as nat),
                        pow2(g) * pow2((-e) as nat) == pk,
                        step == 1 * den,
                ;
            }
        }
        // m = q * pk + rest, scaled by the step
        assert(m * step == q * (s * dn) + rest * step) by (nonlinear_arith)
            requires
                m as int == pk * q + rest,
                s * dn == pk * step,
        ;
        assert((m + 1) * step == m * step + step) by (nonlinear_arith);
        assert((rest + 1) * step <= pk * step) by (nonlinear_arith)
            requires
                rest + 1 <= pk,
                step > 0,
        ;
        assert((rest + 1) * step == rest * step + step) by (nonlinear_arith);
        assert(0 <= rest * step) by (nonlinear_arith)
            requires
                rest >= 0,
                step > 0,
        ;
        assert(q * (s * dn) <= value && value < q * (s * dn) + s * dn);
        assert(q * s <= num < (q + 1) * s) by (nonlinear_arith)
            requires
                q * (s * dn) <= num * dn,
                num * dn < q * (s * dn) + s * dn,
                dn >= 1,
        ;
        // midpoint comparison
        let mid = (2 * q + 1) * s;
        assert(mid * dn == 2 * (q * (s * dn)) + s * dn) by (nonlinear_arith)
            requires
                mid == (2 * q + 1) * s,
        ;
        if 2 * rest > pk {
            assert(2 * (rest * step) > pk * step) by (nonlinear_arith)
                requires
                    2 * rest > pk,
                    step > 0,
            ;
            assert(2 * num > mid) by (nonlinear_arith)
                requires
                    2 * (num * dn) > mid * dn,
                    dn >= 1,
            ;
        } else if 2 * rest == pk {
            assert(2 * (rest * step) == pk * step) by (nonlinear_arith)
                requires
                    2 * rest == pk,
            ;
            if sticky {
                assert(2 * num > mid) by (nonlinear_arith)
                    requires
                        2 * (num * dn) > mid * dn,
                        dn >= 1,
                ;
            } else {
                assert(2 * num == mid) by (nonlinear_arith)
                    requires
                        2 * (num * dn) == mid * dn,
                        dn >= 1,
                ;
            }
        } else {
            // at least one whole step below the midpoint when something was dropped
            if sticky {
                assert(pk % 2 == 0) by {
                    lemma_pow2_unfold(k);
                }
                assert(2 * rest + 2 <= pk);
                assert(2 * (rest * step) + 2 * step <= pk * step) by (nonlinear_arith)
                    requires
                        2 * rest + 2 <= pk,
                        step > 0,
                ;
            } else {
                assert(2 * (rest * step) < pk * step) by (nonlinear_arith)
                    requires
                        2 * rest < pk,
                        step > 0,
                ;
            }
            assert(2 * num < mid) by (nonlinear_arith)
                requires
                    2 * (num * dn) < mid * dn,
                    dn >= 1,
            ;
        }
    }
    lemma_round_between(p, top, num, den, g, q, settle_up(p, m, e, sticky));
}

/// Rounds `m * 2^e` units (a little more, if `sticky`) to a magnitude.
pub fn settled(p: u32, top: u64, m: u128, e: i32, sticky: bool) -> (b: u64)
    requires
        2 <= p <= 53,
        0 < m < 0x8000_0000_0000_0000_0000_0000_0000_0000,
        -10_000 <= e <= 10_000,
    ensures
        b == settle(p as nat, top as int, m as nat, e as int, sticky),
{
    let l: u32 = digit_count(m);
    let raised: i32 = e + l as i32 - p as i32;
    let g: i32 = if raised > 0 { raised } else { 0 };
    let d: i32 = g - e;
    proof {
        lemma_settle_parts(p as nat, m as nat, e as int);
        lemma_digits(m as nat);
        lemma_half_span(p as nat);
        lemma_pow2_pos((p - 1) as nat);
        if p < 53 {
            lemma_pow2_strictly_increases(p as nat, 53);
        }
        vstd::arithmetic::power2::lemma2_to64();
        vstd::arithmetic::power2::lemma2_to64_rest();
    }
    let mut q: u128 = 0;
    let mut up: bool = false;
    if d <= 0 {
        let k: u128 = (-d) as u128;
        proof {
            assert(q == 0);
            lemma_shift_left(m, k);
        }
        q = m << k;
    } else if d < 128 {
        let k: u128 = d as u128;
        q = m >> k;
        proof {
            lemma_u128_shr_is_div(m, k);
            lemma_pow2_pos(k as nat);
            lemma_fundamental_div_mod(m as int, pow2(k as nat) as int);
            let pk = pow2(k as nat) as int;
            assert(q * pk == pk * q) by (nonlinear_arith);
            lemma_shift_left(q, k);
            lemma_pow2_unfold(k as nat);
            if k < 127 {
                lemma_pow2_strictly_increases((k - 1) as nat, 127);
            }
            lemma_pow2_127();
            lemma_shift_left(1, (k - 1) as u128);
        }
        let rest: u128 = m - (q << k);
        let half: u128 = 1u128 << ((k - 1) as u128);
        up = rest > half || (rest == half && (sticky || q % 2 == 1));
    } else {
        proof {
            lemma_pow2_127();
            let pd = pow2(d as nat) as int;
            lemma_pow2_strictly_increases(127, d as nat);
            lemma_pow2_unfold(d as nat);
            if d > 128 {
                lemma_pow2_strictly_increases(127, (d - 1) as nat);
            }
            assert(m as int / pd == 0 && m as int % pd == m) by {
                vstd::arithmetic::div_mod::lemma_basic_div(m as int, pd);
                vstd::arithmetic::div_mod::lemma_small_mod(m as nat, pd as nat);
            }
        }
    }
    proof {
        lemma_shift_left(1, (p - 1) as u128);
        assert(q == settle_floor(p as nat, m as nat, e as int));
        assert(up == settle_up(p as nat, m as nat, e as int, sticky));
        assert(0 <= g * half_span(p as nat) <= 20_000 * 0x20_0000_0000_0000) by (nonlinear_arith)
            requires
                0 <= g <= 20_000,
                0 <= half_span(p as nat) <= 0x20_0000_0000_0000,
        ;
    }
    let h: u128 = 1u128 << ((p - 1) as u128);
    let b: u128 = g as u128 * h + q + (if up { 1u128 } else { 0u128 });
    if b >= top as u128 {
        top
    } else {
        b as u64
    }
}

proof fn lemma_pow2_127()
    ensures
        pow2(127) == 0x8000_0000_0000_0000_0000_0000_0000_0000,
{
    vstd::arithmetic::power2::lemma2_to64();
    vstd::arithmetic::power2::lemma2_to64_rest();
    lemma_pow2_adds(64, 63);
}

} // verus!
