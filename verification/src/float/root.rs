//! Correctly rounded square roots.

use vstd::arithmetic::div_mod::lemma_fundamental_div_mod;
use vstd::arithmetic::power2::{lemma_pow2_adds, lemma_pow2_pos, lemma_pow2_strictly_increases, lemma_pow2_unfold, pow2};
use vstd::prelude::*;
use crate::float::arith::{lemma_half_bound, lemma_many_digits, parts, Format, Num};
use crate::float::grid::{half_span, is_parts, lemma_half_span, lemma_parts, lemma_units_increasing, lemma_units_step, units};
use crate::float::rounding::{digit_count, digits, lemma_digits, lemma_pow2_above, lemma_settle_parts, pow2_above, raised, settle, settle_exponent, settle_floor, settle_up, settled};

verus! {

/// The square root of `radicand` (in units) rounds to magnitude `b`, ties to
/// even: it lies between the midpoints with the two neighbours, compared by
/// squares.
pub open spec fn root_rounds_to(p: nat, top: int, radicand: int, b: int) -> bool {
    &&& 0 <= b <= top
    &&& b > 0 ==> {
        let low = units(p, b - 1) + units(p, b);
        if b % 2 == 0 { low * low <= 4 * radicand } else { low * low < 4 * radicand }
    }
    &&& b < top ==> {
        let high = units(p, b) + units(p, b + 1);
        if b % 2 == 0 { 4 * radicand <= high * high } else { 4 * radicand < high * high }
    }
}

/// The magnitude that the square root of `radicand` rounds to.
pub open spec fn nearest_root(p: nat, top: int, radicand: int) -> int {
    choose|b: int| root_rounds_to(p, top, radicand, b)
}

impl Format {
    pub open spec fn root(self, x: Num) -> Num {
        if self.is_nan(x) || (x.negative && x.magnitude > 0) {
            self.nan()
        } else if x.magnitude == 0 || self.is_infinite(x) {
            x
        } else {
            Num {
                negative: false,
                magnitude: nearest_root(
                    self.p(),
                    self.top as int,
                    self.size(x) * pow2(self.unit as nat),
                ) as u64,
            }
        }
    }
}

pub proof fn lemma_square_order(a: int, b: int)
    requires
        0 <= a,
        0 <= b,
    ensures
        a < b <==> a * a < b * b,
        a == b <==> a * a == b * b,
{
    assert(a < b ==> a * a < b * b) by (nonlinear_arith)
        requires
            0 <= a,
            0 <= b,
    ;
    assert(b < a ==> b * b < a * a) by (nonlinear_arith)
        requires
            0 <= a,
            0 <= b,
    ;
}

/// A square root rounds to at most one magnitude.
pub proof fn lemma_nearest_root_unique(p: nat, top: int, radicand: int, b: int)
    requires
        p >= 1,
        root_rounds_to(p, top, radicand, b),
    ensures
        nearest_root(p, top, radicand) == b,
{
    let c = nearest_root(p, top, radicand);
    assert(root_rounds_to(p, top, radicand, c));
    lemma_root_rounds_ordered(p, top, radicand, b, c);
    lemma_root_rounds_ordered(p, top, radicand, c, b);
}

proof fn lemma_root_rounds_ordered(p: nat, top: int, radicand: int, a: int, b: int)
    requires
        p >= 1,
        root_rounds_to(p, top, radicand, a),
        root_rounds_to(p, top, radicand, b),
    ensures
        b <= a,
{
    if a + 1 < b {
        lemma_units_increasing(p, a, b - 1);
        lemma_units_increasing(p, a + 1, b);
        lemma_square_order(units(p, a) + units(p, a + 1), units(p, b - 1) + units(p, b));
    }
}

/// A root between two neighbours of the grid rounds to the one that the
/// comparison with their midpoint gives.
proof fn lemma_root_between(p: nat, top: int, radicand: int, g: nat, q: int, up: bool)
    requires
        p >= 2,
        top >= 0,
        is_parts(p, g, q),
        (q * pow2(g)) * (q * pow2(g)) <= radicand,
        radicand < ((q + 1) * pow2(g)) * ((q + 1) * pow2(g)),
        ({
            let mid = (2 * q + 1) * pow2(g);
            &&& up ==> (4 * radicand > mid * mid || (4 * radicand == mid * mid && q % 2 == 1))
            &&& !up ==> (4 * radicand < mid * mid || (4 * radicand == mid * mid && q % 2 == 0))
        }),
    ensures
        ({
            let b = g * half_span(p) + q + (if up { 1int } else { 0 });
            root_rounds_to(p, top, radicand, if b >= top { top } else { b })
        }),
{
    let h = half_span(p);
    let s = pow2(g) as int;
    let b0 = g * h + q;
    lemma_parts(p, g, q);
    lemma_units_step(p, b0);
    lemma_pow2_pos(g);
    lemma_half_span((p - 1) as nat);
    assert(b0 % 2 == q % 2) by {
        let k = half_span((p - 1) as nat);
        assert(g * h == 2 * (g * k)) by (nonlinear_arith)
            requires
                h == 2 * k,
        ;
    }
    let u0 = units(p, b0);
    let u1 = units(p, b0 + 1);
    assert(u0 + u1 == (2 * q + 1) * s) by (nonlinear_arith)
        requires
            u0 == q * s,
            u1 == q * s + s,
    ;
    assert(u1 == (q + 1) * s) by (nonlinear_arith)
        requires
            u1 == q * s + s,
    ;
    assert((2 * u0) * (2 * u0) == 4 * (u0 * u0)) by (nonlinear_arith);
    assert((2 * u1) * (2 * u1) == 4 * (u1 * u1)) by (nonlinear_arith);
    lemma_units_increasing(p, b0, b0 + 1);
    if b0 >= top {
        if top > 0 {
            lemma_units_increasing(p, top - 1, top);
            if top < b0 {
                lemma_units_increasing(p, top, b0);
            }
            lemma_square_order(units(p, top - 1) + units(p, top), 2 * u0);
        }
    } else if up {
        lemma_units_increasing(p, b0 + 1, b0 + 2);
        lemma_square_order(2 * u1, u1 + units(p, b0 + 2));
    } else {
        if b0 > 0 {
            lemma_units_increasing(p, b0 - 1, b0);
            lemma_square_order(units(p, b0 - 1) + u0, 2 * u0);
        }
    }
}

/// The root of `radicand` lies at `m * 2^e` units, or strictly between that and
/// `(m + 1) * 2^e` when `sticky`.
pub open spec fn root_placed(m: nat, e: int, sticky: bool, radicand: int) -> bool {
    let up = pow2_above(e);
    let down = pow2_above(-e);
    let value = radicand * (down * down);
    if sticky {
        (m * up) * (m * up) < value < ((m + 1) * up) * ((m + 1) * up)
    } else {
        value == (m * up) * (m * up)
    }
}

/// A placed root rounds to the settled magnitude.
proof fn lemma_settle_root(p: nat, top: int, m: nat, e: int, sticky: bool, radicand: int)
    requires
        p >= 2,
        top >= 0,
        m > 0,
        root_placed(m, e, sticky, radicand),
        digits(m) >= p + 2,
    ensures
        root_rounds_to(p, top, radicand, settle(p, top, m, e, sticky)),
{
    let g = settle_exponent(p, m, e);
    let d = g - e;
    let q = settle_floor(p, m, e);
    let s = pow2(g) as int;
    let up = pow2_above(e);
    let dn = pow2_above(-e);
    let value = radicand * (dn * dn);
    lemma_settle_parts(p, m, e);
    lemma_pow2_above(e);
    lemma_pow2_above(-e);
    lemma_pow2_pos(g);
    assert(d > 0);
    let k = d as nat;
    let pk = pow2(k) as int;
    lemma_pow2_pos(k);
    lemma_fundamental_div_mod(m as int, pk);
    let rest = m as int % pk;
    assert(s * dn == pk * up) by {
        vstd::arithmetic::power2::lemma2_to64();
        if e >= 0 {
            lemma_pow2_adds(k, e as nat);
        } else {
            lemma_pow2_adds(g, (-e) as nat);
        }
    }
    // floor
    let lo = q * s;
    assert(lo * dn <= m * up) by (nonlinear_arith)
        requires
            lo == q * s,
            s * dn == pk * up,
            m as int == pk * q + rest,
            rest >= 0,
            up >= 1,
    ;
    assert(0 <= lo * dn) by (nonlinear_arith)
        requires
            lo == q * s,
            q >= 0,
            s >= 0,
            dn >= 1,
    ;
    assert(0 <= m * up) by (nonlinear_arith)
        requires
            up >= 1,
    ;
    lemma_square_order(lo * dn, m * up);
    assert((lo * dn) * (lo * dn) == (lo * lo) * (dn * dn)) by (nonlinear_arith);
    assert(dn * dn >= 1) by (nonlinear_arith)
        requires
            dn >= 1,
    ;
    assert(lo * lo <= radicand) by (nonlinear_arith)
        requires
            (lo * lo) * (dn * dn) <= radicand * (dn * dn),
            dn * dn >= 1,
    ;
    // ceiling
    let hi = (q + 1) * s;
    assert(hi * dn >= (m + 1) * up) by (nonlinear_arith)
        requires
            hi == (q + 1) * s,
            s * dn == pk * up,
            m as int == pk * q + rest,
            rest + 1 <= pk,
            up >= 1,
    ;
    assert((m + 1) * up > m * up) by (nonlinear_arith)
        requires
            up >= 1,
    ;
    lemma_square_order((m + 1) * up, hi * dn);
    lemma_square_order(m * up, (m + 1) * up);
    assert((hi * dn) * (hi * dn) == (hi * hi) * (dn * dn)) by (nonlinear_arith);
    assert(radicand < hi * hi) by (nonlinear_arith)
        requires
            radicand * (dn * dn) < (hi * hi) * (dn * dn),
            dn * dn >= 1,
    ;
    // midpoint
    let mid = (2 * q + 1) * s;
    assert(mid * dn == (2 * q + 1) * (pk * up)) by (nonlinear_arith)
        requires
            mid == (2 * q + 1) * s,
            s * dn == pk * up,
    ;
    assert(mid * dn >= 0) by (nonlinear_arith)
        requires
            mid * dn == (2 * q + 1) * (pk * up),
            q >= 0,
            pk >= 1,
            up >= 1,
    ;
    assert((mid * dn) * (mid * dn) == (mid * mid) * (dn * dn)) by (nonlinear_arith);
    assert((2 * (m * up)) * (2 * (m * up)) == 4 * ((m * up) * (m * up))) by (nonlinear_arith);
    assert((2 * ((m + 1) * up)) * (2 * ((m + 1) * up)) == 4 * (((m + 1) * up) * ((m + 1) * up)))
        by (nonlinear_arith);
    if 2 * rest >= pk {
        assert(2 * (m * up) >= mid * dn) by (nonlinear_arith)
            requires
                mid * dn == (2 * q + 1) * (pk * up),
                m as int == pk * q + rest,
                2 * rest >= pk,
                up >= 1,
        ;
        assert(2 * rest == pk ==> 2 * (m * up) == mid * dn) by (nonlinear_arith)
            requires
                mid * dn == (2 * q + 1) * (pk * up),
                m as int == pk * q + rest,
        ;
        assert(2 * rest > pk ==> 2 * (m * up) > mid * dn) by (nonlinear_arith)
            requires
                mid * dn == (2 * q + 1) * (pk * up),
                m as int == pk * q + rest,
                up >= 1,
        ;
        lemma_square_order(mid * dn, 2 * (m * up));
        assert((mid * mid) * (dn * dn) <= 4 * value);
        assert(2 * rest > pk || sticky ==> (mid * mid) * (dn * dn) < 4 * value);
        assert(!(2 * rest > pk || sticky) ==> (mid * mid) * (dn * dn) == 4 * value);
        lemma_cancel(mid * mid, 4 * radicand, dn * dn);
        assert(4 * value == (4 * radicand) * (dn * dn)) by (nonlinear_arith)
            requires
                value == radicand * (dn * dn),
        ;
    } else {
        assert(pk % 2 == 0) by {
            lemma_pow2_unfold(k);
        }
        assert(2 * rest + 2 <= pk);
        assert(2 * ((m + 1) * up) <= mid * dn) by (nonlinear_arith)
            requires
                mid * dn == (2 * q + 1) * (pk * up),
                m as int == pk * q + rest,
                2 * rest + 2 <= pk,
                up >= 1,
        ;
        lemma_square_order(2 * ((m + 1) * up), mid * dn);
        assert(4 * value < (mid * mid) * (dn * dn));
        assert(4 * value == (4 * radicand) * (dn * dn)) by (nonlinear_arith)
            requires
                value == radicand * (dn * dn),
        ;
        lemma_cancel(mid * mid, 4 * radicand, dn * dn);
    }
    lemma_root_between(p, top, radicand, g, q, settle_up(p, m, e, sticky));
}

proof fn lemma_cancel(x: int, y: int, c: int)
    by (nonlinear_arith)
    requires
        c >= 1,
    ensures
        x * c < y * c <==> x < y,
        x * c == y * c <==> x == y,
{
}

/// The integer square root.
pub fn integer_root(n: u128) -> (r: u128)
    requires
        n < 0x4000_0000_0000_0000_0000_0000_0000_0000,
    ensures
        r * r <= n < (r + 1) * (r + 1),
{
    let mut lo: u128 = 0;
    let mut hi: u128 = 0x8000_0000_0000_0000;
    while hi - lo > 1
        invariant
            lo < hi <= 0x8000_0000_0000_0000,
            lo * lo <= n < hi * hi,
        decreases hi - lo,
    {
        let mid: u128 = lo + (hi - lo) / 2;
        proof {
            assert(0 <= mid * mid <= 0x8000_0000_0000_0000 * 0x8000_0000_0000_0000) by (nonlinear_arith)
                requires
                    0 <= mid <= 0x8000_0000_0000_0000,
            ;
        }
        if mid * mid <= n {
            lo = mid;
        } else {
            hi = mid;
        }
    }
    lo
}

/// The integer root of a radicand scaled by an even power of two is placed.
proof fn lemma_root_placed(m: int, t: nat, s: nat, e: int, r: nat, big: int, radicand: int)
    requires
        radicand == m * pow2(t),
        big == m * pow2(s),
        2 * e == t - s,
        r * r <= big < (r + 1) * (r + 1),
    ensures
        root_placed(r, e, r * r != big, radicand),
{
    let up = pow2_above(e);
    let dn = pow2_above(-e);
    let value = radicand * (dn * dn);
    assert(value == big * (up * up)) by {
        vstd::arithmetic::power2::lemma2_to64();
        if e >= 0 {
            lemma_pow2_adds(e as nat, e as nat);
            lemma_pow2_adds(s, (2 * e) as nat);
            assert(up == pow2(e as nat));
            assert(radicand * (1 * 1) == big * (up * up)) by (nonlinear_arith)
                requires
                    radicand == m * pow2(t),
                    pow2(t) == pow2(s) * (up * up),
                    big == m * pow2(s),
            ;
        } else {
            let n = (-e) as nat;
            lemma_pow2_adds(n, n);
            lemma_pow2_adds(t, 2 * n);
            assert(radicand * (dn * dn) == big * (1 * 1)) by (nonlinear_arith)
                requires
                    radicand == m * pow2(t),
                    pow2(s) == pow2(t) * (dn * dn),
                    big == m * pow2(s),
            ;
        }
    }
    lemma_pow2_above(e);
    assert((r * up) * (r * up) == (r * r) * (up * up)) by (nonlinear_arith);
    assert(((r + 1) * up) * ((r + 1) * up) == ((r + 1) * (r + 1)) * (up * up)) by (nonlinear_arith);
    assert(up * up >= 1) by (nonlinear_arith)
        requires
            up >= 1,
    ;
    lemma_cancel((r * r) as int, big, up * up);
    lemma_cancel(big, ((r + 1) * (r + 1)) as int, up * up);
}

/// The square root of a number.
pub fn square_root(f: Format, x: Num) -> (r: Num)
    requires
        f.valid(),
    ensures
        r == f.root(x),
        r.magnitude <= f.top + f.half / 2,
{
    proof {
        lemma_half_bound(f);
    }
    if x.magnitude > f.top || (x.negative && x.magnitude > 0) {
        return Num { negative: false, magnitude: f.top + f.half / 2 };
    }
    if x.magnitude == 0 || x.magnitude == f.top {
        return x;
    }
    let (m, g) = parts(f, x.magnitude);
    let l: u32 = digit_count(m as u128);
    let t: u32 = g + f.unit;
    proof {
        vstd::arithmetic::power2::lemma2_to64();
        vstd::arithmetic::power2::lemma2_to64_rest();
        lemma_digits(m as nat);
        if l > 53 {
            if l > 54 {
                lemma_pow2_strictly_increases(53, (l - 1) as nat);
            }
        }
    }
    let s: u32 = if (t + l) % 2 == 0 { 124 - l } else { 125 - l };
    let e: i32 = (t as i32 - s as i32) / 2;
    assert(2 * e == t - s);
    proof {
        lemma_pow2_adds(l as nat, s as nat);
        lemma_pow2_adds((l - 1) as nat, s as nat);
        lemma_pow2_pos(s as nat);
        assert(pow2(124) == 0x1000_0000_0000_0000_0000_0000_0000_0000) by {
            lemma_pow2_adds(64, 60);
        }
        lemma_pow2_unfold(125);
        lemma_pow2_unfold(124);
        assert(m * pow2(s as nat) < pow2((l + s) as nat)) by (nonlinear_arith)
            requires
                m < pow2(l as nat),
                pow2(s as nat) > 0,
                pow2((l + s) as nat) == pow2(l as nat) * pow2(s as nat),
        ;
        assert(m * pow2(s as nat) >= pow2((l + s - 1) as nat)) by (nonlinear_arith)
            requires
                m >= pow2((l - 1) as nat),
                pow2((l + s - 1) as nat) == pow2((l - 1) as nat) * pow2(s as nat),
        ;
    }
    let big: u128 = raised(m as u128, s);
    let r: u128 = integer_root(big);
    proof {
        assert(r >= 0x100_0000_0000_0000) by {
            if r < 0x100_0000_0000_0000 {
                assert((r + 1) * (r + 1) <= 0x100_0000_0000_0000 * 0x100_0000_0000_0000) by (nonlinear_arith)
                    requires
                        0 <= r < 0x100_0000_0000_0000,
                ;
            }
        }
        assert(r < 0x8000_0000_0000_0000) by {
            if r >= 0x8000_0000_0000_0000 {
                assert(r * r >= 0x8000_0000_0000_0000 * 0x8000_0000_0000_0000) by (nonlinear_arith)
                    requires
                        r >= 0x8000_0000_0000_0000,
                ;
            }
        }
        assert(r * r <= 0x8000_0000_0000_0000 * 0x8000_0000_0000_0000) by (nonlinear_arith)
            requires
                0 <= r < 0x8000_0000_0000_0000,
        ;
    }
    let sticky: bool = r * r != big;
    let magnitude: u64 = settled(f.precision, f.top, r, e, sticky);
    proof {
        let radicand = f.size(x) * pow2(f.unit as nat);
        lemma_pow2_adds(g as nat, f.unit as nat);
        assert(radicand == m * pow2(t as nat)) by (nonlinear_arith)
            requires
                radicand == (m * pow2(g as nat)) * pow2(f.unit as nat),
                pow2(t as nat) == pow2(g as nat) * pow2(f.unit as nat),
        ;
        lemma_root_placed(m as int, t as nat, s as nat, e as int, r as nat, big as int, radicand);
        if f.precision + 1 < 56 {
            lemma_pow2_strictly_increases((f.precision + 1) as nat, 56);
        }
        lemma_many_digits(r as nat, (f.precision + 1) as nat);
        lemma_settle_root(f.p(), f.top as int, r as nat, e as int, sticky, radicand);
        lemma_nearest_root_unique(f.p(), f.top as int, radicand, magnitude as int);
    }
    Num { negative: false, magnitude }
}

} // verus!
