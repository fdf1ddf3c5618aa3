//! Fixed-point weights for exact assignment arithmetic.
//!
//! Sums and differences of weights decide an assignment. All numbers of one problem
//! are counted in the same quantum, a power of two small enough that the largest keeps
//! the asked number of binary digits; whether that loses anything is tested.

use vstd::arithmetic::div_mod::{lemma_fundamental_div_mod, lemma_fundamental_div_mod_converse};
use vstd::arithmetic::power2::{lemma_pow2_adds, lemma_pow2_pos, lemma_pow2_strictly_increases, pow2};
use vstd::prelude::*;
use crate::aggregate::count::all_finite;
use crate::float::arith::{abs, lemma_zero_units, parts, Num};
use crate::float::double::{binary64, lemma_double_format, Double};
use crate::float::grid::lemma_units_increasing;
use crate::float::rounding::{digit_count, digits, lemma_digits, lemma_digits_unique, raised};

verus! {

/// `value` in whole quanta of `2^s`, toward zero.
pub open spec fn fixed_point(value: int, s: nat) -> int {
    if value < 0 { -((-value) / pow2(s) as int) } else { value / pow2(s) as int }
}

/// The most binary digits that any of the numbers has, counted in units.
pub open spec fn widest(values: Seq<Double>) -> nat
    decreases values.len(),
{
    if values.len() == 0 {
        0
    } else {
        let here = digits(abs(values.last().units()) as nat);
        let before = widest(values.drop_last());
        if here > before { here } else { before }
    }
}

/// The exponent of the quantum under which every number keeps at most `bits`
/// digits.
pub open spec fn quantum(values: Seq<Double>, bits: nat) -> nat {
    if widest(values) > bits { (widest(values) - bits) as nat } else { 0 }
}

/// The numbers in whole quanta.
pub open spec fn fixed_points(values: Seq<Double>, bits: nat) -> Seq<int> {
    Seq::new(values.len(), |i: int| fixed_point(values[i].units(), quantum(values, bits)))
}

proof fn lemma_widest(values: Seq<Double>, i: int)
    requires
        0 <= i < values.len(),
    ensures
        digits(abs(values[i].units()) as nat) <= widest(values),
    decreases values.len(),
{
    if i < values.len() - 1 {
        lemma_widest(values.drop_last(), i);
        assert(values.drop_last()[i] == values[i]);
    }
}

/// Shifting by `g` adds `g` digits.
proof fn lemma_digits_shifted(m: nat, g: nat)
    requires
        m > 0,
    ensures
        digits(m * pow2(g)) == digits(m) + g,
        m * pow2(g) > 0,
{
    lemma_digits(m);
    lemma_pow2_pos(g);
    let l = digits(m);
    lemma_pow2_adds((l - 1) as nat, g);
    lemma_pow2_adds(l, g);
    assert(pow2((l - 1) as nat) * pow2(g) <= m * pow2(g) < pow2(l) * pow2(g)) by (nonlinear_arith)
        requires
            pow2((l - 1) as nat) <= m < pow2(l),
            pow2(g) > 0,
    ;
    assert(m * pow2(g) > 0) by (nonlinear_arith)
        requires
            m > 0,
            pow2(g) > 0,
    ;
    lemma_digits_unique(m * pow2(g), l + g);
}

/// The number of digits of a finite number, counted in units.
fn width(x: Double) -> (w: u32)
    requires
        x.finite(),
    ensures
        w == digits(abs(x.units()) as nat),
        w <= 2200,
{
    proof {
        lemma_double_format();
        lemma_magnitude(x);
    }
    let n: Num = x.unpack();
    let (m, g) = parts(binary64(), n.magnitude);
    if m == 0 {
        proof {
            assert(0 * pow2(g as nat) == 0);
        }
        return 0;
    }
    let l: u32 = digit_count(m as u128);
    proof {
        lemma_digits_shifted(m as nat, g as nat);
    }
    l + g
}

/// The size of a number is the absolute value of its units.
proof fn lemma_magnitude(x: Double)
    ensures
        abs(x.units()) == binary64().size(x.num()),
        binary64().size(x.num()) >= 0,
{
    lemma_units_increasing(53, x.num().magnitude as int, x.num().magnitude + 1);
}

/// One number in whole quanta of `2^s`.
fn cut(x: Double, s: u32, bits: u32) -> (r: i128)
    requires
        x.finite(),
        digits(abs(x.units()) as nat) <= bits + s,
        bits <= 124,
        s <= 2200,
    ensures
        r == fixed_point(x.units(), s as nat),
        abs(r as int) < pow2(bits as nat),
{
    proof {
        lemma_double_format();
        lemma_magnitude(x);
        lemma_zero_units(53);
        lemma_pow2_pos(s as nat);
        lemma_pow2_pos(bits as nat);
    }
    let n: Num = x.unpack();
    let (m, g) = parts(binary64(), n.magnitude);
    let ghost size: int = binary64().size(n);
    let ghost ps: int = pow2(s as nat) as int;
    if m == 0 {
        proof {
            assert(0 * pow2(g as nat) == 0);
            vstd::arithmetic::div_mod::lemma_div_basics(ps);
        }
        return 0;
    }
    proof {
        lemma_digits(size as nat);
        let d = digits(size as nat);
        lemma_pow2_adds(bits as nat, s as nat);
        if d < bits + s {
            lemma_pow2_strictly_increases(d, (bits + s) as nat);
        }
        assert(0 <= size / ps < pow2(bits as nat)) by (nonlinear_arith)
            requires
                0 <= size < pow2(bits as nat) * ps,
                ps > 0,
        ;
        vstd::arithmetic::power2::lemma2_to64();
        vstd::arithmetic::power2::lemma2_to64_rest();
        lemma_pow2_adds(64, 60);
        assert(pow2(124) == 0x1000_0000_0000_0000_0000_0000_0000_0000);
        if bits < 124 {
            lemma_pow2_strictly_increases(bits as nat, 124);
        }
    }
    let q: u128 = if g >= s {
        let k: u32 = g - s;
        proof {
            lemma_pow2_adds(k as nat, s as nat);
            lemma_pow2_pos(k as nat);
            let whole = m * pow2(k as nat);
            assert(size == whole * ps + 0) by (nonlinear_arith)
                requires
                    size == m * (pow2(k as nat) * ps),
                    whole == m * pow2(k as nat),
            ;
            lemma_fundamental_div_mod_converse(size, ps, whole as int, 0);
            assert(pow2(k as nat) <= whole) by (nonlinear_arith)
                requires
                    whole == m * pow2(k as nat),
                    m >= 1,
            ;
            if k >= 124 {
                if k > 124 {
                    lemma_pow2_strictly_increases(124, k as nat);
                }
            }
        }
        raised(m as u128, k)
    } else {
        let k: u32 = s - g;
        proof {
            lemma_pow2_adds(k as nat, g as nat);
            lemma_pow2_pos(k as nat);
            lemma_pow2_pos(g as nat);
            crate::float::arith::lemma_scaled_division(m as int, pow2(k as nat) as int, pow2(g as nat) as int);
            if k >= 64 {
                if k > 64 {
                    lemma_pow2_strictly_increases(64, k as nat);
                }
                vstd::arithmetic::div_mod::lemma_basic_div(m as int, pow2(k as nat) as int);
            } else {
                vstd::bits::lemma_u64_shr_is_div(m, k as u64);
            }
        }
        if k >= 64 {
            0
        } else {
            (m >> (k as u64)) as u128
        }
    };
    proof {
        assert(q == size / ps);
        if n.negative {
            if size == 0 {
                vstd::arithmetic::div_mod::lemma_div_basics(ps);
            }
        }
    }
    if n.negative {
        -(q as i128)
    } else {
        q as i128
    }
}

/// The exponent of the quantum.
fn find_quantum(values: &[Double], bits: u32) -> (s: u32)
    requires
        all_finite(values@),
    ensures
        s == quantum(values@, bits as nat),
        widest(values@) <= bits + s,
        s <= 2200,
{
    let mut most: u32 = 0;
    let mut i: usize = 0;
    while i < values.len()
        invariant
            i <= values.len(),
            all_finite(values@),
            most == widest(values@.take(i as int)),
            most <= 2200,
        decreases values.len() - i,
    {
        let w: u32 = width(values[i]);
        proof {
            assert(values@.take(i + 1).drop_last() =~= values@.take(i as int));
        }
        if w > most {
            most = w;
        }
        i = i + 1;
    }
    proof {
        assert(values@.take(i as int) =~= values@);
    }
    if most > bits {
        most - bits
    } else {
        0
    }
}

/// The numbers in whole quanta, at most `bits` digits each.
pub fn quantise(values: &[Double], bits: u32) -> (r: Vec<i128>)
    requires
        all_finite(values@),
        bits <= 124,
    ensures
        r@.len() == values@.len(),
        forall|i: int|
            0 <= i < r@.len() ==> {
                &&& #[trigger] r@[i] == fixed_points(values@, bits as nat)[i]
                &&& abs(r@[i] as int) < pow2(bits as nat)
            },
{
    let s: u32 = find_quantum(values, bits);
    let mut r: Vec<i128> = Vec::with_capacity(values.len());
    while r.len() < values.len()
        invariant
            r.len() <= values.len(),
            all_finite(values@),
            bits <= 124,
            s <= 2200,
            s == quantum(values@, bits as nat),
            widest(values@) <= bits + s,
            forall|i: int|
                0 <= i < r@.len() ==> {
                    &&& #[trigger] r@[i] == fixed_points(values@, bits as nat)[i]
                    &&& abs(r@[i] as int) < pow2(bits as nat)
                },
        decreases values.len() - r.len(),
    {
        let k: usize = r.len();
        proof {
            lemma_widest(values@, k as int);
        }
        r.push(cut(values[k], s, bits));
    }
    r
}

/// `value` is a whole number of quanta.
pub open spec fn is_whole(value: int, s: nat) -> bool {
    fixed_point(value, s) * pow2(s) == value
}

/// Every value is a whole number of quanta.
pub open spec fn is_on_quantum(values: Seq<Double>, bits: nat) -> bool {
    forall|i: int|
        0 <= i < values.len() ==> is_whole(
            (#[trigger] values[i]).units(),
            quantum(values, bits),
        )
}

/// Whether a number is a whole number of quanta of `2^s`.
fn keeps(x: Double, s: u32) -> (r: bool)
    requires
        x.finite(),
    ensures
        r == is_whole(x.units(), s as nat),
{
    proof {
        lemma_double_format();
        lemma_magnitude(x);
        lemma_zero_units(53);
        lemma_pow2_pos(s as nat);
    }
    let n: Num = x.unpack();
    let (m, g) = parts(binary64(), n.magnitude);
    let ghost size: int = binary64().size(n);
    let ghost ps: int = pow2(s as nat) as int;
    proof {
        let q = size / ps;
        assert((-q) * ps == -(q * ps)) by (nonlinear_arith);
        assert(is_whole(x.units(), s as nat) <==> q * ps == size) by {
            if size == 0 {
                vstd::arithmetic::div_mod::lemma_div_basics(ps);
            }
        }
    }
    if g >= s {
        proof {
            let k = (g - s) as nat;
            lemma_pow2_adds(k, s as nat);
            let whole = m * pow2(k);
            assert(size == whole * ps + 0) by (nonlinear_arith)
                requires
                    size == m * (pow2(k) * ps),
                    whole == m * pow2(k),
            ;
            lemma_fundamental_div_mod_converse(size, ps, whole as int, 0);
        }
        return true;
    }
    let k: u32 = s - g;
    let ghost pk: int = pow2(k as nat) as int;
    let ghost pg: int = pow2(g as nat) as int;
    proof {
        lemma_pow2_adds(k as nat, g as nat);
        lemma_pow2_pos(k as nat);
        lemma_pow2_pos(g as nat);
        crate::float::arith::lemma_scaled_division(m as int, pk, pg);
        let q = m as int / pk;
        assert(k + g == s);
        assert(ps == pk * pg);
        assert(size == m * pg);
        assert(size / ps == q);
        assert(q * (pk * pg) == (q * pk) * pg) by (nonlinear_arith);
        assert((q * pk) * pg == m * pg <==> q * pk == m) by (nonlinear_arith)
            requires
                pg > 0,
        ;
        vstd::arithmetic::power2::lemma2_to64();
        vstd::arithmetic::power2::lemma2_to64_rest();
        lemma_fundamental_div_mod(m as int, pk);
        assert(pk * q == q * pk) by (nonlinear_arith);
        if k >= 64 {
            if k > 64 {
                lemma_pow2_strictly_increases(64, k as nat);
            }
            vstd::arithmetic::div_mod::lemma_basic_div(m as int, pk);
            assert(0 * pk == 0);
        } else {
            vstd::bits::lemma_u64_shr_is_div(m, k as u64);
        }
    }
    if k >= 64 {
        m == 0
    } else {
        let q: u64 = m >> (k as u64);
        raised(q as u128, k) == m as u128
    }
}

/// Whether every number is a whole number of quanta.
pub fn is_quantised(values: &[Double], bits: u32) -> (r: bool)
    requires
        all_finite(values@),
    ensures
        r == is_on_quantum(values@, bits as nat),
{
    let s: u32 = find_quantum(values, bits);
    let mut i: usize = 0;
    while i < values.len()
        invariant
            i <= values.len(),
            all_finite(values@),
            s == quantum(values@, bits as nat),
            forall|k: int| 0 <= k < i ==> is_whole((#[trigger] values@[k]).units(), s as nat),
        decreases values.len() - i,
    {
        if !keeps(values[i], s) {
            proof {
                assert(!is_whole(values@[i as int].units(), s as nat));
            }
            return false;
        }
        i = i + 1;
    }
    true
}

} // verus!
