//! Results that need no rounding.

use vstd::arithmetic::power2::{lemma_pow2_adds, lemma_pow2_pos, lemma_pow2_strictly_increases, pow2};
use vstd::prelude::*;
use crate::float::arith::{lemma_zero_units, Num};
use crate::float::double::{binary64, lemma_double_format, Double};
use crate::float::grid::{gap_exponent, half_span, lemma_parts, lemma_representable, lemma_split, significand, units};
use crate::float::laws::{lemma_root_exact, lemma_sizes_grow};
use crate::float::order::lemma_of_num;
use crate::float::rounding::{digits, lemma_digits};
use crate::float::single::{binary32, lemma_single_format, Single};

verus! {

/// `n 2^e` is the size of magnitude `b` of a double.
pub open spec fn is_place(n: nat, e: nat, b: int) -> bool {
    0 <= b < binary64().top && units(53, b) == n * pow2(e)
}

/// The magnitude of `n 2^e` units in double precision.
pub open spec fn place(n: nat, e: nat) -> int {
    choose|b: int| is_place(n, e, b)
}

/// Integers of up to 53 digits have a magnitude at every scale.
pub proof fn lemma_place(n: nat, e: nat)
    requires
        n < 0x20_0000_0000_0000,
        e <= 2045,
    ensures
        is_place(n, e, place(n, e)),
{
    lemma_double_format();
    vstd::arithmetic::power2::lemma2_to64();
    vstd::arithmetic::power2::lemma2_to64_rest();
    let h = half_span(53);
    assert(h == 0x10_0000_0000_0000);
    if n == 0 {
        lemma_zero_units(53);
        assert(0 * pow2(e) == 0);
        assert(is_place(n, e, 0));
    } else {
        let l = digits(n);
        lemma_digits(n);
        if l > 53 {
            lemma_pow2_strictly_increases(53, l);
            if l > 54 {
                lemma_pow2_strictly_increases(53, (l - 1) as nat);
            }
        }
        assert(l <= 53);
        let k = (53 - l) as nat;
        let (g, q): (nat, int) = if e >= k {
            ((e - k) as nat, (n * pow2(k)) as int)
        } else {
            (0, (n * pow2(e)) as int)
        };
        if e >= k {
            lemma_pow2_adds(k, (e - k) as nat);
            assert(q * pow2(g) == n * pow2(e)) by (nonlinear_arith)
                requires
                    q == n * pow2(k),
                    pow2(e) == pow2(k) * pow2(g),
            ;
            lemma_pow2_adds((l - 1) as nat, k);
            lemma_pow2_adds(l, k);
            lemma_pow2_pos(k);
            assert(h <= q < 2 * h) by (nonlinear_arith)
                requires
                    q == n * pow2(k),
                    pow2((l - 1) as nat) <= n < pow2(l),
                    h == pow2((l - 1) as nat) * pow2(k),
                    2 * h == pow2(l) * pow2(k),
                    pow2(k) > 0,
            ;
        } else {
            lemma_pow2_adds(l, e);
            lemma_pow2_pos(e);
            lemma_pow2_strictly_increases(l + e, 53);
            assert(0 <= q < 2 * h) by (nonlinear_arith)
                requires
                    q == n * pow2(e),
                    n < pow2(l),
                    pow2(l + e) == pow2(l) * pow2(e),
                    pow2(l + e) < 2 * h,
                    pow2(e) > 0,
            ;
            assert(q * 1 == n * pow2(e));
        }
        lemma_parts(53, g, q);
        let b = g * h + q;
        assert(b < binary64().top) by (nonlinear_arith)
            requires
                b == g * h + q,
                q < 2 * h,
                g <= 2045,
                h == 0x10_0000_0000_0000,
                binary64().top == 0x7ff0_0000_0000_0000,
        ;
        assert(is_place(n, e, b));
    }
}

/// The significand of a finite single-precision number.
pub open spec fn whole(x: Single) -> nat {
    significand(24, x.num().magnitude as int) as nat
}

/// Its exponent, in units.
pub open spec fn scale(x: Single) -> nat {
    gap_exponent(24, x.num().magnitude as int)
}

pub proof fn lemma_single_parts(x: Single)
    requires
        x.finite(),
    ensures
        whole(x) < 0x100_0000,
        scale(x) <= 253,
        binary32().size(x.num()) == whole(x) * pow2(scale(x)),
        x.num().magnitude > 0 ==> whole(x) > 0,
{
    lemma_single_format();
    vstd::arithmetic::power2::lemma2_to64();
    let b = x.num().magnitude as int;
    lemma_split(24, b);
    assert(half_span(24) == 0x80_0000);
    if b >= half_span(24) {
        assert(b / 0x80_0000 <= 254) by (nonlinear_arith)
            requires
                b < 255 * 0x80_0000,
        ;
    }
}

/// Widening keeps the exact value.
pub proof fn lemma_widened_exact(x: Single)
    requires
        x.finite(),
    ensures
        x.widened().finite(),
        x.widened().num().negative == x.num().negative,
        binary64().size(x.widened().num()) == binary32().size(x.num()) * pow2(925),
        is_place(whole(x), (scale(x) + 925) as nat, x.widened().num().magnitude as int),
{
    lemma_single_format();
    lemma_double_format();
    lemma_single_parts(x);
    let e = (scale(x) + 925) as nat;
    lemma_place(whole(x), e);
    let b = place(whole(x), e);
    let size = binary32().size(x.num());
    lemma_pow2_adds(scale(x), 925);
    assert(units(53, b) == size * pow2(925)) by (nonlinear_arith)
        requires
            units(53, b) == whole(x) * pow2(e),
            size == whole(x) * pow2(scale(x)),
            pow2(e) == pow2(scale(x)) * pow2(925),
    ;
    lemma_pow2_adds(925, 149);
    lemma_pow2_pos(149);
    assert(size * pow2(1074) == units(53, b) * pow2(149)) by (nonlinear_arith)
        requires
            units(53, b) == size * pow2(925),
            pow2(1074) == pow2(925) * pow2(149),
    ;
    lemma_representable(53, binary64().top as int, pow2(149) as int, b);
    lemma_of_num(binary32().converted(binary64(), x.num()));
}

/// Narrowing a widened number gives it back.
pub proof fn lemma_narrowed_back(x: Double, y: Single)
    requires
        y.finite(),
        !x.num().negative,
        x.finite(),
        binary64().size(x.num()) == binary32().size(y.num()) * pow2(925),
    ensures
        x.narrowed().num() == (Num { negative: false, magnitude: y.num().magnitude }),
{
    lemma_single_format();
    lemma_double_format();
    lemma_pow2_adds(925, 149);
    lemma_pow2_pos(1074);
    let size = binary32().size(y.num());
    assert(binary64().size(x.num()) * pow2(149) == size * pow2(1074)) by (nonlinear_arith)
        requires
            binary64().size(x.num()) == size * pow2(925),
            pow2(1074) == pow2(925) * pow2(149),
    ;
    lemma_representable(24, binary32().top as int, pow2(1074) as int, y.num().magnitude as int);
}

/// The square of a widened number is exact.
pub proof fn lemma_square_exact(x: Single)
    requires
        x.finite(),
    ensures
        ({
            let w = x.widened();
            let q = w.times(w);
            &&& q.finite()
            &&& !q.num().negative
            &&& binary64().size(q.num()) * pow2(1074) == binary64().size(w.num())
                * binary64().size(w.num())
            &&& binary64().size(q.num()) == binary32().size(x.num()) * binary32().size(x.num())
                * pow2(776)
        }),
{
    lemma_double_format();
    lemma_single_parts(x);
    lemma_widened_exact(x);
    let w = x.widened();
    let n = whole(x);
    let g = scale(x);
    let size = binary32().size(x.num());
    let wide = binary64().size(w.num());
    let square = n * n;
    assert(square < 0x1_0000_0000_0000) by (nonlinear_arith)
        requires
            square == n * n,
            0 <= n < 0x100_0000,
    ;
    let e = (2 * g + 776) as nat;
    lemma_place(square, e);
    let b = place(square, e);
    lemma_pow2_adds(g, g);
    lemma_pow2_adds((2 * g) as nat, 776);
    lemma_pow2_adds(925, 925);
    lemma_pow2_adds(776, 1074);
    assert(units(53, b) == size * size * pow2(776)) by (nonlinear_arith)
        requires
            units(53, b) == square * pow2(e),
            square == n * n,
            size == n * pow2(g),
            pow2(e) == pow2((2 * g) as nat) * pow2(776),
            pow2((2 * g) as nat) == pow2(g) * pow2(g),
    ;
    assert(wide * wide == units(53, b) * pow2(1074)) by (nonlinear_arith)
        requires
            wide == size * pow2(925),
            units(53, b) == size * size * pow2(776),
            pow2(1850) == pow2(925) * pow2(925),
            pow2(1850) == pow2(776) * pow2(1074),
    ;
    lemma_pow2_pos(1074);
    lemma_representable(53, binary64().top as int, pow2(1074) as int, b);
    lemma_of_num(binary64().times(w.num(), w.num()));
}

/// The root of the square of a number, in single precision, is its absolute value.
pub proof fn lemma_root_of_square(x: Single)
    requires
        x.finite(),
    ensures
        x.widened().times(x.widened()).root().narrowed().num() == (Num {
            negative: false,
            magnitude: x.num().magnitude,
        }),
{
    lemma_double_format();
    lemma_single_format();
    lemma_widened_exact(x);
    lemma_square_exact(x);
    let w = x.widened();
    let q = w.times(w);
    let f = binary64();
    lemma_sizes_grow(f, q.num(), q.num());
    lemma_sizes_grow(f, w.num(), w.num());
    lemma_pow2_pos(1074);
    let plain = Double::of(Num { negative: false, magnitude: w.num().magnitude });
    lemma_of_num(Num { negative: false, magnitude: w.num().magnitude });
    if q.num().magnitude == 0 {
        assert(f.size(w.num()) == 0) by (nonlinear_arith)
            requires
                f.size(q.num()) * pow2(1074) == f.size(w.num()) * f.size(w.num()),
                f.size(q.num()) == 0,
        ;
        assert(w.num().magnitude == 0);
        lemma_of_num(q.num());
        assert(q.root() == plain);
    } else {
        lemma_root_exact(53, f.top as int, w.num().magnitude as int);
        assert(q.root() == plain);
    }
    assert(f.size(plain.num()) == f.size(w.num()));
    lemma_narrowed_back(plain, x);
}

} // verus!
