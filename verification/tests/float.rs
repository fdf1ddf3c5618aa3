//! Arithmetic against that of the machine.

use diaric::float::{Double, Single};

/// Bit patterns of all kinds: special values, powers of two with their
/// neighbours, and scattered ones.
fn doubles() -> Vec<f64> {
    let mut bits: Vec<u64> = Vec::new();
    for e in [0u64, 1, 2, 52, 53, 54, 511, 970, 1000, 1022, 1023, 1024, 1075, 1076, 1534, 2045, 2046]
    {
        for m in [0u64, 1, 2, (1 << 51) - 1, 1 << 51, (1 << 51) + 1, (1 << 52) - 1] {
            bits.push((e << 52) | m);
        }
    }
    bits.push(0x7ff0_0000_0000_0000);
    bits.push(0x7ff8_0000_0000_0000);
    let mut x: u64 = 0x9e37_79b9_7f4a_7c15;
    for _ in 0..60 {
        x ^= x << 13;
        x ^= x >> 7;
        x ^= x << 17;
        bits.push(x & !(1 << 63));
    }
    let mut all: Vec<f64> = bits.iter().map(|&b| f64::from_bits(b)).collect();
    let negative: Vec<f64> = all.iter().map(|&v| -v).collect();
    all.extend(negative);
    all
}

fn singles() -> Vec<f32> {
    let mut bits: Vec<u32> = Vec::new();
    for e in [0u32, 1, 2, 23, 24, 25, 63, 100, 126, 127, 128, 150, 151, 190, 253, 254] {
        for m in [0u32, 1, 2, (1 << 22) - 1, 1 << 22, (1 << 22) + 1, (1 << 23) - 1] {
            bits.push((e << 23) | m);
        }
    }
    bits.push(0x7f80_0000);
    bits.push(0x7fc0_0000);
    let mut x: u32 = 0x9e37_79b9;
    for _ in 0..60 {
        x ^= x << 13;
        x ^= x >> 17;
        x ^= x << 5;
        bits.push(x & !(1 << 31));
    }
    let mut all: Vec<f32> = bits.iter().map(|&b| f32::from_bits(b)).collect();
    let negative: Vec<f32> = all.iter().map(|&v| -v).collect();
    all.extend(negative);
    all
}

fn d(x: f64) -> Double {
    Double::from_bits(x.to_bits())
}

fn s(x: f32) -> Single {
    Single::from_bits(x.to_bits())
}

fn check_double(got: Double, want: f64, what: &str) {
    let got = f64::from_bits(got.to_bits());
    assert!(
        got.to_bits() == want.to_bits() || (got.is_nan() && want.is_nan()),
        "{what}: got {got:e}, want {want:e}"
    );
}

fn check_single(got: Single, want: f32, what: &str) {
    let got = f32::from_bits(got.to_bits());
    assert!(
        got.to_bits() == want.to_bits() || (got.is_nan() && want.is_nan()),
        "{what}: got {got:e}, want {want:e}"
    );
}

#[test]
fn double_arithmetic_is_that_of_the_machine() {
    let all = doubles();
    for &x in &all {
        for &y in &all {
            check_double(d(x).add(d(y)), x + y, "sum");
            check_double(d(x).sub(d(y)), x - y, "difference");
            check_double(d(x).mul(d(y)), x * y, "product");
            check_double(d(x).div(d(y)), x / y, "quotient");
            assert_eq!(d(x).lt(d(y)), x < y);
            assert_eq!(d(x).le(d(y)), x <= y);
            assert_eq!(d(x).gt(d(y)), x > y);
            assert_eq!(d(x).ge(d(y)), x >= y);
            assert_eq!(d(x).same(d(y)), x == y);
            if x != y {
                check_double(d(x).max(d(y)), x.max(y), "larger");
                check_double(d(x).min(d(y)), x.min(y), "smaller");
            }
        }
    }
}

#[test]
fn double_functions_are_those_of_the_machine() {
    for x in doubles() {
        check_double(d(x).neg(), -x, "negation");
        check_double(d(x).abs(), x.abs(), "absolute value");
        check_double(d(x).sqrt(), x.sqrt(), "root");
        check_double(d(x).round_ties_even(), x.round_ties_even(), "rounding");
        check_single(d(x).to_single(), x as f32, "narrowing");
        assert_eq!(d(x).to_i64(), x as i64);
        assert_eq!(d(x).is_nan(), x.is_nan());
        assert_eq!(d(x).is_finite(), x.is_finite());
    }
}

#[test]
fn single_arithmetic_is_that_of_the_machine() {
    let all = singles();
    for &x in &all {
        for &y in &all {
            check_single(s(x).add(s(y)), x + y, "sum");
            check_single(s(x).sub(s(y)), x - y, "difference");
            check_single(s(x).mul(s(y)), x * y, "product");
            check_single(s(x).div(s(y)), x / y, "quotient");
            assert_eq!(s(x).lt(s(y)), x < y);
            assert_eq!(s(x).le(s(y)), x <= y);
            assert_eq!(s(x).gt(s(y)), x > y);
            assert_eq!(s(x).ge(s(y)), x >= y);
            assert_eq!(s(x).same(s(y)), x == y);
            if x != y {
                check_single(s(x).max(s(y)), x.max(y), "larger");
                check_single(s(x).min(s(y)), x.min(y), "smaller");
            }
        }
    }
}

#[test]
fn single_functions_are_those_of_the_machine() {
    for x in singles() {
        check_single(s(x).neg(), -x, "negation");
        check_single(s(x).abs(), x.abs(), "absolute value");
        check_single(s(x).sqrt(), x.sqrt(), "root");
        check_double(s(x).to_double(), x as f64, "widening");
        assert_eq!(s(x).is_nan(), x.is_nan());
        assert_eq!(s(x).is_finite(), x.is_finite());
    }
}

#[test]
fn integers_convert_as_on_the_machine() {
    let mut n: u64 = 1;
    for i in 0..64 {
        for k in [n.wrapping_sub(1), n, n + 1, n | (n >> 1), n | (n >> 24) | 1, n | (n >> 53) | 1] {
            check_double(Double::from_u64(k), k as f64, "integer");
            check_single(Single::from_u64(k), k as f32, "integer");
        }
        if i < 63 {
            n = n << 1;
        }
    }
    check_double(Double::from_u64(u64::MAX), u64::MAX as f64, "integer");
    check_single(Single::from_u64(u64::MAX), u64::MAX as f32, "integer");
}

#[test]
fn halfway_cases_go_to_even() {
    check_double(d(4503599627370496.5).round_ties_even(), 4503599627370496.0, "rounding");
    check_double(d(2.5).round_ties_even(), 2.0, "rounding");
    check_double(d(3.5).round_ties_even(), 4.0, "rounding");
    check_double(d(-0.5).round_ties_even(), -0.0, "rounding");
    check_double(d(1.0).add(d(f64::EPSILON / 2.0)), 1.0, "sum");
    check_double(d(1.0 + f64::EPSILON).add(d(f64::EPSILON / 2.0)), 1.0 + 2.0 * f64::EPSILON, "sum");
}

#[test]
fn named_numbers_are_what_they_say() {
    check_double(Double::zero(), 0.0, "zero");
    check_double(Double::minus_zero(), -0.0, "negative zero");
    check_double(Double::one(), 1.0, "one");
    check_double(Double::infinity(), f64::INFINITY, "infinity");
    check_single(Single::zero(), 0.0, "zero");
    check_single(Single::minus_zero(), -0.0, "negative zero");
    check_single(Single::one(), 1.0, "one");
}

#[test]
fn sums_are_no_smaller_than_their_terms() {
    let all: Vec<f64> = doubles().into_iter().filter(|x| *x >= 0.0).collect();
    for &x in &all {
        for &y in &all {
            let sum = d(x).add(d(y));
            assert!(sum.ge(d(x)) && sum.ge(d(y)), "{x:e} + {y:e}");
        }
    }
}

#[test]
fn roots_and_conversions_keep_the_order() {
    let mut all: Vec<f64> = doubles().into_iter().filter(|x| *x >= 0.0).collect();
    all.sort_by(f64::total_cmp);
    for pair in all.windows(2) {
        assert!(d(pair[0]).sqrt().le(d(pair[1]).sqrt()));
        assert!(d(pair[0]).to_single().le(d(pair[1]).to_single()));
    }
}

#[test]
fn rounding_goes_to_the_closest_number() {
    let third = d(1.0).div(d(3.0)).to_bits();
    let error = |bits: u64| (f64::from_bits(bits) * 3.0 - 1.0).abs();
    let exact = |bits: u64| {
        let m = ((bits & ((1 << 52) - 1)) | (1 << 52)) as i128;
        (3 * m - (1i128 << 54)).abs()
    };
    assert!(exact(third) < exact(third - 1) && exact(third) < exact(third + 1));
    assert_eq!(error(third), 0.0);
}
