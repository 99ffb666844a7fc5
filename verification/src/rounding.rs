//! The rounding of decimal numbers to binary numbers with 53 significant
//! bits, in whole-number arithmetic.
//!
//! The bits of a decimal fraction are had by doubling it: the carry of each
//! doubling is the next bit.  What is left of the fraction after the last bit
//! decides the rounding.

use vstd::prelude::*;
use vstd::arithmetic::div_mod::lemma_fundamental_div_mod;
use vstd::slice::slice_to_vec;
use crate::binary64::{
    binary_seconds, is_exponent, lemma_division, lemma_exponent_is, lemma_large_saturates,
    lemma_pow2_grows, lemma_pow2_positive, lemma_pow2_values, lemma_times, nearest, pow2,
    saturated, scale_up, Binary, SIGNIFICAND_LIMIT, SIGNIFICAND_MIN,
};
use crate::digits::{
    all_digits, digits_to_u64, digits_value, double_digits, is_zero, lemma_digits_value_bound,
    lemma_digits_value_concat, lemma_pow10_positive, pow10,
};

verus! {

/// Two to the power `e`.
pub fn power_of_two(e: u32) -> (power: u128)
    requires
        e <= 127,
    ensures
        power == pow2(e as nat),
{
    let mut power: u128 = 1;
    let mut i: u32 = 0;
    while i < e
        invariant
            i <= e <= 127,
            power == pow2(i as nat),
        decreases e - i,
    {
        proof {
            lemma_pow2_grows(i as nat, 126);
            lemma_pow2_values();
        }
        power = power * 2;
        i = i + 1;
    }
    power
}

/// The quotient `q` of a fraction, rounded to the nearest whole number and
/// to the even one where two are as near.  `below` says that less than a
/// half is left of the fraction, and `half` that just a half is left.
pub fn round_quotient(q: u64, below: bool, half: bool) -> (rounded: u64)
    requires
        q < u64::MAX,
    ensures
        rounded == if below || (half && q % 2 == 0) {
            q
        } else {
            (q + 1) as u64
        },
{
    if below || (half && q % 2 == 0) {
        q
    } else {
        q + 1
    }
}

/// The numerator of the number with the whole part `whole` and the digits
/// `fraction` behind the point, over ten to the power of their count.
pub open spec fn decimal_numerator(whole: nat, fraction: Seq<char>) -> nat {
    whole * pow10(fraction.len()) + digits_value(fraction)
}

/// A bound on the doublings that are left until `a` has 53 bits.  While `a`
/// is zero the fraction `f / d` grows, and from then on `a` grows.
pub open spec fn doublings_left(a: u64, d: nat, f: nat) -> int {
    if a == 0 {
        SIGNIFICAND_LIMIT + d - f
    } else {
        SIGNIFICAND_LIMIT - a
    }
}

/// The nearest binary number to `whole` and the decimal fraction that
/// `fraction` writes, where `whole` has less than 54 bits.  The bits of the
/// fraction are had by doubling it: each carry is the next bit.  The
/// exponent is returned as it is down to -300, and as -300 below that.
pub(crate) fn nearest_small(whole: u64, digits: Vec<char>) -> (result: (u64, i32, Ghost<int>))
    requires
        whole < SIGNIFICAND_LIMIT,
        all_digits(digits@),
        decimal_numerator(whole as nat, digits@) > 0,
    ensures
        nearest(decimal_numerator(whole as nat, digits@), pow10(digits@.len())) == (Binary {
            significand: result.0 as nat,
            exponent: result.2@,
        }),
        SIGNIFICAND_MIN <= result.0 <= SIGNIFICAND_LIMIT,
        -300 <= result.1 <= 0,
        result.2@ <= result.1,
        result.1 > -300 ==> result.2@ == result.1,
{
    let mut fraction = digits;
    let ghost d = pow10(fraction@.len());
    let ghost n = decimal_numerator(whole as nat, fraction@);
    let ghost mut j: nat = 0;
    let mut a: u64 = whole;
    let mut exponent: i32 = 0;
    proof {
        lemma_pow10_positive(fraction@.len());
        assert(n * pow2(0) == n) by (nonlinear_arith)
            requires
                pow2(0) == 1,
        ;
    }
    while a < SIGNIFICAND_MIN
        invariant
            all_digits(fraction@),
            d == pow10(fraction@.len()),
            d > 0,
            n > 0,
            n * pow2(j) == a * d + digits_value(fraction@),
            a < SIGNIFICAND_LIMIT,
            -300 <= exponent <= 0,
            -j <= exponent,
            exponent > -300 ==> exponent == -j,
        decreases doublings_left(a, d, digits_value(fraction@)),
    {
        let ghost before = digits_value(fraction@);
        let ghost a_before = a;
        proof {
            lemma_digits_value_bound(fraction@);
            lemma_pow2_positive(j);
            if a == 0 {
                assert(before > 0) by (nonlinear_arith)
                    requires
                        n * pow2(j) == before,
                        n > 0,
                        pow2(j) > 0,
                ;
            }
        }
        let carry = double_digits(&mut fraction);
        a = 2 * a + carry;
        if exponent > -300 {
            exponent = exponent - 1;
        }
        proof {
            lemma_digits_value_bound(fraction@);
            assert(n * pow2(j + 1) == a * d + digits_value(fraction@)) by (nonlinear_arith)
                requires
                    pow2(j + 1) == 2 * pow2(j),
                    n * pow2(j) == a_before * d + before,
                    digits_value(fraction@) + carry * d == 2 * before,
                    a == 2 * a_before + carry,
            ;
            if carry == 0 {
                assert(carry * d == 0) by (nonlinear_arith)
                    requires
                        carry == 0,
                ;
            }
            j = j + 1;
        }
    }
    proof {
        lemma_digits_value_bound(fraction@);
        lemma_division(n * pow2(j), d, a as nat, digits_value(fraction@));
        assert(scale_up(n, j as int) == n * pow2(j)) by {
            if j == 0 {
                assert(n * pow2(0) == n) by (nonlinear_arith)
                    requires
                        pow2(0) == 1,
                ;
            }
        }
        assert(scale_up(d, -(j as int)) == d);
        assert(is_exponent(n, d, -(j as int)));
        lemma_exponent_is(n, d, -(j as int));
    }
    let carry = double_digits(&mut fraction);
    let zero = is_zero(&fraction);
    proof {
        lemma_digits_value_bound(fraction@);
    }
    let significand = round_quotient(a, carry == 0, carry == 1 && zero);
    (significand, exponent, Ghost(-(j as int)))
}

/// The nearest binary number to `whole` and the decimal fraction that
/// `fraction` writes, where `whole` has 54 bits or more.  The significand is
/// cut out of `whole`; the fraction only decides where just a half is left.
pub(crate) fn nearest_large(whole: u64, fraction: &Vec<char>) -> (result: (u64, i32))
    requires
        whole >= SIGNIFICAND_LIMIT,
        all_digits(fraction@),
    ensures
        nearest(decimal_numerator(whole as nat, fraction@), pow10(fraction@.len())) == (Binary {
            significand: result.0 as nat,
            exponent: result.1 as int,
        }),
        SIGNIFICAND_MIN <= result.0 <= SIGNIFICAND_LIMIT,
        1 <= result.1 <= 11,
{
    let ghost d = pow10(fraction@.len());
    let ghost n = decimal_numerator(whole as nat, fraction@);
    let mut p: u64 = 2;
    let mut e: i32 = 1;
    proof {
        lemma_pow2_values();
        reveal_with_fuel(pow2, 2);
    }
    while whole / p >= SIGNIFICAND_LIMIT
        invariant
            1 <= e <= 11,
            p == pow2(e as nat),
            2 <= p <= 0x800,
            whole >= SIGNIFICAND_MIN * p,
        decreases 11 - e,
    {
        proof {
            lemma_pow2_values();
            lemma_fundamental_div_mod(whole as int, p as int);
            assert(whole >= SIGNIFICAND_LIMIT * p) by (nonlinear_arith)
                requires
                    whole / p >= SIGNIFICAND_LIMIT,
                    whole == p * (whole / p) + whole % p,
                    whole % p >= 0,
                    p > 0,
            ;
            assert(p < 0x800) by (nonlinear_arith)
                requires
                    whole >= SIGNIFICAND_LIMIT * p,
                    whole <= u64::MAX,
            ;
            assert(pow2(11) == 2 * pow2(10));
            lemma_pow2_grows(e as nat, 10);
        }
        p = p * 2;
        e = e + 1;
    }
    let q = whole / p;
    let low = whole % p;
    let half = p / 2;
    let zero = is_zero(fraction);
    proof {
        lemma_pow10_positive(fraction@.len());
        lemma_digits_value_bound(fraction@);
        lemma_pow2_positive(e as nat);
        lemma_fundamental_div_mod(whole as int, p as int);
        let f = digits_value(fraction@);
        let r = (low * d + f) as nat;
        assert(q >= SIGNIFICAND_MIN) by (nonlinear_arith)
            requires
                whole >= SIGNIFICAND_MIN * p,
                whole == p * q + low,
                low < p,
                p > 0,
        ;
        assert(n == q * (d * p) + r && r < d * p) by (nonlinear_arith)
            requires
                n == whole * d + f,
                whole == p * q + low,
                r == low * d + f,
                low < p,
                f < d,
        ;
        lemma_division(n, d * (p as nat), q as nat, r);
        assert(scale_up(n, -(e as int)) == n);
        assert(scale_up(d, e as int) == d * p);
        assert(is_exponent(n, d, e as int));
        lemma_exponent_is(n, d, e as int);
        let x = low * d;
        let y = half * d;
        assert(d * p == 2 * y) by (nonlinear_arith)
            requires
                p == 2 * half,
                y == half * d,
        ;
        assert(low < half ==> x + d <= y) by (nonlinear_arith)
            requires
                x == low * d,
                y == half * d,
                d > 0,
        ;
        assert(low > half ==> x >= y + d) by (nonlinear_arith)
            requires
                x == low * d,
                y == half * d,
                d > 0,
        ;
        assert((2 * r < d * p) == (low < half));
        assert((2 * r == d * p) == (low == half && f == 0));
    }
    (round_quotient(q, low < half, low == half && zero), e)
}

/// The product of the binary number `significand` times two to the power
/// `exponent` with `k`, rounded to 53 significant bits.  `clamped` is the
/// exponent as `nearest_small` returns it, and is returned in the same way.
pub(crate) fn times(significand: u64, clamped: i32, Ghost(exponent): Ghost<int>, k: u32) -> (result:
    (u64, i32, Ghost<int>))
    requires
        SIGNIFICAND_MIN <= significand <= SIGNIFICAND_LIMIT,
        k >= 1,
        -300 <= clamped <= 11,
        exponent <= clamped,
        clamped > -300 ==> exponent == clamped,
    ensures
        (Binary { significand: significand as nat, exponent }).times(k as nat) == (Binary {
            significand: result.0 as nat,
            exponent: result.2@,
        }),
        SIGNIFICAND_MIN <= result.0 <= SIGNIFICAND_LIMIT,
        -300 <= result.1 <= 44,
        result.2@ <= result.1,
        result.1 > -267 ==> result.2@ == result.1,
{
    proof {
        lemma_pow2_values();
    }
    assert(significand * k <= 0x20_0000_0000_0000 * 0xFFFF_FFFF) by (nonlinear_arith)
        requires
            significand <= 0x20_0000_0000_0000,
            k <= 0xFFFF_FFFF,
    ;
    assert(significand * k >= SIGNIFICAND_MIN) by (nonlinear_arith)
        requires
            significand >= SIGNIFICAND_MIN,
            k >= 1,
    ;
    let product: u128 = significand as u128 * k as u128;
    let mut p: u128 = 1;
    let mut t: i32 = 0;
    while product / p >= SIGNIFICAND_LIMIT as u128
        invariant
            0 <= t <= 33,
            p == pow2(t as nat),
            1 <= p <= 0x2_0000_0000,
            product >= SIGNIFICAND_MIN * p,
            product <= 0x20_0000_0000_0000 * 0xFFFF_FFFF,
        decreases 33 - t,
    {
        proof {
            lemma_pow2_values();
            lemma_fundamental_div_mod(product as int, p as int);
            assert(product >= SIGNIFICAND_LIMIT * p) by (nonlinear_arith)
                requires
                    product / p >= SIGNIFICAND_LIMIT,
                    product == p * (product / p) + product % p,
                    product % p >= 0,
                    p > 0,
            ;
            assert(p < 0x1_0000_0000) by (nonlinear_arith)
                requires
                    product >= SIGNIFICAND_LIMIT * p,
                    product <= 0x20_0000_0000_0000 * 0xFFFF_FFFF,
            ;
            assert(pow2(33) == 2 * pow2(32));
            lemma_pow2_grows(t as nat, 32);
        }
        p = p * 2;
        t = t + 1;
    }
    let q = product / p;
    let left = product % p;
    let rounded = round_quotient(q as u64, 2 * left < p, 2 * left == p);
    proof {
        lemma_fundamental_div_mod(product as int, p as int);
        assert(q >= SIGNIFICAND_MIN) by (nonlinear_arith)
            requires
                product >= SIGNIFICAND_MIN * p,
                product == p * q + left,
                left < p,
                p > 0,
        ;
        lemma_times(significand as nat, exponent, k as nat, t as nat);
    }
    (rounded, clamped + t, Ghost(exponent + t))
}

/// The binary number `significand` times two to the power `exponent`
/// without what stands behind the point, held at the greatest 64-bit number.
pub(crate) fn truncate(significand: u64, clamped: i32, Ghost(exponent): Ghost<int>) -> (whole: u64)
    requires
        SIGNIFICAND_MIN <= significand <= SIGNIFICAND_LIMIT,
        -300 <= clamped <= 44,
        exponent <= clamped,
        clamped > -267 ==> exponent == clamped,
    ensures
        whole == saturated((Binary { significand: significand as nat, exponent }).truncated()),
{
    proof {
        lemma_pow2_values();
    }
    if clamped >= 12 {
        proof {
            lemma_pow2_grows(12, exponent as nat);
            let power = pow2(exponent as nat);
            assert(significand * power >= 0x1_0000_0000_0000_0000) by (nonlinear_arith)
                requires
                    significand >= 0x10_0000_0000_0000,
                    power >= 0x1000,
            ;
            assert((significand * power) as int / 1 == significand * power);
        }
        u64::MAX
    } else if clamped > 0 {
        proof {
            lemma_pow2_grows(clamped as nat, 11);
        }
        let power = power_of_two(clamped as u32);
        assert(significand * power <= 0x20_0000_0000_0000 * 0x800) by (nonlinear_arith)
            requires
                significand <= 0x20_0000_0000_0000,
                power <= 0x800,
        ;
        let product: u128 = significand as u128 * power;
        assert(product as int / 1 == product);
        if product > u64::MAX as u128 {
            u64::MAX
        } else {
            product as u64
        }
    } else if clamped == 0 {
        assert(significand as int / 1 == significand);
        significand
    } else if clamped > -64 {
        let power = power_of_two((-clamped) as u32);
        proof {
            lemma_pow2_positive((-exponent) as nat);
            assert(1 * pow2((-exponent) as nat) == pow2((-exponent) as nat));
        }
        (significand as u128 / power) as u64
    } else {
        proof {
            let power = pow2((-exponent) as nat);
            lemma_pow2_grows(64, (-exponent) as nat);
            assert(1 * power == power);
            lemma_division(significand as nat, power, 0, significand as nat);
        }
        0
    }
}

/// The whole seconds of the decimal number with the digits `whole` before
/// the point and the digits `fraction` behind it, in units of `k` seconds,
/// as binary floating point computes them.
pub fn binary_seconds_of(whole: &Vec<char>, fraction: &Vec<char>, k: u32) -> (seconds: u64)
    requires
        all_digits(whole@),
        all_digits(fraction@),
    ensures
        seconds == binary_seconds(
            digits_value(whole@ + fraction@),
            pow10(fraction@.len()),
            k as nat,
        ),
{
    let ghost d = pow10(fraction@.len());
    let ghost n = digits_value(whole@ + fraction@);
    proof {
        lemma_pow10_positive(fraction@.len());
        lemma_digits_value_concat(whole@, fraction@);
        lemma_digits_value_bound(fraction@);
        lemma_division(n, d, digits_value(whole@), digits_value(fraction@));
    }
    if k == 0 {
        return 0;
    }
    let number = match digits_to_u64(whole) {
        Some(number) => number,
        None => {
            proof {
                lemma_large_saturates(n, d, k as nat);
            }
            return u64::MAX;
        },
    };
    assert(n == decimal_numerator(number as nat, fraction@));
    if number >= SIGNIFICAND_LIMIT {
        assert(n > 0) by (nonlinear_arith)
            requires
                n == number * d + digits_value(fraction@),
                number > 0,
                d > 0,
        ;
        let (significand, exponent) = nearest_large(number, fraction);
        let (significand, clamped, exact) = times(significand, exponent, Ghost(exponent as int), k);
        truncate(significand, clamped, exact)
    } else if number == 0 && is_zero(fraction) {
        assert(n == 0) by (nonlinear_arith)
            requires
                n == number * d + digits_value(fraction@),
                number == 0,
                digits_value(fraction@) == 0,
        ;
        0
    } else {
        assert(n > 0) by (nonlinear_arith)
            requires
                n == number * d + digits_value(fraction@),
                number > 0 || digits_value(fraction@) > 0,
                d > 0,
        ;
        let (significand, clamped, exact) = nearest_small(number, slice_to_vec(fraction.as_slice()));
        let (significand, clamped, exact) = times(significand, clamped, exact, k);
        truncate(significand, clamped, exact)
    }
}

} // verus!
