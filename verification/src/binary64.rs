//! The arithmetic of binary floating point with 53 significant bits, on
//! fractions of natural numbers.
//!
//! A number is rounded to the nearest number that 53 bits and a power of two
//! can write, and to the one with an even last bit where two are as near.
//! The exponent is not bounded here: numbers too small or too large for the
//! 64-bit format are cut down to zero or held at the greatest 64-bit whole
//! number either way.

use vstd::prelude::*;
use vstd::arithmetic::div_mod::{
    lemma_div_denominator, lemma_fundamental_div_mod, lemma_fundamental_div_mod_converse,
};

verus! {

/// Two to the power 52: the least significand.
pub const SIGNIFICAND_MIN: u64 = 0x10_0000_0000_0000;

/// Two to the power 53: the bound of the significands.
pub const SIGNIFICAND_LIMIT: u64 = 0x20_0000_0000_0000;

/// Two to the power `n`.
pub open spec fn pow2(n: nat) -> nat
    decreases n,
{
    if n == 0 {
        1
    } else {
        2 * pow2((n - 1) as nat)
    }
}

/// A power of two is positive.
pub proof fn lemma_pow2_positive(n: nat)
    ensures
        pow2(n) > 0,
    decreases n,
{
    if n > 0 {
        lemma_pow2_positive((n - 1) as nat);
    }
}

/// The powers of two grow with their exponents.
pub proof fn lemma_pow2_grows(a: nat, b: nat)
    requires
        a <= b,
    ensures
        pow2(a) <= pow2(b),
    decreases b,
{
    if a < b {
        lemma_pow2_grows(a, (b - 1) as nat);
    }
}

/// Two to the power of a sum is the product of the powers.
pub proof fn lemma_pow2_sum(a: nat, b: nat)
    ensures
        pow2(a + b) == pow2(a) * pow2(b),
    decreases b,
{
    if b == 0 {
        assert(pow2(a) * 1 == pow2(a));
    } else {
        lemma_pow2_sum(a, (b - 1) as nat);
        assert(pow2(a) * (2 * pow2((b - 1) as nat)) == 2 * (pow2(a) * pow2((b - 1) as nat)))
            by (nonlinear_arith);
    }
}

/// A power of two is greater than its exponent.
pub proof fn lemma_pow2_exceeds(n: nat)
    ensures
        pow2(n) > n,
    decreases n,
{
    if n > 0 {
        lemma_pow2_exceeds((n - 1) as nat);
    }
}

/// The powers of two that bound the numbers of 64 and of 128 bits.
pub proof fn lemma_pow2_values()
    ensures
        pow2(11) == 0x800,
        pow2(12) == 0x1000,
        pow2(33) == 0x2_0000_0000,
        pow2(52) == 0x10_0000_0000_0000,
        pow2(53) == 0x20_0000_0000_0000,
        pow2(64) == 0x1_0000_0000_0000_0000,
        pow2(126) == 0x4000_0000_0000_0000_0000_0000_0000_0000,
{
    reveal_with_fuel(pow2, 12);
    assert(pow2(11) == 0x800);
    assert(pow2(22) == 0x40_0000) by {
        lemma_pow2_sum(11, 11);
    }
    assert(pow2(33) == 0x2_0000_0000) by {
        lemma_pow2_sum(22, 11);
    }
    assert(pow2(52) == 0x10_0000_0000_0000) by {
        lemma_pow2_sum(22, 22);
        lemma_pow2_sum(44, 8);
        assert(pow2(8) == 0x100);
    }
    assert(pow2(53) == 0x20_0000_0000_0000);
    assert(pow2(64) == 0x1_0000_0000_0000_0000) by {
        lemma_pow2_sum(53, 11);
    }
    assert(pow2(126) == 0x4000_0000_0000_0000_0000_0000_0000_0000) by {
        lemma_pow2_sum(64, 52);
        lemma_pow2_sum(116, 10);
        assert(pow2(10) == 0x400);
    }
}

/// `n` times two to the power `e` where `e` is positive, and `n` itself
/// where it is not.
pub open spec fn scale_up(n: nat, e: int) -> nat {
    if e > 0 {
        n * pow2(e as nat)
    } else {
        n
    }
}

/// The fraction `n / d` divided by two to the power `e`, rounded down.
pub open spec fn quotient_at(n: nat, d: nat, e: int) -> nat {
    scale_up(n, -e) / scale_up(d, e)
}

/// Whether `e` is the exponent of `n / d`: divided by two to the power `e`,
/// the fraction has 53 bits before the point.
pub open spec fn is_exponent(n: nat, d: nat, e: int) -> bool {
    SIGNIFICAND_MIN <= quotient_at(n, d, e) < SIGNIFICAND_LIMIT
}

/// `n / d` rounded to the nearest whole number, and to the even one where
/// two are as near.
pub open spec fn round_half_even(n: nat, d: nat) -> nat {
    let q = n / d;
    let r = n % d;
    if 2 * r < d || (2 * r == d && q % 2 == 0) {
        q
    } else {
        q + 1
    }
}

/// A binary number: `significand` times two to the power `exponent`.
pub struct Binary {
    pub significand: nat,
    pub exponent: int,
}

impl Binary {
    /// The product of the number with the whole number `k`, rounded to 53
    /// significant bits.
    pub open spec fn times(self, k: nat) -> Binary {
        nearest(scale_up(self.significand * k, self.exponent), scale_up(1, -self.exponent))
    }

    /// The number without what stands behind the point.
    pub open spec fn truncated(self) -> nat {
        scale_up(self.significand, self.exponent) / scale_up(1, -self.exponent)
    }
}

/// The binary number with 53 significant bits that is nearest to `n / d`.
pub open spec fn nearest(n: nat, d: nat) -> Binary {
    let e = choose|e: int| is_exponent(n, d, e);
    Binary { significand: round_half_even(scale_up(n, -e), scale_up(d, e)), exponent: e }
}

/// `n` as a 64-bit number, held at the greatest of them.
pub open spec fn saturated(n: nat) -> u64 {
    if n <= u64::MAX {
        n as u64
    } else {
        u64::MAX
    }
}

/// The whole seconds of `n / d` units of `k` seconds, as binary floating
/// point computes them: the fraction is rounded to 53 significant bits, the
/// product with `k` is rounded again, and what stands behind the point is
/// cut off.
pub open spec fn binary_seconds(n: nat, d: nat, k: nat) -> u64 {
    if n == 0 || k == 0 {
        0
    } else {
        saturated(nearest(n, d).times(k).truncated())
    }
}

/// The quotient of `n` by `d` is `q`, and `r` is left, where `n` is `q`
/// times `d` and `r`, and `r` is less than `d`.
pub proof fn lemma_division(n: nat, d: nat, q: nat, r: nat)
    requires
        n == q * d + r,
        r < d,
    ensures
        n / d == q,
        n % d == r,
{
    lemma_fundamental_div_mod_converse(n as int, d as int, q as int, r as int);
}

/// A fraction keeps its quotient and its rounding when both its parts are
/// multiplied by the same number.
pub proof fn lemma_round_scaled(n: nat, d: nat, c: nat)
    requires
        d > 0,
        c > 0,
    ensures
        (n * c) / (d * c) == n / d,
        round_half_even(n * c, d * c) == round_half_even(n, d),
{
    let q = n / d;
    let r = n % d;
    lemma_fundamental_div_mod(n as int, d as int);
    assert(n * c == q * (d * c) + r * c) by (nonlinear_arith)
        requires
            n == d * q + r,
    ;
    assert(r * c < d * c) by (nonlinear_arith)
        requires
            r < d,
            c > 0,
    ;
    lemma_division(n * c, d * c, q, r * c);
    assert((2 * (r * c) < d * c) == (2 * r < d)) by (nonlinear_arith)
        requires
            c > 0,
    ;
    assert((2 * (r * c) == d * c) == (2 * r == d)) by (nonlinear_arith)
        requires
            c > 0,
    ;
}

/// One more in the exponent halves the quotient.
pub proof fn lemma_quotient_halves(n: nat, d: nat, e: int)
    requires
        d > 0,
    ensures
        quotient_at(n, d, e + 1) == quotient_at(n, d, e) / 2,
{
    if e >= 0 {
        // The denominator doubles.
        let p = pow2(e as nat);
        lemma_pow2_positive(e as nat);
        assert(d * (2 * p) == (d * p) * 2 && d * p > 0) by (nonlinear_arith)
            requires
                d > 0,
                p > 0,
        ;
        assert(d * 1 == d);
        lemma_div_denominator(n as int, scale_up(d, e) as int, 2);
    } else {
        // The numerator halves.
        let p = pow2((-e - 1) as nat);
        assert(n * (2 * p) == (n * p) * 2) by (nonlinear_arith);
        assert(n * 1 == n);
        let upper = scale_up(n, -e - 1);
        lemma_round_scaled(upper, d, 2);
        lemma_div_denominator((upper * 2) as int, d as int, 2);
        assert(d * 2 == 2 * d);
    }
}

/// A greater exponent gives no greater quotient.
pub proof fn lemma_quotient_falls(n: nat, d: nat, low: int, high: int)
    requires
        d > 0,
        low <= high,
    ensures
        quotient_at(n, d, high) <= quotient_at(n, d, low),
    decreases high - low,
{
    if low < high {
        lemma_quotient_falls(n, d, low, high - 1);
        lemma_quotient_halves(n, d, high - 1);
    }
}

/// A fraction has one exponent at most.
pub proof fn lemma_exponent_is(n: nat, d: nat, e: int)
    requires
        d > 0,
        is_exponent(n, d, e),
    ensures
        nearest(n, d) == (Binary {
            significand: round_half_even(scale_up(n, -e), scale_up(d, e)),
            exponent: e,
        }),
{
    let chosen = choose|x: int| is_exponent(n, d, x);
    if chosen < e {
        lemma_quotient_halves(n, d, chosen);
        lemma_quotient_falls(n, d, chosen + 1, e);
    } else if e < chosen {
        lemma_quotient_halves(n, d, e);
        lemma_quotient_falls(n, d, e + 1, chosen);
    }
}

/// Where the quotient at `e` has 53 bits or more, there is an exponent from
/// `e` on.
proof fn lemma_exponent_above(n: nat, d: nat, e: int)
    requires
        d > 0,
        quotient_at(n, d, e) >= SIGNIFICAND_MIN,
    ensures
        exists|x: int| e <= x && is_exponent(n, d, x),
    decreases quotient_at(n, d, e),
{
    if quotient_at(n, d, e) < SIGNIFICAND_LIMIT {
        assert(is_exponent(n, d, e));
    } else {
        lemma_quotient_halves(n, d, e);
        lemma_exponent_above(n, d, e + 1);
    }
}

/// Where the quotient at `e` is not zero and has 53 bits or less, there is
/// an exponent up to `e`.
proof fn lemma_exponent_below(n: nat, d: nat, e: int)
    requires
        d > 0,
        0 < quotient_at(n, d, e) < SIGNIFICAND_LIMIT,
    ensures
        exists|x: int| x <= e && is_exponent(n, d, x),
    decreases SIGNIFICAND_LIMIT - quotient_at(n, d, e),
{
    if quotient_at(n, d, e) >= SIGNIFICAND_MIN {
        assert(is_exponent(n, d, e));
    } else {
        lemma_quotient_halves(n, d, e - 1);
        lemma_exponent_below(n, d, e - 1);
    }
}

/// Every fraction but zero has an exponent.
pub proof fn lemma_exponent_exists(n: nat, d: nat)
    requires
        n > 0,
        d > 0,
    ensures
        exists|e: int| is_exponent(n, d, e),
        is_exponent(n, d, nearest(n, d).exponent),
{
    let e = -(d as int);
    lemma_pow2_exceeds(d);
    assert(scale_up(n, d as int) >= d) by (nonlinear_arith)
        requires
            scale_up(n, d as int) == n * pow2(d),
            pow2(d) > d,
            n >= 1,
    ;
    assert(scale_up(d, e) == d);
    lemma_fundamental_div_mod(scale_up(n, d as int) as int, d as int);
    assert(quotient_at(n, d, e) > 0) by (nonlinear_arith)
        requires
            scale_up(n, d as int) >= d,
            quotient_at(n, d, e) == scale_up(n, d as int) / d,
            scale_up(n, d as int) == d * (scale_up(n, d as int) / d) + scale_up(n, d as int) % d,
            scale_up(n, d as int) % d < d,
            d > 0,
    ;
    if quotient_at(n, d, e) >= SIGNIFICAND_MIN {
        lemma_exponent_above(n, d, e);
    } else {
        lemma_exponent_below(n, d, e);
    }
}

/// The product of a binary number with `k` has the exponent of the number
/// and `t` more where the product of the significand with `k`, divided by
/// two to the power `t`, has 53 bits; and its significand is that quotient,
/// rounded.
pub proof fn lemma_times(significand: nat, exponent: int, k: nat, t: nat)
    requires
        SIGNIFICAND_MIN <= (significand * k) / pow2(t) < SIGNIFICAND_LIMIT,
    ensures
        (Binary { significand, exponent }).times(k) == (Binary {
            significand: round_half_even(significand * k, pow2(t)),
            exponent: exponent + t,
        }),
{
    let product = significand * k;
    let p = pow2(t);
    let n = scale_up(product, exponent);
    let d = scale_up(1, -exponent);
    let e = exponent + t;
    lemma_pow2_positive(t);
    if exponent >= 0 {
        let c = pow2(exponent as nat);
        lemma_pow2_positive(exponent as nat);
        lemma_pow2_sum(t, exponent as nat);
        assert(product * 1 == product);
        assert(p * 1 == p);
        assert(n == product * c);
        assert(d == 1);
        assert(scale_up(d, e) == p * c);
        assert(scale_up(n, -e) == n);
        lemma_round_scaled(product, p, c);
    } else if e >= 0 {
        lemma_pow2_sum((-exponent) as nat, e as nat);
        assert(d == pow2((-exponent) as nat));
        assert(d * 1 == d);
        assert(scale_up(d, e) == p);
        assert(scale_up(n, -e) == product);
    } else {
        let c = pow2((-e) as nat);
        lemma_pow2_positive((-e) as nat);
        lemma_pow2_sum(t, (-e) as nat);
        assert(d == p * c);
        assert(scale_up(d, e) == d);
        assert(scale_up(n, -e) == product * c);
        lemma_round_scaled(product, p, c);
    }
    assert(quotient_at(n, d, e) == product / p);
    lemma_pow2_positive(if exponent < 0 {
        (-exponent) as nat
    } else {
        0
    });
    lemma_exponent_is(n, d, e);
}

/// The exponent of a fraction of two to the power 64 or more is 12 or more.
proof fn lemma_exponent_at_least_12(n: nat, d: nat, e: int)
    requires
        d > 0,
        n / d > u64::MAX,
        is_exponent(n, d, e),
    ensures
        e >= 12,
{
    if e < 12 {
        lemma_pow2_values();
        lemma_quotient_falls(n, d, e, 11);
        // The quotient at 11 is `n / d` divided by two to the power 11.
        assert(scale_up(n, -11) == n);
        lemma_div_denominator(n as int, d as int, 0x800);
        assert(quotient_at(n, d, 11) == (n / d) / 0x800);
    }
}

/// A fraction of two to the power 64 or more, times a whole number but zero,
/// is two to the power 64 or more when it is rounded and cut off.
pub proof fn lemma_large_saturates(n: nat, d: nat, k: nat)
    requires
        d > 0,
        k > 0,
        n / d > u64::MAX,
    ensures
        nearest(n, d).times(k).truncated() > u64::MAX,
{
    lemma_pow2_values();
    lemma_fundamental_div_mod(n as int, d as int);
    assert(n > 0) by (nonlinear_arith)
        requires
            n / d > 0,
            n == d * (n / d) + n % d,
            n % d >= 0,
            d > 0,
    ;
    lemma_exponent_exists(n, d);
    let first = nearest(n, d);
    lemma_exponent_at_least_12(n, d, first.exponent);
    let e = first.exponent;
    assert(first.significand >= quotient_at(n, d, e));
    // The product is a whole number of two to the power 64 or more.
    let product = scale_up(first.significand * k, e);
    let power = pow2(e as nat);
    lemma_pow2_grows(12, e as nat);
    assert(product >= 0x1_0000_0000_0000_0000) by (nonlinear_arith)
        requires
            product == first.significand * k * power,
            first.significand >= 0x10_0000_0000_0000,
            k >= 1,
            power >= 0x1000,
    ;
    assert(scale_up(1, -e) == 1);
    assert(product / 1 == product);
    lemma_exponent_exists(product, 1);
    let second = nearest(product, 1);
    lemma_exponent_at_least_12(product, 1, second.exponent);
    let f = second.exponent;
    lemma_pow2_grows(12, f as nat);
    let power2 = pow2(f as nat);
    assert(second.significand >= quotient_at(product, 1, f));
    assert(second.significand * power2 >= 0x1_0000_0000_0000_0000) by (nonlinear_arith)
        requires
            second.significand >= 0x10_0000_0000_0000,
            power2 >= 0x1000,
    ;
    assert(scale_up(1, -f) == 1);
    assert((second.significand * power2) as int / 1 == second.significand * power2);
}

/// A whole number of less than 54 bits, but zero, has 53 bits when it is
/// doubled often enough.
pub proof fn lemma_shift_exists(w: nat)
    requires
        0 < w < SIGNIFICAND_LIMIT,
    ensures
        exists|j: nat| SIGNIFICAND_MIN <= #[trigger] (w * pow2(j)) < SIGNIFICAND_LIMIT,
    decreases SIGNIFICAND_LIMIT - w,
{
    if w >= SIGNIFICAND_MIN {
        assert(w * pow2(0) == w) by (nonlinear_arith)
            requires
                pow2(0) == 1,
        ;
    } else {
        lemma_shift_exists(2 * w);
        let j = choose|j: nat| SIGNIFICAND_MIN <= #[trigger] ((2 * w) * pow2(j)) < SIGNIFICAND_LIMIT;
        assert(w * pow2(j + 1) == (2 * w) * pow2(j)) by (nonlinear_arith)
            requires
                pow2(j + 1) == 2 * pow2(j),
        ;
    }
}

/// The product of two whole numbers that has less than 54 bits is computed
/// exactly: nothing is rounded away.
pub proof fn lemma_whole_product_is_exact(w: nat, k: nat)
    requires
        w * k < SIGNIFICAND_LIMIT,
    ensures
        binary_seconds(w, 1, k) == w * k,
{
    if w == 0 || k == 0 {
        assert(w * k == 0) by (nonlinear_arith)
            requires
                w == 0 || k == 0,
        ;
    } else {
        assert(w <= w * k) by (nonlinear_arith)
            requires
                k >= 1,
        ;
        // The number itself.
        lemma_shift_exists(w);
        let j = choose|j: nat| SIGNIFICAND_MIN <= #[trigger] (w * pow2(j)) < SIGNIFICAND_LIMIT;
        let a = w * pow2(j);
        assert(w * pow2(0) == w) by (nonlinear_arith)
            requires
                pow2(0) == 1,
        ;
        assert(scale_up(w, j as int) == a);
        assert(scale_up(1, -(j as int)) == 1);
        assert(a / 1 == a && a % 1 == 0);
        assert(is_exponent(w, 1, -(j as int)));
        lemma_exponent_is(w, 1, -(j as int));
        let first = nearest(w, 1);
        assert(first == Binary { significand: a, exponent: -(j as int) });
        // The product.
        lemma_shift_exists(w * k);
        let j2 = choose|j2: nat|
            SIGNIFICAND_MIN <= #[trigger] ((w * k) * pow2(j2)) < SIGNIFICAND_LIMIT;
        let b = (w * k) * pow2(j2);
        if j2 > j {
            lemma_pow2_grows(j + 1, j2);
            assert(b >= 2 * a) by (nonlinear_arith)
                requires
                    b == (w * k) * pow2(j2),
                    a == w * pow2(j),
                    pow2(j2) >= pow2(j + 1),
                    pow2(j + 1) == 2 * pow2(j),
                    k >= 1,
            ;
        }
        let t = (j - j2) as nat;
        lemma_pow2_sum(j2, t);
        lemma_pow2_positive(t);
        assert(a * k == b * pow2(t) + 0) by (nonlinear_arith)
            requires
                a == w * pow2(j),
                b == (w * k) * pow2(j2),
                pow2(j) == pow2(j2) * pow2(t),
        ;
        lemma_division(a * k, pow2(t), b, 0);
        lemma_times(a, -(j as int), k, t);
        let second = first.times(k);
        assert(second == Binary { significand: b, exponent: -(j2 as int) });
        // What is left of it.
        lemma_pow2_positive(j2);
        assert(b == (w * k) * pow2(j2) + 0);
        lemma_division(b, pow2(j2), w * k, 0);
        assert(1 * pow2(j2) == pow2(j2));
        assert(b / 1 == b);
        assert((w * k) * pow2(0) == w * k) by (nonlinear_arith)
            requires
                pow2(0) == 1,
        ;
        assert(second.truncated() == w * k);
    }
}

} // verus!
