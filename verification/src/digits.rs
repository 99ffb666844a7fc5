//! Sequences of decimal digits and the numbers that they write.

use vstd::prelude::*;
use crate::cursor::CharClass;

verus! {

/// The number that the digit `c` stands for.
pub open spec fn digit_value(c: char) -> nat {
    (c as nat - '0' as nat) as nat
}

/// Whether `digits` holds ASCII digits only.
pub open spec fn all_digits(digits: Seq<char>) -> bool {
    forall|i: int| 0 <= i < digits.len() ==> CharClass::Digit.contains(#[trigger] digits[i])
}

/// The number that a sequence of digits writes in base ten; the empty
/// sequence writes zero.
pub open spec fn digits_value(digits: Seq<char>) -> nat
    decreases digits.len(),
{
    if digits.len() == 0 {
        0
    } else {
        digits_value(digits.drop_last()) * 10 + digit_value(digits.last())
    }
}

/// One more digit at the end multiplies the number by ten and adds the digit.
pub proof fn lemma_digits_value_push(digits: Seq<char>, c: char)
    ensures
        digits_value(digits.push(c)) == digits_value(digits) * 10 + digit_value(c),
{
    assert(digits.push(c).drop_last() =~= digits);
}

/// A prefix of a sequence of digits writes no greater number than the whole.
pub proof fn lemma_digits_value_prefix(digits: Seq<char>, k: int)
    requires
        0 <= k <= digits.len(),
    ensures
        digits_value(digits.take(k)) <= digits_value(digits),
    decreases digits.len() - k,
{
    if k < digits.len() {
        lemma_digits_value_prefix(digits, k + 1);
        assert(digits.take(k + 1).drop_last() =~= digits.take(k));
    } else {
        assert(digits.take(k) =~= digits);
    }
}

/// One digit writes its own number.
pub proof fn lemma_single_digit(c: char)
    ensures
        digits_value(seq![c]) == digit_value(c),
{
    assert(seq![c] =~= Seq::<char>::empty().push(c));
    lemma_digits_value_push(Seq::<char>::empty(), c);
}

/// Ten to the power `n`.
pub open spec fn pow10(n: nat) -> nat
    decreases n,
{
    if n == 0 {
        1
    } else {
        10 * pow10((n - 1) as nat)
    }
}

/// A power of ten is positive.
pub proof fn lemma_pow10_positive(n: nat)
    ensures
        pow10(n) > 0,
    decreases n,
{
    if n > 0 {
        lemma_pow10_positive((n - 1) as nat);
    }
}

/// The digits of `a` followed by those of `b` write the number of `a`,
/// shifted by as many places as `b` has digits, plus the number of `b`.
pub proof fn lemma_digits_value_concat(a: Seq<char>, b: Seq<char>)
    ensures
        digits_value(a + b) == digits_value(a) * pow10(b.len()) + digits_value(b),
    decreases b.len(),
{
    if b.len() == 0 {
        assert(a + b =~= a);
        assert(digits_value(a) * pow10(0) == digits_value(a)) by (nonlinear_arith)
            requires
                pow10(0) == 1,
        ;
    } else {
        let front = b.drop_last();
        lemma_digits_value_concat(a, front);
        assert((a + b).drop_last() =~= a + front);
        assert((a + b).last() == b.last());
        let va = digits_value(a) as int;
        let vf = digits_value(front) as int;
        let p = pow10(front.len()) as int;
        let d = digit_value(b.last()) as int;
        assert(digits_value(a + b) == (va * p + vf) * 10 + d);
        assert((va * p + vf) * 10 + d == va * (10 * p) + (vf * 10 + d)) by (nonlinear_arith);
        assert(pow10(b.len()) == 10 * p);
    }
}

/// A run of `n` digits writes a number below ten to the power `n`.
pub proof fn lemma_digits_value_bound(digits: Seq<char>)
    requires
        all_digits(digits),
    ensures
        digits_value(digits) < pow10(digits.len()),
    decreases digits.len(),
{
    if digits.len() > 0 {
        let front = digits.drop_last();
        assert forall|i: int| 0 <= i < front.len() implies CharClass::Digit.contains(
            #[trigger] front[i],
        ) by {
            assert(front[i] == digits[i]);
        }
        lemma_digits_value_bound(front);
        assert(CharClass::Digit.contains(digits[digits.len() - 1]));
    }
}

/// Digits write zero where each of them is a zero, and there only.
pub proof fn lemma_zero_digits(digits: Seq<char>)
    requires
        all_digits(digits),
    ensures
        (digits_value(digits) == 0) == (forall|i: int|
            0 <= i < digits.len() ==> #[trigger] digits[i] == '0'),
    decreases digits.len(),
{
    if digits.len() > 0 {
        let front = digits.drop_last();
        assert forall|i: int| 0 <= i < front.len() implies CharClass::Digit.contains(
            #[trigger] front[i],
        ) by {
            assert(front[i] == digits[i]);
        }
        lemma_zero_digits(front);
        assert(CharClass::Digit.contains(digits[digits.len() - 1]));
        if digits_value(digits) == 0 {
            assert forall|i: int| 0 <= i < digits.len() implies digits[i] == '0' by {
                if i < front.len() {
                    assert(front[i] == digits[i]);
                }
            }
        } else if forall|i: int| 0 <= i < digits.len() ==> digits[i] == '0' {
            assert forall|i: int| 0 <= i < front.len() implies front[i] == '0' by {
                assert(front[i] == digits[i]);
            }
        }
    }
}

/// The number that `digits` writes, where it fits in 64 bits with a sign.
pub fn parse_digits(digits: &str) -> (value: Option<i64>)
    requires
        all_digits(digits@),
    ensures
        value == (if digits_value(digits@) <= i64::MAX {
            Some(digits_value(digits@) as i64)
        } else {
            None
        }),
{
    broadcast use vstd::string::group_string_axioms;

    let mut value: i64 = 0;
    for c in it: digits.chars()
        invariant
            it.seq() == digits@,
            all_digits(digits@),
            value == digits_value(digits@.take(it.index())),
    {
        let ghost k = it.index();
        assert(c == digits@[k]);
        assert(CharClass::Digit.contains(digits@[k]));
        let digit: i64 = (c as u32 - '0' as u32) as i64;
        proof {
            assert(digits@.take(k + 1) =~= digits@.take(k).push(c));
            lemma_digits_value_push(digits@.take(k), c);
            lemma_digits_value_prefix(digits@, k + 1);
        }
        if value > (i64::MAX - digit) / 10 {
            return None;
        }
        value = value * 10 + digit;
    }
    assert(digits@.take(digits@.len() as int) =~= digits@);
    Some(value)
}

/// The number that `digits` writes, where it fits in 64 bits.
pub fn digits_to_u64(digits: &Vec<char>) -> (value: Option<u64>)
    requires
        all_digits(digits@),
    ensures
        value == (if digits_value(digits@) <= u64::MAX {
            Some(digits_value(digits@) as u64)
        } else {
            None
        }),
{
    let mut value: u64 = 0;
    let mut i: usize = 0;
    while i < digits.len()
        invariant
            i <= digits.len(),
            all_digits(digits@),
            value == digits_value(digits@.take(i as int)),
        decreases digits.len() - i,
    {
        let c = digits[i];
        assert(CharClass::Digit.contains(digits@[i as int]));
        let digit: u64 = (c as u32 - '0' as u32) as u64;
        proof {
            assert(digits@.take(i + 1) =~= digits@.take(i as int).push(c));
            lemma_digits_value_push(digits@.take(i as int), c);
            lemma_digits_value_prefix(digits@, i + 1);
        }
        if value > (u64::MAX - digit) / 10 {
            return None;
        }
        value = value * 10 + digit;
        i = i + 1;
    }
    assert(digits@.take(digits@.len() as int) =~= digits@);
    Some(value)
}

/// Whether `digits` writes zero.
pub fn is_zero(digits: &Vec<char>) -> (zero: bool)
    requires
        all_digits(digits@),
    ensures
        zero == (digits_value(digits@) == 0),
{
    let mut i: usize = 0;
    while i < digits.len()
        invariant
            i <= digits.len(),
            all_digits(digits@),
            forall|k: int| 0 <= k < i ==> digits@[k] == '0',
        decreases digits.len() - i,
    {
        if digits[i] != '0' {
            proof {
                lemma_zero_digits(digits@);
                assert(digits@[i as int] != '0');
            }
            return false;
        }
        i = i + 1;
    }
    proof {
        lemma_zero_digits(digits@);
    }
    true
}

/// Doubles the number that `digits` writes, in place: the digits are those
/// of the double without its carry, which is returned.
pub fn double_digits(digits: &mut Vec<char>) -> (carry: u64)
    requires
        all_digits(old(digits)@),
    ensures
        all_digits(final(digits)@),
        final(digits)@.len() == old(digits)@.len(),
        carry <= 1,
        digits_value(final(digits)@) + carry * pow10(old(digits)@.len()) == 2 * digits_value(
            old(digits)@,
        ),
{
    let ghost before = digits@;
    let count = digits.len();
    let mut carry: u64 = 0;
    let mut i: usize = count;
    proof {
        assert(before.skip(count as int) =~= Seq::<char>::empty());
        assert(digits@.skip(count as int) =~= Seq::<char>::empty());
        assert(pow10(0) == 1);
    }
    while i > 0
        invariant
            i <= count == before.len() == digits@.len(),
            all_digits(before),
            carry <= 1,
            digits@.take(i as int) == before.take(i as int),
            all_digits(digits@.skip(i as int)),
            digits_value(digits@.skip(i as int)) + carry * pow10((count - i) as nat) == 2
                * digits_value(before.skip(i as int)),
        decreases i,
    {
        i = i - 1;
        let c = digits[i];
        assert(digits@[i as int] == digits@.take(i + 1)[i as int]);
        assert(c == before[i as int]);
        assert(CharClass::Digit.contains(before[i as int]));
        let sum: u64 = 2 * (c as u32 - '0' as u32) as u64 + carry;
        let ghost old_tail = digits@.skip(i + 1);
        let ghost old_carry = carry;
        let digit = digit_to_char((sum % 10) as u8);
        digits.set(i, digit);
        carry = sum / 10;
        proof {
            let p = pow10((count - i - 1) as nat);
            let tail = digits@.skip(i + 1);
            assert(tail =~= old_tail);
            assert(digits@.skip(i as int) =~= seq![digit] + tail);
            assert(before.skip(i as int) =~= seq![c] + before.skip(i + 1));
            lemma_single_digit(digit);
            lemma_single_digit(c);
            lemma_digits_value_concat(seq![digit], tail);
            lemma_digits_value_concat(seq![c], before.skip(i + 1));
            assert(digits@.take(i as int) =~= before.take(i as int)) by {
                assert forall|k: int| 0 <= k < i implies digits@[k] == before[k] by {
                    assert(before.take(i + 1)[k] == before[k]);
                }
            }
            assert(digit_value(digit) == sum % 10);
            assert(pow10((count - i) as nat) == 10 * p);
            assert(digit_value(digit) * p + digits_value(tail) + carry * (10 * p) == 2 * (
            digit_value(c) * p + digits_value(before.skip(i + 1)))) by (nonlinear_arith)
                requires
                    digit_value(digit) + 10 * carry == 2 * digit_value(c) + old_carry,
                    digits_value(tail) + old_carry * p == 2 * digits_value(before.skip(i + 1)),
            ;
            assert forall|k: int| 0 <= k < digits@.skip(i as int).len() implies CharClass::Digit.contains(
                #[trigger] digits@.skip(i as int)[k],
            ) by {
                if k > 0 {
                    assert(digits@.skip(i as int)[k] == old_tail[k - 1]);
                }
            }
        }
    }
    proof {
        assert(digits@.skip(0) =~= digits@);
        assert(before.skip(0) =~= before);
    }
    carry
}

/// The character that writes the digit `d`.
pub open spec fn digit_char(d: nat) -> char {
    (d + '0' as nat) as char
}

/// The digits that write `n` in base ten, without a zero in front; one zero
/// writes zero.
pub open spec fn decimal_digits(n: nat) -> Seq<char>
    decreases n,
{
    if n < 10 {
        seq![digit_char(n)]
    } else {
        decimal_digits(n / 10).push(digit_char(n % 10))
    }
}

/// The digits that write a number are digits, and they write that number.
pub proof fn lemma_decimal_digits(n: nat)
    ensures
        all_digits(decimal_digits(n)),
        decimal_digits(n).len() > 0,
        digits_value(decimal_digits(n)) == n,
    decreases n,
{
    if n < 10 {
        assert(seq![digit_char(n)] =~= Seq::<char>::empty().push(digit_char(n)));
        lemma_digits_value_push(Seq::<char>::empty(), digit_char(n));
    } else {
        lemma_decimal_digits(n / 10);
        lemma_digits_value_push(decimal_digits(n / 10), digit_char(n % 10));
    }
}

/// The character that writes the digit `d`.
pub fn digit_to_char(d: u8) -> (c: char)
    requires
        d < 10,
    ensures
        c == digit_char(d as nat),
{
    (d + 48) as char
}

/// The number `n` as it is written in base ten.
pub fn decimal_text(n: u64) -> (text: String)
    ensures
        text@ == decimal_digits(n as nat),
    decreases n,
{
    if n < 10 {
        let mut text = String::new();
        text.push(digit_to_char(n as u8));
        assert(text@ =~= seq![digit_char(n as nat)]);
        text
    } else {
        let mut text = decimal_text(n / 10);
        text.push(digit_to_char((n % 10) as u8));
        text
    }
}

} // verus!
