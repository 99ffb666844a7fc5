//! The literals of the command grammar: integers, reals and durations.
//!
//! Each rule is a spec function from a text to what the rule makes of it and
//! to the text that it leaves.  The parser of a rule moves its cursor to what
//! the rule leaves and returns what the rule makes.

use vstd::prelude::*;
use crate::cursor::{
    consume_whitespaces, lemma_run_len, run_len, scan_run, starts_with, CharClass, Cursor,
};
use crate::decimal::{Decimal, DecimalView};
use crate::digits::{all_digits, digits_value, parse_digits};
use crate::user_input_compiler::{invalid_syntax, yields, Input, Parsed};

verus! {

/// The message for a place where an integer was expected and no digit stood.
pub open spec fn invalid_integer() -> Seq<char> {
    "Invalid Integer"@
}

/// The message for an integer that is too large for 64 bits with a sign.
pub open spec fn integer_overflow() -> Seq<char> {
    "Invalid Integer: ParseIntError { kind: PosOverflow }"@
}

/// The rule `Integer`: blanks, then one digit or more.  The value is the run
/// of digits.  Where no digit follows the blanks nothing is consumed.
pub open spec fn spec_collect_integer(s: Seq<char>) -> Parsed<Seq<char>> {
    let blanks = run_len(s, CharClass::Blank) as int;
    let digits = run_len(s.skip(blanks), CharClass::Digit) as int;
    if digits == 0 {
        Parsed { outcome: Err(invalid_integer()), rest: s }
    } else {
        Parsed { outcome: Ok(s.subrange(blanks, blanks + digits)), rest: s.skip(blanks + digits) }
    }
}

/// The digits that `spec_collect_integer` yields are digits, and at least one.
pub proof fn lemma_collect_integer_digits(s: Seq<char>)
    ensures
        spec_collect_integer(s).outcome matches Ok(digits) ==> digits.len() > 0 && all_digits(
            digits,
        ),
{
    let blanks = run_len(s, CharClass::Blank) as int;
    lemma_run_len(s, CharClass::Blank);
    lemma_run_len(s.skip(blanks), CharClass::Digit);
    let n = run_len(s.skip(blanks), CharClass::Digit) as int;
    if n > 0 {
        let digits = s.subrange(blanks, blanks + n);
        assert forall|i: int| 0 <= i < digits.len() implies CharClass::Digit.contains(
            #[trigger] digits[i],
        ) by {
            assert(digits[i] == s.skip(blanks)[i]);
        }
    }
}

/// Reads an integer literal: skips blanks, then takes the digits that follow.
/// Fails with `Invalid Integer`, and leaves the cursor alone, where no digit
/// follows the blanks.
pub fn collect_integer(s: &mut Cursor) -> (result: Result<String, Input>)
    ensures
        yields(result, spec_collect_integer(old(s)@).outcome),
        final(s)@ == spec_collect_integer(old(s)@).rest,
{
    assert(s@.skip(0) =~= s@);
    let blanks = scan_run(s, 0, CharClass::Blank);
    let digits = scan_run(s, blanks, CharClass::Digit);
    if digits == 0 {
        Err(invalid_syntax("Invalid Integer"))
    } else {
        let text = s.slice_text(blanks, blanks + digits);
        s.advance(blanks + digits);
        Ok(text)
    }
}

/// The rule `Integer` as a number.  The digits are consumed; where they
/// write a number that does not fit in 64 bits with a sign, the outcome is an
/// error all the same.
pub open spec fn spec_match_integer(s: Seq<char>) -> Parsed<i64> {
    let collected = spec_collect_integer(s);
    match collected.outcome {
        Ok(digits) => if digits_value(digits) <= i64::MAX {
            Parsed { outcome: Ok(digits_value(digits) as i64), rest: collected.rest }
        } else {
            Parsed { outcome: Err(integer_overflow()), rest: collected.rest }
        },
        Err(message) => Parsed { outcome: Err(message), rest: collected.rest },
    }
}

/// Reads an integer literal without a sign and returns its number.
pub fn match_integer(s: &mut Cursor) -> (result: Result<i64, Input>)
    ensures
        yields(result, spec_match_integer(old(s)@).outcome),
        final(s)@ == spec_match_integer(old(s)@).rest,
        result matches Ok(n) ==> n >= 0,
{
    proof {
        lemma_collect_integer_digits(s@);
    }
    match collect_integer(s) {
        Ok(digits) => match parse_digits(digits.as_str()) {
            Some(value) => Ok(value),
            None => Err(invalid_syntax("Invalid Integer: ParseIntError { kind: PosOverflow }")),
        },
        Err(error) => Err(error),
    }
}

/// An integer with an optional sign: blanks, an optional `-`, then the rule
/// `Integer`.  The blanks and the sign are consumed even where no integer
/// follows them.
pub open spec fn spec_match_full_integer(s: Seq<char>) -> Parsed<i64> {
    let unsigned = s.skip(run_len(s, CharClass::Blank) as int);
    if unsigned.len() > 0 && unsigned[0] == '-' {
        let magnitude = spec_match_integer(unsigned.drop_first());
        match magnitude.outcome {
            Ok(n) => Parsed { outcome: Ok((-n) as i64), rest: magnitude.rest },
            Err(message) => magnitude,
        }
    } else {
        spec_match_integer(unsigned)
    }
}

/// Reads an integer literal that may carry a `-` sign and returns its number.
pub fn match_full_integer(s: &mut Cursor) -> (result: Result<i64, Input>)
    ensures
        yields(result, spec_match_full_integer(old(s)@).outcome),
        final(s)@ == spec_match_full_integer(old(s)@).rest,
{
    let _ = consume_whitespaces(s);
    let negative = match s.peek() {
        Some(c) => c == '-',
        None => false,
    };
    if negative {
        let _ = s.next();
    }
    match match_integer(s) {
        Ok(value) => if negative {
            Ok(-value)
        } else {
            Ok(value)
        },
        Err(error) => Err(error),
    }
}

/// The rule `Real`: an integer, and after it, where a point follows at once,
/// the point and a second integer.  A point that no integer follows is an
/// error; the first integer and the point are consumed then.
pub open spec fn spec_match_real(s: Seq<char>) -> Parsed<DecimalView> {
    let whole = spec_collect_integer(s);
    match whole.outcome {
        Ok(w) => if whole.rest.len() > 0 && whole.rest[0] == '.' {
            let fraction = spec_collect_integer(whole.rest.drop_first());
            match fraction.outcome {
                Ok(f) => Parsed {
                    outcome: Ok(DecimalView { whole: w, fraction: f }),
                    rest: fraction.rest,
                },
                Err(message) => Parsed { outcome: Err(message), rest: fraction.rest },
            }
        } else {
            Parsed {
                outcome: Ok(DecimalView { whole: w, fraction: Seq::empty() }),
                rest: whole.rest,
            }
        },
        Err(message) => Parsed { outcome: Err(message), rest: whole.rest },
    }
}

/// The rule `Real`, with the literal as it is written for its value.
pub open spec fn spec_collect_real(s: Seq<char>) -> Parsed<Seq<char>> {
    let number = spec_match_real(s);
    Parsed {
        outcome: match number.outcome {
            Ok(decimal) => Ok(decimal.text()),
            Err(message) => Err(message),
        },
        rest: number.rest,
    }
}

/// Reads a real literal and returns it with all its digits: nothing is
/// rounded here.
pub fn match_real(s: &mut Cursor) -> (result: Result<Decimal, Input>)
    ensures
        yields(result, spec_match_real(old(s)@).outcome),
        final(s)@ == spec_match_real(old(s)@).rest,
{
    proof {
        lemma_collect_integer_digits(s@);
    }
    let whole = match collect_integer(s) {
        Ok(digits) => digits,
        Err(error) => {
            return Err(error);
        },
    };
    let point = match s.peek() {
        Some(c) => c == '.',
        None => false,
    };
    if point {
        let _ = s.next();
        proof {
            lemma_collect_integer_digits(s@);
        }
        match collect_integer(s) {
            Ok(fraction) => Ok(Decimal::new(whole.as_str(), fraction.as_str())),
            Err(error) => Err(error),
        }
    } else {
        let fraction = String::new();
        Ok(Decimal::new(whole.as_str(), fraction.as_str()))
    }
}

/// Reads a real literal and returns it as it is written, with one point
/// between the digits where it has a fraction.
pub fn collect_real(s: &mut Cursor) -> (result: Result<String, Input>)
    ensures
        yields(result, spec_collect_real(old(s)@).outcome),
        final(s)@ == spec_collect_real(old(s)@).rest,
{
    match match_real(s) {
        Ok(decimal) => Ok(decimal.to_text()),
        Err(error) => Err(error),
    }
}

/// The message for a duration without a unit.
pub open spec fn invalid_time_suffix() -> Seq<char> {
    "Invalid TimeSuffix"@
}

/// The rule `TimeSuffix`: blanks, then a unit, for which its number of
/// seconds stands.  The blanks are consumed, the unit is not.
pub open spec fn spec_match_timesuffix(s: Seq<char>) -> Parsed<i64> {
    let unit = s.skip(run_len(s, CharClass::Blank) as int);
    Parsed {
        outcome: if "m"@.is_prefix_of(unit) || "min"@.is_prefix_of(unit) {
            Ok(60)
        } else if "h"@.is_prefix_of(unit) {
            Ok(3600)
        } else if "d"@.is_prefix_of(unit) {
            Ok(86400)
        } else {
            Err(invalid_time_suffix())
        },
        rest: unit,
    }
}

/// Reads the unit of a duration and returns the number of seconds in it.
pub fn match_timesuffix(s: &mut Cursor) -> (result: Result<i64, Input>)
    ensures
        yields(result, spec_match_timesuffix(old(s)@).outcome),
        final(s)@ == spec_match_timesuffix(old(s)@).rest,
{
    let _ = consume_whitespaces(s);
    if starts_with(s, "m") || starts_with(s, "min") {
        return Ok(60);
    }
    if starts_with(s, "h") {
        return Ok(60 * 60);
    }
    if starts_with(s, "d") {
        return Ok(60 * 60 * 24);
    }
    Err(invalid_syntax("Invalid TimeSuffix"))
}

/// The rule `Duration`: a real and a unit.  Its value is the real times the
/// seconds of the unit as binary floating point computes it, cut down to
/// whole seconds and held at the greatest 64-bit number.  The real is rounded
/// to 53 significant bits before it is multiplied, so `4.1m` is 245 seconds.
pub open spec fn spec_match_duration(s: Seq<char>) -> Parsed<u64> {
    let number = spec_match_real(s);
    match number.outcome {
        Ok(magnitude) => {
            let unit = spec_match_timesuffix(number.rest);
            match unit.outcome {
                Ok(seconds) => Parsed {
                    outcome: Ok(magnitude.binary_seconds(seconds as nat)),
                    rest: unit.rest,
                },
                Err(message) => Parsed { outcome: Err(message), rest: unit.rest },
            }
        },
        Err(message) => Parsed { outcome: Err(message), rest: number.rest },
    }
}

/// Reads a duration and returns it in whole seconds.
pub fn match_duration(s: &mut Cursor) -> (result: Result<u64, Input>)
    ensures
        yields(result, spec_match_duration(old(s)@).outcome),
        final(s)@ == spec_match_duration(old(s)@).rest,
{
    let number = match match_real(s) {
        Ok(number) => number,
        Err(error) => {
            return Err(error);
        },
    };
    let seconds = match match_timesuffix(s) {
        Ok(seconds) => seconds,
        Err(error) => {
            return Err(error);
        },
    };
    Ok(number.binary_seconds(seconds as u32))
}

} // verus!
