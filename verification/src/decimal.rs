//! Decimal numbers as they are written: a run of digits before the point and
//! a run of digits after it, of any length.

use vstd::prelude::*;
use crate::binary64::binary_seconds;
use crate::cursor::to_chars;
use crate::digits::{all_digits, digits_value, pow10};
use crate::rounding::binary_seconds_of;

verus! {

/// The mathematical value of a [`Decimal`]: the digits before the point and
/// the digits after it.
pub struct DecimalView {
    pub whole: Seq<char>,
    pub fraction: Seq<char>,
}

impl DecimalView {
    /// The number that all the digits write, the point left out.
    pub open spec fn mantissa(self) -> nat {
        digits_value(self.whole + self.fraction)
    }

    /// The number of digits after the point.  The decimal number is
    /// `mantissa / 10^scale`.
    pub open spec fn scale(self) -> nat {
        self.fraction.len()
    }

    /// The whole seconds of the decimal number in units of `factor` seconds,
    /// as binary floating point with 53 significant bits computes them.
    pub open spec fn binary_seconds(self, factor: nat) -> u64 {
        binary_seconds(self.mantissa(), pow10(self.scale()), factor)
    }

    /// The decimal number as it is written: the point stands only where
    /// digits follow it.
    pub open spec fn text(self) -> Seq<char> {
        if self.fraction.len() == 0 {
            self.whole
        } else {
            self.whole + seq!['.'] + self.fraction
        }
    }
}

/// A decimal number without a sign, of any length.
#[derive(Debug)]
pub struct Decimal {
    whole: Vec<char>,
    fraction: Vec<char>,
}

impl View for Decimal {
    type V = DecimalView;

    closed spec fn view(&self) -> DecimalView {
        DecimalView { whole: self.whole@, fraction: self.fraction@ }
    }
}

impl Decimal {
    #[verifier::type_invariant]
    spec fn well_formed(self) -> bool {
        &&& self.whole@.len() > 0
        &&& all_digits(self.whole@)
        &&& all_digits(self.fraction@)
    }

    /// The decimal number with the digits `whole` before the point and the
    /// digits `fraction` after it.
    pub fn new(whole: &str, fraction: &str) -> (decimal: Decimal)
        requires
            whole@.len() > 0,
            all_digits(whole@),
            all_digits(fraction@),
        ensures
            decimal@ == (DecimalView { whole: whole@, fraction: fraction@ }),
    {
        Decimal { whole: to_chars(whole), fraction: to_chars(fraction) }
    }

    /// The whole seconds of the number in units of `factor` seconds, as
    /// binary floating point computes them: the number is rounded to 53
    /// significant bits, its product with `factor` is rounded again, and
    /// what stands behind the point is cut off.
    pub fn binary_seconds(&self, factor: u32) -> (seconds: u64)
        ensures
            seconds == self@.binary_seconds(factor as nat),
    {
        proof {
            use_type_invariant(self);
        }
        binary_seconds_of(&self.whole, &self.fraction, factor)
    }

    /// The number as it is written: the digits before the point, and after
    /// them, where there are digits after the point, the point and those.
    pub fn to_text(&self) -> (text: String)
        ensures
            text@ == self@.text(),
    {
        let mut text = String::new();
        let mut i: usize = 0;
        while i < self.whole.len()
            invariant
                i <= self.whole.len(),
                text@ == self.whole@.take(i as int),
            decreases self.whole.len() - i,
        {
            text.push(self.whole[i]);
            i = i + 1;
        }
        assert(self.whole@.take(self.whole@.len() as int) =~= self.whole@);
        if self.fraction.len() > 0 {
            text.push('.');
            let mut j: usize = 0;
            while j < self.fraction.len()
                invariant
                    j <= self.fraction.len(),
                    text@ == self.whole@ + seq!['.'] + self.fraction@.take(j as int),
                decreases self.fraction.len() - j,
            {
                text.push(self.fraction[j]);
                j = j + 1;
            }
            assert(self.fraction@.take(self.fraction@.len() as int) =~= self.fraction@);
        }
        text
    }
}

} // verus!
