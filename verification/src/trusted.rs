//! What is believed of the standard library without proof.
//!
//! Each item states, of one function or type of the standard library for
//! which the verifier's own library has no specification, what its
//! documentation says.

use vstd::prelude::*;
use std::time::{Duration, Instant};

verus! {

/// `String::push` appends one character to the end of the string.
pub assume_specification[ String::push ](s: &mut String, c: char)
    ensures
        final(s)@ == old(s)@.push(c),
;

/// `std::time::Instant`: a reading of the monotonic clock.  Nothing is known
/// of what it holds.
#[verifier::external_type_specification]
#[verifier::external_body]
pub struct ExInstant(Instant);

/// The length of a duration in nanoseconds.
pub uninterp spec fn duration_nanos(duration: Duration) -> u128;

/// `Duration::as_nanos` gives the length of the duration in nanoseconds.
pub assume_specification[ Duration::as_nanos ](duration: &Duration) -> (nanos: u128)
    ensures
        nanos == duration_nanos(*duration),
;

/// `Instant::now` reads the clock.  Nothing is claimed of the reading.
pub assume_specification[ Instant::now ]() -> (now: Instant)
;

/// `Instant::elapsed` gives the time that has passed since the reading.
/// Nothing is claimed of its length.
pub assume_specification[ Instant::elapsed ](since: &Instant) -> (elapsed: Duration)
;

} // verus!
