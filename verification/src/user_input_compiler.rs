//! # user_input_compiler
//!
//! Parses Input with this Grammar after trimming the Input and ignoring Whitespaces:
//!
//! ```text
//! Command         := "/" CommandWord
//! CommandWord     := Status | Subscribe | Cancel | Version | Help | WebCam | Start | Grammar | InvalidSyntax
//! Status          := "status" | "crowd"
//! Subscribe       := "subscribe" SensorSelector Duration
//! SensorSelector  := SensorString OptionalInteger
//! SensorString    := "account_balance" | "barometer" | "beverage_supply" | "door_locked" | "humidity" | "network_connections" | "power_consumption" | "temperature" | "total_member_count" | "radiation.alpha" | "radiation.beta_gamma" | "radiation.beta" | "radiation.gamma" | "people_now_present" | "wind"
//! OptionalInteger := Integer | ɛ
//! Integer         := [0-9]*
//! Duration        := Real TimeSuffix
//! TimeSuffix      := "m" | "min" | "h" | "d"
//! Real            := Integer "." Integer | Integer
//! Cancel          := "cancel"
//! Version         := "version"
//! Help            := "help"
//! WebCam          := "webcam" OptionalInteger
//! Start           := "start"
//! Grammar         := "grammar"
//! InvalidSyntax   := *
//! ```
//!
//! A keyword is matched as a prefix of the text: what follows it is not
//! looked at.  An `Integer` holds one digit at least, and blanks before it
//! are skipped.  The grammar is sent to users from
//! [`crate::grammar::GRAMMAR_SOURCE`].

use vstd::prelude::*;
use vstd::std_specs::convert::FromSpecImpl;
use crate::cursor::{matches_with, starts_with, to_chars, trim, trimmed, Cursor};
use crate::literal::{
    match_duration, match_full_integer, spec_match_duration, spec_match_full_integer,
};
use crate::selector::{match_sensor_selector, spec_match_sensor_selector};

verus! {

/// A sensor name and, where one instance of several is meant, its index.
#[derive(Debug, PartialEq)]
pub struct SensorSelector {
    pub sensor_selector: String,
    pub nth: Option<u64>,
}

/// What a line of text was compiled to.
#[derive(Debug, PartialEq)]
pub enum Input {
    Status,
    Subscribe { sensor: SensorSelector, duration: u64 },
    Cancel,
    Version,
    Help,
    WebCam { nth: Option<usize> },
    Start,
    Grammar,
    InvalidSyntax(String),
}

/// The mathematical value of a [`SensorSelector`].
pub struct SensorSelectorView {
    pub sensor_selector: Seq<char>,
    pub nth: Option<u64>,
}

/// The mathematical value of an [`Input`].  A duration is a number of
/// seconds.
pub enum InputView {
    Status,
    Subscribe { sensor: SensorSelectorView, duration: u64 },
    Cancel,
    Version,
    Help,
    WebCam { nth: Option<usize> },
    Start,
    Grammar,
    InvalidSyntax(Seq<char>),
}

impl View for SensorSelector {
    type V = SensorSelectorView;

    open spec fn view(&self) -> SensorSelectorView {
        SensorSelectorView { sensor_selector: self.sensor_selector@, nth: self.nth }
    }
}

impl View for Input {
    type V = InputView;

    open spec fn view(&self) -> InputView {
        match *self {
            Input::Status => InputView::Status,
            Input::Subscribe { sensor, duration } => InputView::Subscribe {
                sensor: sensor@,
                duration,
            },
            Input::Cancel => InputView::Cancel,
            Input::Version => InputView::Version,
            Input::Help => InputView::Help,
            Input::WebCam { nth } => InputView::WebCam { nth },
            Input::Start => InputView::Start,
            Input::Grammar => InputView::Grammar,
            Input::InvalidSyntax(message) => InputView::InvalidSyntax(message@),
        }
    }
}

/// What a parser made of a text: a value or a diagnostic message, and the
/// text that it left.
pub struct Parsed<T> {
    pub outcome: Result<T, Seq<char>>,
    pub rest: Seq<char>,
}

/// Whether the result of a parser is the outcome that its grammar rule
/// prescribes: a value with the prescribed view, or an invalid-syntax command
/// with the prescribed message.
pub open spec fn yields<T: View>(result: Result<T, Input>, outcome: Result<T::V, Seq<char>>) -> bool {
    match outcome {
        Ok(value) => result is Ok && result->Ok_0@ == value,
        Err(message) => result is Err && result->Err_0@ == InputView::InvalidSyntax(message),
    }
}

/// An invalid-syntax command with the given message.
pub fn invalid_syntax(message: &str) -> (input: Input)
    ensures
        input@ == InputView::InvalidSyntax(message@),
{
    Input::InvalidSyntax(message.to_owned())
}

/// What a command was compiled to, and the text that the compiler left.
pub struct Compiled {
    pub input: InputView,
    pub rest: Seq<char>,
}

/// The message for a command without a known keyword.
pub open spec fn invalid_command_word() -> Seq<char> {
    "Invalid CommandWord"@
}

/// The message for a webcam index below zero.
pub open spec fn expected_positive_integer() -> Seq<char> {
    "Expected positive Integer"@
}

/// The message for a line that holds nothing but white space.
pub open spec fn empty_request() -> Seq<char> {
    "Empty Request"@
}

/// The message for a line that does not begin with `/`.
pub open spec fn missing_slash() -> Seq<char> {
    "Command must start with /"@
}

/// The arguments of `subscribe`: a sensor selector, then a duration.  The
/// message of the first rule that fails is the result.
pub open spec fn spec_subscribe(s: Seq<char>) -> Compiled {
    let sensor = spec_match_sensor_selector(s);
    match sensor.outcome {
        Ok(selector) => {
            let duration = spec_match_duration(sensor.rest);
            match duration.outcome {
                Ok(seconds) => Compiled {
                    input: InputView::Subscribe { sensor: selector, duration: seconds },
                    rest: duration.rest,
                },
                Err(message) => Compiled {
                    input: InputView::InvalidSyntax(message),
                    rest: duration.rest,
                },
            }
        },
        Err(message) => Compiled { input: InputView::InvalidSyntax(message), rest: sensor.rest },
    }
}

/// The argument of `webcam`: an integer with an optional sign.  Where none
/// can be read, all webcams are meant; one below zero is an error.
pub open spec fn spec_webcam(s: Seq<char>) -> Compiled {
    let index = spec_match_full_integer(s);
    Compiled {
        input: match index.outcome {
            Ok(n) => if n >= 0 {
                InputView::WebCam { nth: Some(n as usize) }
            } else {
                InputView::InvalidSyntax(expected_positive_integer())
            },
            Err(_) => InputView::WebCam { nth: None },
        },
        rest: index.rest,
    }
}

/// The rule `CommandWord`.  The keywords are tried in this order, each as a
/// prefix of the text.  Only `subscribe` and `webcam` are consumed, with
/// their arguments.
pub open spec fn spec_match_command_word(s: Seq<char>) -> Compiled {
    if "status"@.is_prefix_of(s) || "crowd"@.is_prefix_of(s) {
        Compiled { input: InputView::Status, rest: s }
    } else if "subscribe"@.is_prefix_of(s) {
        spec_subscribe(s.skip("subscribe"@.len() as int))
    } else if "cancel"@.is_prefix_of(s) {
        Compiled { input: InputView::Cancel, rest: s }
    } else if "version"@.is_prefix_of(s) {
        Compiled { input: InputView::Version, rest: s }
    } else if "help"@.is_prefix_of(s) {
        Compiled { input: InputView::Help, rest: s }
    } else if "webcam"@.is_prefix_of(s) {
        spec_webcam(s.skip("webcam"@.len() as int))
    } else if "grammar"@.is_prefix_of(s) {
        Compiled { input: InputView::Grammar, rest: s }
    } else if "start"@.is_prefix_of(s) {
        Compiled { input: InputView::Start, rest: s }
    } else {
        Compiled { input: InputView::InvalidSyntax(invalid_command_word()), rest: s }
    }
}

/// Compiles the text after the `/` of a command.
pub fn match_command_word(s: &mut Cursor) -> (input: Input)
    ensures
        input@ == spec_match_command_word(old(s)@).input,
        final(s)@ == spec_match_command_word(old(s)@).rest,
{
    if starts_with(s, "status") || starts_with(s, "crowd") {
        Input::Status
    } else if matches_with(s, "subscribe") {
        let sensor = match match_sensor_selector(s) {
            Ok(sensor) => sensor,
            Err(error) => {
                return error;
            },
        };
        let duration = match match_duration(s) {
            Ok(duration) => duration,
            Err(error) => {
                return error;
            },
        };
        Input::Subscribe { sensor, duration }
    } else if starts_with(s, "cancel") {
        Input::Cancel
    } else if starts_with(s, "version") {
        Input::Version
    } else if starts_with(s, "help") {
        Input::Help
    } else if matches_with(s, "webcam") {
        match match_full_integer(s) {
            Ok(n) => if n >= 0 {
                Input::WebCam { nth: Some(#[verifier::truncate] (n as usize)) }
            } else {
                invalid_syntax("Expected positive Integer")
            },
            Err(_) => Input::WebCam { nth: None },
        }
    } else if starts_with(s, "grammar") {
        Input::Grammar
    } else if starts_with(s, "start") {
        Input::Start
    } else {
        invalid_syntax("Invalid CommandWord")
    }
}

/// What a line of text stands for: the line without the white space around
/// it must begin with `/`, and a command word must follow.
pub open spec fn spec_compile(text: Seq<char>) -> InputView {
    let line = trim(text);
    if line.len() == 0 {
        InputView::InvalidSyntax(empty_request())
    } else if line[0] != '/' {
        InputView::InvalidSyntax(missing_slash())
    } else {
        spec_match_command_word(line.drop_first()).input
    }
}

/// Compiles a line of text into a command.
pub fn compile(text: &str) -> (input: Input)
    ensures
        input@ == spec_compile(text@),
{
    let buffer = to_chars(text);
    let line = trimmed(buffer.as_slice());
    let mut s = Cursor::new(line);
    match s.next() {
        Some(c) => if c == '/' {
            match_command_word(&mut s)
        } else {
            invalid_syntax("Command must start with /")
        },
        None => invalid_syntax("Empty Request"),
    }
}

impl From<String> for Input {
    /// Compiles a line of text into a command.
    fn from(s: String) -> (input: Input)
        ensures
            input@ == spec_compile(s@),
    {
        compile(s.as_str())
    }
}

/// `from` is specified by its own contract: its result has the view that
/// `spec_compile` prescribes.  Two commands with one view need not be one
/// value, so `from_spec` names one of them and binds `from` to none.
impl FromSpecImpl<String> for Input {
    open spec fn obeys_from_spec() -> bool {
        false
    }

    open spec fn from_spec(s: String) -> Input {
        choose|input: Input| input@ == spec_compile(s@)
    }
}

} // verus!
