//! What holds of the compiler on every input.

use vstd::prelude::*;
use crate::binary64::{lemma_whole_product_is_exact, SIGNIFICAND_LIMIT};
use crate::cursor::{lemma_run_len, lemma_run_len_is, run_len, trim, CharClass};
use crate::decimal::DecimalView;
use crate::digits::{all_digits, digits_value, pow10};
use crate::literal::{
    invalid_integer, lemma_collect_integer_digits, spec_collect_integer, spec_match_duration,
    spec_match_full_integer, spec_match_integer, spec_match_real, spec_match_timesuffix,
};
use crate::selector::{
    first_match, is_first_match, lemma_first_match, sensor_vocabulary, spec_match_sensor_selector,
    spec_optional_index,
};
use crate::user_input_compiler::{
    empty_request, missing_slash, spec_compile, spec_match_command_word, spec_subscribe,
    spec_webcam, InputView, Parsed,
};

verus! {

/// A line that holds something besides white space, and does not begin with
/// `/` once the white space around it is gone, is refused with the message
/// `Command must start with /`.
pub proof fn lemma_command_must_start_with_slash(text: Seq<char>)
    requires
        trim(text).len() > 0,
        trim(text)[0] != '/',
    ensures
        spec_compile(text) == InputView::InvalidSyntax(missing_slash()),
{
}

/// A line that holds nothing but white space is refused with the message
/// `Empty Request`.
pub proof fn lemma_blank_line_is_empty_request(text: Seq<char>)
    requires
        forall|i: int| 0 <= i < text.len() ==> CharClass::WhiteSpace.contains(#[trigger] text[i]),
    ensures
        spec_compile(text) == InputView::InvalidSyntax(empty_request()),
{
    lemma_run_len_is(text, CharClass::WhiteSpace, text.len());
}

/// Compiling is a function of the text alone: two compilations of equal
/// texts give equal commands.
pub proof fn lemma_compile_is_deterministic(
    first_text: Seq<char>,
    second_text: Seq<char>,
    first: InputView,
    second: InputView,
)
    requires
        first_text == second_text,
        first == spec_compile(first_text),
        second == spec_compile(second_text),
    ensures
        first == second,
{
}

/// A text that differs from `word` at one place of `word` does not begin
/// with it.
pub proof fn lemma_not_prefix(word: Seq<char>, text: Seq<char>, place: int)
    requires
        0 <= place < word.len(),
        place < text.len() ==> word[place] != text[place],
    ensures
        !word.is_prefix_of(text),
{
    if word.is_prefix_of(text) {
        assert(word[place] == text.subrange(0, word.len() as int)[place]);
    }
}

/// In the vocabulary no name stands behind one that it begins with: a name
/// that begins with another name is tried first.
pub proof fn lemma_vocabulary_order(earlier: int, later: int)
    requires
        0 <= earlier < later < sensor_vocabulary().len(),
    ensures
        !sensor_vocabulary()[earlier].is_prefix_of(sensor_vocabulary()[later]),
{
    reveal_strlit("account_balance");
    reveal_strlit("barometer");
    reveal_strlit("beverage_supply");
    reveal_strlit("door_locked");
    reveal_strlit("humidity");
    reveal_strlit("network_connections");
    reveal_strlit("power_consumption");
    reveal_strlit("temperature");
    reveal_strlit("total_member_count");
    reveal_strlit("radiation.alpha");
    reveal_strlit("radiation.beta_gamma");
    reveal_strlit("radiation.beta");
    reveal_strlit("radiation.gamma");
    reveal_strlit("people_now_present");
    reveal_strlit("wind");
    let word = sensor_vocabulary()[earlier];
    let text = sensor_vocabulary()[later];
    if word.len() <= text.len() {
        if word[0] != text[0] {
            lemma_not_prefix(word, text, 0);
        } else if word[1] != text[1] {
            lemma_not_prefix(word, text, 1);
        } else {
            lemma_not_prefix(word, text, 10);
        }
    }
}

/// No sensor name is longer than `radiation.beta_gamma`.
proof fn lemma_name_lengths()
    ensures
        "radiation.beta_gamma"@.len() == 20,
        forall|i: int|
            0 <= i < sensor_vocabulary().len() ==> (#[trigger] sensor_vocabulary()[i]).len() <= 20,
{
    reveal_strlit("account_balance");
    reveal_strlit("barometer");
    reveal_strlit("beverage_supply");
    reveal_strlit("door_locked");
    reveal_strlit("humidity");
    reveal_strlit("network_connections");
    reveal_strlit("power_consumption");
    reveal_strlit("temperature");
    reveal_strlit("total_member_count");
    reveal_strlit("radiation.alpha");
    reveal_strlit("radiation.beta_gamma");
    reveal_strlit("radiation.beta");
    reveal_strlit("radiation.gamma");
    reveal_strlit("people_now_present");
    reveal_strlit("wind");
}

/// Every sensor name selects itself.
pub proof fn lemma_every_name_selects_itself(i: int)
    requires
        0 <= i < sensor_vocabulary().len(),
    ensures
        first_match(sensor_vocabulary(), sensor_vocabulary()[i]) == Some(i),
{
    let words = sensor_vocabulary();
    assert(words[i].is_prefix_of(words[i])) by {
        assert(words[i] =~= words[i].subrange(0, words[i].len() as int));
    }
    assert forall|j: int| 0 <= j < i implies !(#[trigger] words[j]).is_prefix_of(words[i]) by {
        lemma_vocabulary_order(j, i);
    }
    lemma_first_match(words, words[i], i);
}

/// Of two words that a text begins with, the shorter begins the longer.
pub proof fn lemma_prefixes_are_nested(short: Seq<char>, long: Seq<char>, text: Seq<char>)
    requires
        short.is_prefix_of(text),
        long.is_prefix_of(text),
        short.len() <= long.len(),
    ensures
        short.is_prefix_of(long),
{
    assert(short =~= long.subrange(0, short.len() as int)) by {
        assert forall|k: int| 0 <= k < short.len() implies short[k] == long[k] by {
            assert(short[k] == text.subrange(0, short.len() as int)[k]);
            assert(long[k] == text.subrange(0, long.len() as int)[k]);
        }
    }
}

/// The sensor name that is selected is the longest name that the text begins
/// with.
pub proof fn lemma_selected_name_is_longest(s: Seq<char>, selected: int, other: int)
    requires
        first_match(sensor_vocabulary(), s) == Some(selected),
        0 <= other < sensor_vocabulary().len(),
        sensor_vocabulary()[other].is_prefix_of(s),
    ensures
        sensor_vocabulary()[other].len() <= sensor_vocabulary()[selected].len(),
{
    let words = sensor_vocabulary();
    assert(is_first_match(words, s, selected));
    if other < selected {
        assert(!words[other].is_prefix_of(s));
    } else if selected < other && words[selected].len() < words[other].len() {
        lemma_prefixes_are_nested(words[selected], words[other], s);
        lemma_vocabulary_order(selected, other);
    }
}

/// A text that begins with `radiation.beta_gamma` selects that name, and
/// neither `radiation.beta` nor `radiation.gamma`.
pub proof fn lemma_beta_gamma_is_selected(rest: Seq<char>)
    ensures
        first_match(sensor_vocabulary(), "radiation.beta_gamma"@ + rest) == Some(10int),
{
    let words = sensor_vocabulary();
    let name = "radiation.beta_gamma"@;
    let text = name + rest;
    assert(name.is_prefix_of(text)) by {
        assert(name =~= text.subrange(0, name.len() as int));
    }
    assert forall|j: int| 0 <= j < 10 implies !(#[trigger] words[j]).is_prefix_of(text) by {
        if words[j].is_prefix_of(text) {
            if words[j].len() <= name.len() {
                lemma_prefixes_are_nested(words[j], name, text);
                lemma_vocabulary_order(j, 10);
            } else {
                lemma_name_lengths();
            }
        }
    }
    lemma_first_match(words, text, 10);
}

/// A sensor selector holds a name of the vocabulary, never free text.
pub proof fn lemma_selector_name_in_vocabulary(s: Seq<char>)
    ensures
        spec_match_sensor_selector(s).outcome matches Ok(selector) ==> exists|i: int|
            0 <= i < sensor_vocabulary().len() && #[trigger] sensor_vocabulary()[i]
                == selector.sensor_selector,
{
    let body = s.skip(run_len(s, CharClass::Blank) as int);
    if let Some(i) = first_match(sensor_vocabulary(), body) {
        assert(is_first_match(sensor_vocabulary(), body, i));
    }
}

/// An integer literal is read exactly: the text is the blanks that were
/// skipped, the digits that were collected, and the text that is left.
pub proof fn lemma_integer_consumes_exactly(s: Seq<char>)
    ensures
        spec_collect_integer(s).outcome matches Ok(digits) ==> {
            let blanks = s.take(run_len(s, CharClass::Blank) as int);
            &&& s == blanks + digits + spec_collect_integer(s).rest
            &&& forall|i: int| 0 <= i < blanks.len() ==> CharClass::Blank.contains(#[trigger] blanks[i])
            &&& digits.len() > 0
            &&& all_digits(digits)
        },
        spec_collect_integer(s).outcome is Err ==> spec_collect_integer(s).rest == s,
{
    lemma_collect_integer_digits(s);
    lemma_run_len(s, CharClass::Blank);
    let w = run_len(s, CharClass::Blank) as int;
    lemma_run_len(s.skip(w), CharClass::Digit);
    if let Ok(digits) = spec_collect_integer(s).outcome {
        assert(s =~= s.take(w) + digits + spec_collect_integer(s).rest);
    }
}

/// What is left after some characters were consumed is an end of the text.
pub proof fn lemma_skip_is_suffix(s: Seq<char>, n: int)
    requires
        0 <= n <= s.len(),
    ensures
        s.skip(n).is_suffix_of(s),
{
    assert(s.skip(n) =~= s.subrange(s.len() - s.skip(n).len(), s.len() as int));
}

/// An end of an end of a text is an end of the text.
pub proof fn lemma_suffix_of_suffix(a: Seq<char>, b: Seq<char>, c: Seq<char>)
    requires
        a.is_suffix_of(b),
        b.is_suffix_of(c),
    ensures
        a.is_suffix_of(c),
{
    assert(a =~= c.subrange(c.len() - a.len(), c.len() as int)) by {
        assert forall|k: int| 0 <= k < a.len() implies a[k] == c[c.len() - a.len() + k] by {
            assert(a[k] == b.subrange(b.len() - a.len(), b.len() as int)[k]);
            assert(b[b.len() - a.len() + k] == c.subrange(c.len() - b.len(), c.len() as int)[b.len()
                - a.len() + k]);
        }
    }
}

/// The literal parsers only move forward: what they leave is an end of the
/// text that they were given.
pub proof fn lemma_literals_move_forward(s: Seq<char>)
    ensures
        spec_collect_integer(s).rest.is_suffix_of(s),
        spec_match_integer(s).rest.is_suffix_of(s),
        spec_match_full_integer(s).rest.is_suffix_of(s),
        spec_match_real(s).rest.is_suffix_of(s),
        spec_match_timesuffix(s).rest.is_suffix_of(s),
        spec_match_duration(s).rest.is_suffix_of(s),
{
    lemma_skip_is_suffix(s, 0);
    assert(s.skip(0) =~= s);
    lemma_run_len(s, CharClass::Blank);
    let w = run_len(s, CharClass::Blank) as int;
    lemma_run_len(s.skip(w), CharClass::Digit);
    let n = run_len(s.skip(w), CharClass::Digit) as int;
    lemma_skip_is_suffix(s, w);
    lemma_skip_is_suffix(s, w + n);
    // An integer with a sign stands behind the blanks and the sign.
    let unsigned = s.skip(w);
    if unsigned.len() > 0 {
        lemma_integer_moves_forward(unsigned.drop_first());
        lemma_skip_is_suffix(unsigned, 1);
        let magnitude = spec_match_integer(unsigned.drop_first());
        lemma_suffix_of_suffix(magnitude.rest, unsigned.drop_first(), unsigned);
        lemma_suffix_of_suffix(magnitude.rest, unsigned, s);
    }
    lemma_integer_moves_forward(unsigned);
    lemma_suffix_of_suffix(spec_match_integer(unsigned).rest, unsigned, s);
    // The fraction of a real stands behind its whole part and the point.
    let whole = spec_collect_integer(s);
    if whole.rest.len() > 0 {
        let after_point = whole.rest.drop_first();
        lemma_integer_moves_forward(after_point);
        lemma_skip_is_suffix(whole.rest, 1);
        lemma_suffix_of_suffix(spec_collect_integer(after_point).rest, after_point, whole.rest);
        lemma_suffix_of_suffix(spec_collect_integer(after_point).rest, whole.rest, s);
    }
    // The unit of a duration stands behind its real.
    let number = spec_match_real(s);
    lemma_run_len(number.rest, CharClass::Blank);
    lemma_skip_is_suffix(number.rest, run_len(number.rest, CharClass::Blank) as int);
    lemma_suffix_of_suffix(spec_match_timesuffix(number.rest).rest, number.rest, s);
}

/// The rule `Integer` only moves forward.
proof fn lemma_integer_moves_forward(s: Seq<char>)
    ensures
        spec_collect_integer(s).rest.is_suffix_of(s),
        spec_match_integer(s).rest.is_suffix_of(s),
{
    lemma_skip_is_suffix(s, 0);
    assert(s.skip(0) =~= s);
    lemma_run_len(s, CharClass::Blank);
    let w = run_len(s, CharClass::Blank) as int;
    lemma_run_len(s.skip(w), CharClass::Digit);
    lemma_skip_is_suffix(s, w + run_len(s.skip(w), CharClass::Digit));
}

/// The rule `SensorSelector` only moves forward.
pub proof fn lemma_selector_moves_forward(s: Seq<char>)
    ensures
        spec_match_sensor_selector(s).rest.is_suffix_of(s),
{
    lemma_run_len(s, CharClass::Blank);
    let w = run_len(s, CharClass::Blank) as int;
    let body = s.skip(w);
    lemma_skip_is_suffix(s, w);
    lemma_skip_is_suffix(s, s.len() as int);
    assert(s.skip(s.len() as int) =~= Seq::<char>::empty());
    if let Some(i) = first_match(sensor_vocabulary(), body) {
        assert(is_first_match(sensor_vocabulary(), body, i));
        let after_name = body.skip(sensor_vocabulary()[i].len() as int);
        lemma_skip_is_suffix(body, sensor_vocabulary()[i].len() as int);
        lemma_literals_move_forward(after_name);
        lemma_suffix_of_suffix(spec_optional_index(after_name).1, after_name, body);
        lemma_suffix_of_suffix(spec_optional_index(after_name).1, body, s);
    }
}

/// The compiler only moves forward: what it leaves of a command is an end
/// of the command.
pub proof fn lemma_command_moves_forward(s: Seq<char>)
    ensures
        spec_match_command_word(s).rest.is_suffix_of(s),
{
    lemma_skip_is_suffix(s, 0);
    assert(s.skip(0) =~= s);
    if "subscribe"@.is_prefix_of(s) {
        let arguments = s.skip("subscribe"@.len() as int);
        lemma_skip_is_suffix(s, "subscribe"@.len() as int);
        lemma_selector_moves_forward(arguments);
        let sensor = spec_match_sensor_selector(arguments);
        lemma_literals_move_forward(sensor.rest);
        lemma_suffix_of_suffix(spec_match_duration(sensor.rest).rest, sensor.rest, arguments);
        lemma_suffix_of_suffix(spec_subscribe(arguments).rest, arguments, s);
    }
    if "webcam"@.is_prefix_of(s) {
        let arguments = s.skip("webcam"@.len() as int);
        lemma_skip_is_suffix(s, "webcam"@.len() as int);
        lemma_literals_move_forward(arguments);
        lemma_suffix_of_suffix(spec_webcam(arguments).rest, arguments, s);
    }
}

/// A text that begins with `word` begins with no word that differs from
/// `word` at a place that both have.
pub proof fn lemma_excludes(word: Seq<char>, tail: Seq<char>, other: Seq<char>, place: int)
    requires
        0 <= place < word.len(),
        place < other.len(),
        word[place] != other[place],
    ensures
        !other.is_prefix_of(word + tail),
{
    assert((word + tail)[place] == word[place]);
    lemma_not_prefix(other, word + tail, place);
}

/// A text begins with the word that it was made of, and the rest follows.
pub proof fn lemma_begins_with(word: Seq<char>, tail: Seq<char>)
    ensures
        word.is_prefix_of(word + tail),
        (word + tail).skip(word.len() as int) == tail,
{
    assert(word =~= (word + tail).subrange(0, word.len() as int));
    assert((word + tail).skip(word.len() as int) =~= tail);
}

/// The keyword `status` is recognised whatever follows it.
pub proof fn lemma_keyword_status(tail: Seq<char>)
    ensures
        spec_match_command_word("status"@ + tail).input == InputView::Status,
{
    reveal_strlit("status");
    lemma_begins_with("status"@, tail);
}

/// The keyword `crowd` is recognised whatever follows it.
pub proof fn lemma_keyword_crowd(tail: Seq<char>)
    ensures
        spec_match_command_word("crowd"@ + tail).input == InputView::Status,
{
    reveal_strlit("crowd");
    lemma_begins_with("crowd"@, tail);
    reveal_strlit("status");
    lemma_excludes("crowd"@, tail, "status"@, 0);
}

/// The keyword `subscribe` is recognised whatever follows it.
pub proof fn lemma_keyword_subscribe(tail: Seq<char>)
    ensures
        spec_match_command_word("subscribe"@ + tail) == spec_subscribe(tail),
{
    reveal_strlit("subscribe");
    lemma_begins_with("subscribe"@, tail);
    reveal_strlit("status");
    lemma_excludes("subscribe"@, tail, "status"@, 1);
    reveal_strlit("crowd");
    lemma_excludes("subscribe"@, tail, "crowd"@, 0);
}

/// The keyword `cancel` is recognised whatever follows it.
pub proof fn lemma_keyword_cancel(tail: Seq<char>)
    ensures
        spec_match_command_word("cancel"@ + tail).input == InputView::Cancel,
{
    reveal_strlit("cancel");
    lemma_begins_with("cancel"@, tail);
    reveal_strlit("status");
    lemma_excludes("cancel"@, tail, "status"@, 0);
    reveal_strlit("crowd");
    lemma_excludes("cancel"@, tail, "crowd"@, 1);
    reveal_strlit("subscribe");
    lemma_excludes("cancel"@, tail, "subscribe"@, 0);
}

/// The keyword `version` is recognised whatever follows it.
pub proof fn lemma_keyword_version(tail: Seq<char>)
    ensures
        spec_match_command_word("version"@ + tail).input == InputView::Version,
{
    reveal_strlit("version");
    lemma_begins_with("version"@, tail);
    reveal_strlit("status");
    lemma_excludes("version"@, tail, "status"@, 0);
    reveal_strlit("crowd");
    lemma_excludes("version"@, tail, "crowd"@, 0);
    reveal_strlit("subscribe");
    lemma_excludes("version"@, tail, "subscribe"@, 0);
    reveal_strlit("cancel");
    lemma_excludes("version"@, tail, "cancel"@, 0);
}

/// The keyword `help` is recognised whatever follows it.
pub proof fn lemma_keyword_help(tail: Seq<char>)
    ensures
        spec_match_command_word("help"@ + tail).input == InputView::Help,
{
    reveal_strlit("help");
    lemma_begins_with("help"@, tail);
    reveal_strlit("status");
    lemma_excludes("help"@, tail, "status"@, 0);
    reveal_strlit("crowd");
    lemma_excludes("help"@, tail, "crowd"@, 0);
    reveal_strlit("subscribe");
    lemma_excludes("help"@, tail, "subscribe"@, 0);
    reveal_strlit("cancel");
    lemma_excludes("help"@, tail, "cancel"@, 0);
    reveal_strlit("version");
    lemma_excludes("help"@, tail, "version"@, 0);
}

/// The keyword `webcam` is recognised whatever follows it.
pub proof fn lemma_keyword_webcam(tail: Seq<char>)
    ensures
        spec_match_command_word("webcam"@ + tail) == spec_webcam(tail),
{
    reveal_strlit("webcam");
    lemma_begins_with("webcam"@, tail);
    reveal_strlit("status");
    lemma_excludes("webcam"@, tail, "status"@, 0);
    reveal_strlit("crowd");
    lemma_excludes("webcam"@, tail, "crowd"@, 0);
    reveal_strlit("subscribe");
    lemma_excludes("webcam"@, tail, "subscribe"@, 0);
    reveal_strlit("cancel");
    lemma_excludes("webcam"@, tail, "cancel"@, 0);
    reveal_strlit("version");
    lemma_excludes("webcam"@, tail, "version"@, 0);
    reveal_strlit("help");
    lemma_excludes("webcam"@, tail, "help"@, 0);
}

/// The keyword `grammar` is recognised whatever follows it.
pub proof fn lemma_keyword_grammar(tail: Seq<char>)
    ensures
        spec_match_command_word("grammar"@ + tail).input == InputView::Grammar,
{
    reveal_strlit("grammar");
    lemma_begins_with("grammar"@, tail);
    reveal_strlit("status");
    lemma_excludes("grammar"@, tail, "status"@, 0);
    reveal_strlit("crowd");
    lemma_excludes("grammar"@, tail, "crowd"@, 0);
    reveal_strlit("subscribe");
    lemma_excludes("grammar"@, tail, "subscribe"@, 0);
    reveal_strlit("cancel");
    lemma_excludes("grammar"@, tail, "cancel"@, 0);
    reveal_strlit("version");
    lemma_excludes("grammar"@, tail, "version"@, 0);
    reveal_strlit("help");
    lemma_excludes("grammar"@, tail, "help"@, 0);
    reveal_strlit("webcam");
    lemma_excludes("grammar"@, tail, "webcam"@, 0);
}

/// The keyword `start` is recognised whatever follows it.
pub proof fn lemma_keyword_start(tail: Seq<char>)
    ensures
        spec_match_command_word("start"@ + tail).input == InputView::Start,
{
    reveal_strlit("start");
    lemma_begins_with("start"@, tail);
    reveal_strlit("status");
    lemma_excludes("start"@, tail, "status"@, 3);
    reveal_strlit("crowd");
    lemma_excludes("start"@, tail, "crowd"@, 0);
    reveal_strlit("subscribe");
    lemma_excludes("start"@, tail, "subscribe"@, 1);
    reveal_strlit("cancel");
    lemma_excludes("start"@, tail, "cancel"@, 0);
    reveal_strlit("version");
    lemma_excludes("start"@, tail, "version"@, 0);
    reveal_strlit("help");
    lemma_excludes("start"@, tail, "help"@, 0);
    reveal_strlit("webcam");
    lemma_excludes("start"@, tail, "webcam"@, 0);
    reveal_strlit("grammar");
    lemma_excludes("start"@, tail, "grammar"@, 0);
}

/// The message of an invalid-syntax command is never empty.
pub proof fn lemma_messages_are_not_empty(text: Seq<char>)
    ensures
        spec_compile(text) matches InputView::InvalidSyntax(message) ==> message.len() > 0,
        spec_match_command_word(text).input matches InputView::InvalidSyntax(message)
            ==> message.len() > 0,
{
    reveal_strlit("Empty Request");
    reveal_strlit("Command must start with /");
    reveal_strlit("Invalid CommandWord");
    reveal_strlit("Expected positive Integer");
    reveal_strlit("Invalid SensorSelector: ");
    reveal_strlit("Invalid Integer");
    reveal_strlit("Invalid TimeSuffix");
}

/// Digits that stand at the start of a text, before a character that is no
/// digit, are read as one integer literal, and the rest is left.
pub proof fn lemma_integer_of_digits(digits: Seq<char>, rest: Seq<char>)
    requires
        digits.len() > 0,
        all_digits(digits),
        rest.len() > 0 ==> !CharClass::Digit.contains(rest[0]),
    ensures
        spec_collect_integer(digits + rest) == (Parsed { outcome: Ok(digits), rest }),
{
    let s = digits + rest;
    assert(CharClass::Digit.contains(digits[0]));
    assert(s[0] == digits[0]);
    lemma_run_len_is(s, CharClass::Blank, 0);
    assert(s.skip(0) =~= s);
    assert forall|i: int| 0 <= i < digits.len() implies CharClass::Digit.contains(#[trigger] s[i]) by {
        assert(s[i] == digits[i]);
    }
    if rest.len() > 0 {
        assert(s[digits.len() as int] == rest[0]);
    }
    lemma_run_len_is(s, CharClass::Digit, digits.len());
    assert(s.subrange(0, digits.len() as int) =~= digits);
    assert(s.skip(digits.len() as int) =~= rest);
}

/// The fraction of a real is optional: digits before anything but a digit or
/// a point are a real without a fraction, and what follows them is left.
pub proof fn lemma_real_without_fraction(digits: Seq<char>, rest: Seq<char>)
    requires
        digits.len() > 0,
        all_digits(digits),
        rest.len() > 0 ==> !CharClass::Digit.contains(rest[0]) && rest[0] != '.',
    ensures
        spec_match_real(digits + rest) == (Parsed {
            outcome: Ok(DecimalView { whole: digits, fraction: Seq::empty() }),
            rest,
        }),
{
    lemma_integer_of_digits(digits, rest);
}

/// A point that another point follows is refused: no real has two points
/// between its digits.
pub proof fn lemma_real_refuses_double_point(digits: Seq<char>, rest: Seq<char>)
    requires
        digits.len() > 0,
        all_digits(digits),
    ensures
        spec_match_real(digits + seq!['.', '.'] + rest).outcome == Err::<DecimalView, Seq<char>>(
            invalid_integer(),
        ),
{
    let tail = seq!['.', '.'] + rest;
    assert(digits + seq!['.', '.'] + rest =~= digits + tail);
    assert(tail[0] == '.');
    lemma_integer_of_digits(digits, tail);
    let after_point = tail.drop_first();
    assert(after_point[0] == '.');
    lemma_run_len_is(after_point, CharClass::Blank, 0);
    assert(after_point.skip(0) =~= after_point);
    lemma_run_len_is(after_point, CharClass::Digit, 0);
}

/// A whole number of minutes, hours or days is that number times 60, 3600 or
/// 86400 seconds, whatever follows the first letter of the unit, as long as
/// the seconds have less than 54 bits: up to there nothing is rounded.
pub proof fn lemma_duration_of_whole_number(digits: Seq<char>, rest: Seq<char>)
    requires
        digits.len() > 0,
        all_digits(digits),
    ensures
        digits_value(digits) * 60 < SIGNIFICAND_LIMIT ==> spec_match_duration(
            digits + seq!['m'] + rest,
        ).outcome == Ok::<u64, Seq<char>>((digits_value(digits) * 60) as u64),
        digits_value(digits) * 3600 < SIGNIFICAND_LIMIT ==> spec_match_duration(
            digits + seq!['h'] + rest,
        ).outcome == Ok::<u64, Seq<char>>((digits_value(digits) * 3600) as u64),
        digits_value(digits) * 86400 < SIGNIFICAND_LIMIT ==> spec_match_duration(
            digits + seq!['d'] + rest,
        ).outcome == Ok::<u64, Seq<char>>((digits_value(digits) * 86400) as u64),
{
    let number = digits_value(digits);
    assert(digits + Seq::<char>::empty() =~= digits);
    assert(pow10(0) == 1);
    if number * 60 < SIGNIFICAND_LIMIT {
        lemma_whole_product_is_exact(number, 60);
    }
    if number * 3600 < SIGNIFICAND_LIMIT {
        lemma_whole_product_is_exact(number, 3600);
    }
    if number * 86400 < SIGNIFICAND_LIMIT {
        lemma_whole_product_is_exact(number, 86400);
    }
    lemma_unit_follows(digits, 'm', rest);
    lemma_unit_follows(digits, 'h', rest);
    lemma_unit_follows(digits, 'd', rest);
}

/// A real without a fraction before the letter of a unit leaves the text
/// from that letter on, and of the units that text begins with those that
/// begin with the letter.
proof fn lemma_unit_follows(digits: Seq<char>, unit: char, rest: Seq<char>)
    requires
        digits.len() > 0,
        all_digits(digits),
        unit == 'm' || unit == 'h' || unit == 'd',
    ensures
        spec_match_real(digits + seq![unit] + rest) == (Parsed {
            outcome: Ok(DecimalView { whole: digits, fraction: Seq::empty() }),
            rest: seq![unit] + rest,
        }),
        run_len(seq![unit] + rest, CharClass::Blank) == 0,
        (seq![unit] + rest).skip(0) == seq![unit] + rest,
        "m"@.is_prefix_of(seq![unit] + rest) == (unit == 'm'),
        unit != 'm' ==> !"min"@.is_prefix_of(seq![unit] + rest),
        "h"@.is_prefix_of(seq![unit] + rest) == (unit == 'h'),
        "d"@.is_prefix_of(seq![unit] + rest) == (unit == 'd'),
{
    reveal_strlit("m");
    reveal_strlit("min");
    reveal_strlit("h");
    reveal_strlit("d");
    let tail = seq![unit] + rest;
    assert(digits + seq![unit] + rest =~= digits + tail);
    assert(tail[0] == unit);
    lemma_real_without_fraction(digits, tail);
    lemma_run_len_is(tail, CharClass::Blank, 0);
    assert(tail.skip(0) =~= tail);
    assert(seq![unit] =~= tail.subrange(0, 1));
    if unit != 'm' {
        lemma_not_prefix("m"@, tail, 0);
        lemma_not_prefix("min"@, tail, 0);
    } else {
        assert("m"@ =~= seq![unit]);
    }
    if unit != 'h' {
        lemma_not_prefix("h"@, tail, 0);
    } else {
        assert("h"@ =~= seq![unit]);
    }
    if unit != 'd' {
        lemma_not_prefix("d"@, tail, 0);
    } else {
        assert("d"@ =~= seq![unit]);
    }
}

/// Digits behind a sensor name are its index where a blank follows them, and
/// are left for the duration where anything else follows, or nothing.
pub proof fn lemma_index_needs_blank(digits: Seq<char>, rest: Seq<char>)
    requires
        digits.len() > 0,
        all_digits(digits),
        rest.len() > 0 ==> !CharClass::Digit.contains(rest[0]),
    ensures
        spec_optional_index(digits + rest) == if rest.len() > 0 && CharClass::Blank.contains(rest[0])
            && digits_value(digits) <= i64::MAX {
            (Some(digits_value(digits) as u64), rest)
        } else {
            (None::<u64>, digits + rest)
        },
{
    lemma_integer_of_digits(digits, rest);
}

/// What is left of a line by `trim` neither begins nor ends with white
/// space.
pub proof fn lemma_trim_ends(text: Seq<char>)
    ensures
        trim(text).len() > 0 ==> !CharClass::WhiteSpace.contains(trim(text).first())
            && !CharClass::WhiteSpace.contains(trim(text).last()),
        trim(text).len() <= text.len(),
{
    let mirror = text.reverse();
    lemma_run_len(text, CharClass::WhiteSpace);
    lemma_run_len(mirror, CharClass::WhiteSpace);
    let start = run_len(text, CharClass::WhiteSpace) as int;
    let back = run_len(mirror, CharClass::WhiteSpace) as int;
    assert(mirror.len() == text.len());
    if start < text.len() - back {
        assert(mirror[back] == text[text.len() - 1 - back]);
    }
}

} // verus!
