//! The sensor vocabulary and the rule `SensorSelector`.

use vstd::prelude::*;
use vstd::string::StringExecFns;
use crate::cursor::{
    collect_iterator, consume_whitespaces, matches_with, run_len, starts_with, CharClass, Cursor,
};
use crate::literal::{match_integer, spec_match_integer};
use crate::user_input_compiler::{yields, Input, Parsed, SensorSelector, SensorSelectorView};

verus! {

/// The number of sensor names.
pub const SENSOR_COUNT: usize = 15;

/// The sensor names in the order in which they are tried.  A name is matched
/// as a prefix of the text, so a name that begins with another name stands
/// before it: `radiation.beta_gamma` before `radiation.beta`.
pub open spec fn sensor_vocabulary() -> Seq<Seq<char>> {
    seq![
        "account_balance"@,
        "barometer"@,
        "beverage_supply"@,
        "door_locked"@,
        "humidity"@,
        "network_connections"@,
        "power_consumption"@,
        "temperature"@,
        "total_member_count"@,
        "radiation.alpha"@,
        "radiation.beta_gamma"@,
        "radiation.beta"@,
        "radiation.gamma"@,
        "people_now_present"@,
        "wind"@,
    ]
}

/// The sensor name at place `i` of the vocabulary.
pub fn sensor_name(i: usize) -> (name: &'static str)
    requires
        i < SENSOR_COUNT,
    ensures
        name@ == sensor_vocabulary()[i as int],
{
    if i == 0 {
        "account_balance"
    } else if i == 1 {
        "barometer"
    } else if i == 2 {
        "beverage_supply"
    } else if i == 3 {
        "door_locked"
    } else if i == 4 {
        "humidity"
    } else if i == 5 {
        "network_connections"
    } else if i == 6 {
        "power_consumption"
    } else if i == 7 {
        "temperature"
    } else if i == 8 {
        "total_member_count"
    } else if i == 9 {
        "radiation.alpha"
    } else if i == 10 {
        "radiation.beta_gamma"
    } else if i == 11 {
        "radiation.beta"
    } else if i == 12 {
        "radiation.gamma"
    } else if i == 13 {
        "people_now_present"
    } else {
        "wind"
    }
}

/// Whether `words[i]` is the first of `words` that `s` begins with.
pub open spec fn is_first_match(words: Seq<Seq<char>>, s: Seq<char>, i: int) -> bool {
    &&& 0 <= i < words.len()
    &&& words[i].is_prefix_of(s)
    &&& forall|j: int| 0 <= j < i ==> !(#[trigger] words[j]).is_prefix_of(s)
}

/// The place of the first of `words` that `s` begins with, if there is one.
pub open spec fn first_match(words: Seq<Seq<char>>, s: Seq<char>) -> Option<int> {
    if exists|i: int| is_first_match(words, s, i) {
        Some(choose|i: int| is_first_match(words, s, i))
    } else {
        None
    }
}

/// There is at most one first match, and `first_match` names it.
pub proof fn lemma_first_match(words: Seq<Seq<char>>, s: Seq<char>, i: int)
    requires
        is_first_match(words, s, i),
    ensures
        first_match(words, s) == Some(i),
{
    let k = choose|k: int| is_first_match(words, s, k);
    if k < i {
        assert(!words[k].is_prefix_of(s));
    } else if i < k {
        assert(!words[i].is_prefix_of(s));
    }
}

/// Where `s` begins with none of `words`, `first_match` finds nothing.
pub proof fn lemma_no_match(words: Seq<Seq<char>>, s: Seq<char>)
    requires
        forall|j: int| 0 <= j < words.len() ==> !(#[trigger] words[j]).is_prefix_of(s),
    ensures
        first_match(words, s) is None,
{
}

/// The message for a text that begins with no sensor name.
pub open spec fn invalid_sensor_selector(found: Seq<char>) -> Seq<char> {
    "Invalid SensorSelector: "@ + found
}

/// The index that may follow a sensor name: an integer that is followed by a
/// blank.  Digits that are followed by anything else, or by nothing, are no
/// index, and none of them is consumed.
pub open spec fn spec_optional_index(s: Seq<char>) -> (Option<u64>, Seq<char>) {
    let index = spec_match_integer(s);
    if index.outcome is Ok && index.rest.len() > 0 && CharClass::Blank.contains(index.rest[0]) {
        (Some(index.outcome->Ok_0 as u64), index.rest)
    } else {
        (None, s)
    }
}

/// The rule `SensorSelector`: blanks, the first name of the vocabulary that
/// the text begins with, and an optional index.  Where no name matches, the
/// message holds the text after the blanks, and nothing is left of the text.
pub open spec fn spec_match_sensor_selector(s: Seq<char>) -> Parsed<SensorSelectorView> {
    let body = s.skip(run_len(s, CharClass::Blank) as int);
    match first_match(sensor_vocabulary(), body) {
        Some(i) => {
            let name = sensor_vocabulary()[i];
            let (nth, rest) = spec_optional_index(body.skip(name.len() as int));
            Parsed { outcome: Ok(SensorSelectorView { sensor_selector: name, nth }), rest }
        },
        None => Parsed { outcome: Err(invalid_sensor_selector(body)), rest: Seq::empty() },
    }
}

/// Finds the first sensor name that the text at the cursor begins with.  The
/// cursor does not move.
pub fn find_sensor(s: &Cursor) -> (found: Option<usize>)
    ensures
        match found {
            Some(i) => first_match(sensor_vocabulary(), s@) == Some(i as int),
            None => first_match(sensor_vocabulary(), s@) is None,
        },
{
    let mut i: usize = 0;
    while i < SENSOR_COUNT
        invariant
            i <= SENSOR_COUNT,
            forall|j: int| 0 <= j < i ==> !(#[trigger] sensor_vocabulary()[j]).is_prefix_of(s@),
        decreases SENSOR_COUNT - i,
    {
        if starts_with(s, sensor_name(i)) {
            proof {
                lemma_first_match(sensor_vocabulary(), s@, i as int);
            }
            return Some(i);
        }
        i = i + 1;
    }
    proof {
        lemma_no_match(sensor_vocabulary(), s@);
    }
    None
}

/// Reads the index that may follow a sensor name.  The integer is read on a
/// copy of the cursor first, and again on the cursor itself only where a
/// blank follows it.
pub fn match_optional_index(s: &mut Cursor) -> (nth: Option<u64>)
    ensures
        nth == spec_optional_index(old(s)@).0,
        final(s)@ == spec_optional_index(old(s)@).1,
{
    let mut probe = *s;
    match match_integer(&mut probe) {
        Ok(_) => match probe.peek() {
            Some(c) => if CharClass::Blank.holds(c) {
                match match_integer(s) {
                    Ok(n) => Some(n as u64),
                    Err(_) => None,
                }
            } else {
                None
            },
            None => None,
        },
        Err(_) => None,
    }
}

/// Reads a sensor selector: a sensor name and an optional index.
pub fn match_sensor_selector(s: &mut Cursor) -> (result: Result<SensorSelector, Input>)
    ensures
        yields(result, spec_match_sensor_selector(old(s)@).outcome),
        final(s)@ == spec_match_sensor_selector(old(s)@).rest,
{
    let _ = consume_whitespaces(s);
    match find_sensor(s) {
        Some(i) => {
            let name = sensor_name(i);
            let _ = matches_with(s, name);
            let nth = match_optional_index(s);
            Ok(SensorSelector { sensor_selector: name.to_owned(), nth })
        },
        None => {
            let mut message = "Invalid SensorSelector: ".to_owned();
            let found = collect_iterator(s);
            message.append(found.as_str());
            Err(Input::InvalidSyntax(message))
        },
    }
}

} // verus!
