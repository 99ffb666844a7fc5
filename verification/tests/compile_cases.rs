use coredump_bot::cursor::{
    collect_iterator, consume_whitespaces, match_len, matches_with, scan_run, starts_with,
    to_chars, trimmed, CharClass, Cursor,
};
use coredump_bot::decimal::Decimal;
use coredump_bot::digits::{
    decimal_text, digit_to_char, digits_to_u64, double_digits, is_zero, parse_digits,
};
use coredump_bot::rounding::{binary_seconds_of, power_of_two, round_quotient};
use coredump_bot::literal::{
    collect_integer, collect_real, match_duration, match_full_integer, match_integer, match_real,
    match_timesuffix,
};
use coredump_bot::selector::{
    find_sensor, match_optional_index, match_sensor_selector, sensor_name, SENSOR_COUNT,
};
use coredump_bot::user_input_compiler::{
    compile, invalid_syntax, match_command_word, Input, SensorSelector,
};

fn invalid(message: &str) -> Input {
    Input::InvalidSyntax(message.into())
}

fn subscribe(name: &str, nth: Option<u64>, duration: u64) -> Input {
    Input::Subscribe { sensor: SensorSelector { sensor_selector: name.into(), nth }, duration }
}

/// What is left of `text` after `parse` has run on it, and what it returned.
fn run<T>(text: &str, parse: fn(&mut Cursor) -> T) -> (T, String) {
    let buffer = to_chars(text);
    let mut cursor = Cursor::new(&buffer);
    let result = parse(&mut cursor);
    (result, collect_iterator(&mut cursor))
}

#[test]
fn text_without_slash_is_refused() {
    for text in ["status", "hello /status", "  x", "\\status", "7", "\u{3000}status\u{3000}"] {
        assert_eq!(invalid("Command must start with /"), compile(text), "{:?}", text);
    }
}

#[test]
fn blank_text_is_an_empty_request() {
    for text in ["", "   ", "\t\r\n", "\u{a0}\u{2003} \u{3000}\u{85}\u{2028}"] {
        assert_eq!(invalid("Empty Request"), compile(text), "{:?}", text);
    }
}

#[test]
fn white_space_around_the_line_is_dropped() {
    assert_eq!(Input::Status, compile("  /status  "));
    assert_eq!(Input::Help, compile("\u{2003}/help\n"));
    assert_eq!(invalid("Invalid CommandWord"), compile("/ status"));
    assert_eq!(invalid("Command must start with /"), compile("\u{200b}/status"));
}

#[test]
fn compile_and_from_agree() {
    for text in ["/status", "/webcam 3", "/subscribe wind 1.5h", "nothing", "", "/subscribe"] {
        assert_eq!(compile(text), Input::from(text.to_string()));
        assert_eq!(compile(text), compile(text));
    }
}

#[test]
fn keywords_are_prefixes() {
    assert_eq!(Input::Status, compile("/statusfoo"));
    assert_eq!(Input::Status, compile("/crowded"));
    assert_eq!(Input::Cancel, compile("/cancel everything"));
    assert_eq!(Input::Version, compile("/version2"));
    assert_eq!(Input::Help, compile("/helpme"));
    assert_eq!(Input::Grammar, compile("/grammars"));
    assert_eq!(Input::Start, compile("/starting"));
    assert_eq!(Input::WebCam { nth: Some(7) }, compile("/webcam7"));
    assert_eq!(invalid("Invalid CommandWord"), compile("/stat"));
    assert_eq!(invalid("Invalid CommandWord"), compile("/Status"));
    assert_eq!(invalid("Invalid CommandWord"), compile("/"));
    assert_eq!(invalid("Invalid CommandWord"), compile("//status"));
}

#[test]
fn webcam_index() {
    assert_eq!(Input::WebCam { nth: None }, compile("/webcam"));
    assert_eq!(Input::WebCam { nth: None }, compile("/webcam x"));
    assert_eq!(Input::WebCam { nth: None }, compile("/webcam -"));
    assert_eq!(Input::WebCam { nth: Some(0) }, compile("/webcam 0"));
    assert_eq!(Input::WebCam { nth: Some(0) }, compile("/webcam -0"));
    assert_eq!(Input::WebCam { nth: Some(42) }, compile("/webcam \t 42nd"));
    assert_eq!(invalid("Expected positive Integer"), compile("/webcam - 5"));
    assert_eq!(invalid("Expected positive Integer"), compile("/webcam -1"));
    assert_eq!(invalid("Expected positive Integer"), compile("/webcam   -9223372036854775807"));
    assert_eq!(
        Input::WebCam { nth: Some(9223372036854775807) },
        compile("/webcam 9223372036854775807")
    );
    assert_eq!(Input::WebCam { nth: None }, compile("/webcam 9223372036854775808"));
    assert_eq!(Input::WebCam { nth: None }, compile("/webcam --1"));
}

#[test]
fn subscribe_with_and_without_index() {
    assert_eq!(subscribe("people_now_present", None, 600), compile("/subscribe people_now_present 10min"));
    assert_eq!(
        subscribe("people_now_present", Some(13), 600),
        compile("/subscribe people_now_present 13 10min")
    );
    assert_eq!(subscribe("wind", Some(0), 60), compile("/subscribe wind 0\t1m"));
    assert_eq!(subscribe("wind", None, 300), compile("/subscribe wind5min"));
    assert_eq!(subscribe("wind", None, 300), compile("/subscribe   wind 5min"));
    assert_eq!(invalid("Invalid Integer"), compile("/subscribe   wind 5 min"));
    assert_eq!(subscribe("wind", Some(5), 420), compile("/subscribe wind 5 7 min"));
    assert_eq!(subscribe("wind", None, 7200), compile("/subscribewind2h"));
    assert_eq!(subscribe("wind", Some(9223372036854775807), 86400), compile("/subscribe wind 9223372036854775807 1d"));
    assert_eq!(invalid("Invalid TimeSuffix"), compile("/subscribe wind 9223372036854775808 1d"));
}

#[test]
fn subscribe_durations() {
    assert_eq!(subscribe("humidity", None, 7200), compile("/subscribe humidity 2h"));
    assert_eq!(subscribe("humidity", None, 604800), compile("/subscribe humidity 7d"));
    assert_eq!(subscribe("humidity", None, 630), compile("/subscribe humidity 10.5min"));
    assert_eq!(subscribe("humidity", None, 630), compile("/subscribe humidity 10.5 m"));
    assert_eq!(subscribe("humidity", None, 5400), compile("/subscribe humidity 1.5h"));
    assert_eq!(subscribe("humidity", None, 0), compile("/subscribe humidity 0d"));
    assert_eq!(subscribe("humidity", None, 0), compile("/subscribe humidity 0.01m"));
    assert_eq!(subscribe("humidity", None, 59), compile("/subscribe humidity 0.999m"));
    assert_eq!(subscribe("humidity", None, 8640), compile("/subscribe humidity 0.1d"));
    assert_eq!(subscribe("humidity", None, 60), compile("/subscribe humidity 1month"));
    assert_eq!(subscribe("humidity", None, 86400), compile("/subscribe humidity 1days"));
    assert_eq!(
        subscribe("humidity", None, 18446744073709551615),
        compile("/subscribe humidity 99999999999999999999d")
    );
    assert_eq!(subscribe("humidity", None, 245), compile("/subscribe humidity 4.1m"));
    assert_eq!(subscribe("humidity", None, 122), compile("/subscribe humidity 2.05 min"));
    assert_eq!(
        subscribe("humidity", None, 540431955284459520),
        compile("/subscribe humidity 9007199254740993m")
    );
    assert_eq!(
        subscribe("humidity", None, 18446744073709547520),
        compile("/subscribe humidity 307445734561825792m")
    );
    assert_eq!(
        subscribe("humidity", None, 18446744073709551615),
        compile("/subscribe humidity 307445734561825860m")
    );
}

#[test]
fn subscribe_errors_are_those_of_the_rule_that_failed() {
    assert_eq!(invalid("Invalid SensorSelector: "), compile("/subscribe"));
    assert_eq!(invalid("Invalid SensorSelector: nothing 1h"), compile("/subscribe   nothing 1h"));
    assert_eq!(invalid("Invalid SensorSelector: Wind 1h"), compile("/subscribe Wind 1h"));
    assert_eq!(invalid("Invalid Integer"), compile("/subscribe wind"));
    assert_eq!(invalid("Invalid Integer"), compile("/subscribe wind h"));
    assert_eq!(invalid("Invalid Integer"), compile("/subscribe wind 1.h"));
    assert_eq!(invalid("Invalid Integer"), compile("/subscribe wind 6..6h"));
    assert_eq!(invalid("Invalid Integer"), compile("/subscribe wind -1h"));
    assert_eq!(invalid("Invalid TimeSuffix"), compile("/subscribe wind 1"));
    assert_eq!(invalid("Invalid TimeSuffix"), compile("/subscribe wind 1s"));
    assert_eq!(invalid("Invalid TimeSuffix"), compile("/subscribe wind 1H"));
    assert_eq!(invalid("Invalid Integer"), compile("/subscribe wind 1 H"));
    assert_eq!(invalid("Invalid Integer"), compile("/subscribe wind 13 h"));
}

#[test]
fn every_sensor_name_is_selected() {
    let names = [
        "account_balance",
        "barometer",
        "beverage_supply",
        "door_locked",
        "humidity",
        "network_connections",
        "power_consumption",
        "temperature",
        "total_member_count",
        "radiation.alpha",
        "radiation.beta_gamma",
        "radiation.beta",
        "radiation.gamma",
        "people_now_present",
        "wind",
    ];
    assert_eq!(names.len(), SENSOR_COUNT);
    for (i, name) in names.iter().enumerate() {
        assert_eq!(*name, sensor_name(i));
        assert_eq!(subscribe(name, None, 3600), compile(&format!("/subscribe {} 1h", name)));
        assert_eq!(subscribe(name, Some(2), 3600), compile(&format!("/subscribe {} 2 1h", name)));
        let buffer = to_chars(name);
        assert_eq!(Some(i), find_sensor(&Cursor::new(&buffer)));
    }
}

#[test]
fn the_longer_radiation_name_is_tried_first() {
    assert_eq!(
        subscribe("radiation.beta_gamma", None, 3600),
        compile("/subscribe radiation.beta_gamma 1h")
    );
    assert_eq!(subscribe("radiation.beta", None, 3600), compile("/subscribe radiation.beta 1h"));
    assert_eq!(subscribe("radiation.gamma", None, 3600), compile("/subscribe radiation.gamma 1h"));
    assert_eq!(subscribe("radiation.alpha", None, 3600), compile("/subscribe radiation.alpha 1h"));
    assert_eq!(invalid("Invalid Integer"), compile("/subscribe radiation.beta_gam 1h"));
    assert_eq!(invalid("Invalid SensorSelector: radiation 1h"), compile("/subscribe radiation 1h"));
    let buffer = to_chars("radiation.beta_gamma_x");
    assert_eq!(Some(10), find_sensor(&Cursor::new(&buffer)));
    let buffer = to_chars("windy");
    assert_eq!(Some(14), find_sensor(&Cursor::new(&buffer)));
    let buffer = to_chars(" wind");
    assert_eq!(None, find_sensor(&Cursor::new(&buffer)));
}

#[test]
fn sensor_selector_and_what_it_leaves() {
    let (result, rest) = run("  wind 13 10min", match_sensor_selector);
    assert_eq!(Ok(SensorSelector { sensor_selector: "wind".into(), nth: Some(13) }), result);
    assert_eq!(" 10min", rest);
    let (result, rest) = run("wind 10min", match_sensor_selector);
    assert_eq!(Ok(SensorSelector { sensor_selector: "wind".into(), nth: None }), result);
    assert_eq!(" 10min", rest);
    let (result, rest) = run("wind 10", match_sensor_selector);
    assert_eq!(Ok(SensorSelector { sensor_selector: "wind".into(), nth: None }), result);
    assert_eq!(" 10", rest);
    let (result, rest) = run("  sun 1h", match_sensor_selector);
    assert_eq!(Err(invalid("Invalid SensorSelector: sun 1h")), result);
    assert_eq!("", rest);
}

#[test]
fn optional_index_needs_a_blank_behind_it() {
    assert_eq!((Some(13), " 10min".to_string()), run(" 13 10min", match_optional_index));
    assert_eq!((Some(13), "\n".to_string()), run("13\n", match_optional_index));
    assert_eq!((None, " 13".to_string()), run(" 13", match_optional_index));
    assert_eq!((None, "13min".to_string()), run("13min", match_optional_index));
    assert_eq!((None, "13\u{a0}1h".to_string()), run("13\u{a0}1h", match_optional_index));
    assert_eq!((None, "x".to_string()), run("x", match_optional_index));
    assert_eq!(
        (None, "9223372036854775808 1h".to_string()),
        run("9223372036854775808 1h", match_optional_index)
    );
}

#[test]
fn command_word_and_what_it_leaves() {
    assert_eq!((Input::Status, "status now".to_string()), run("status now", match_command_word));
    assert_eq!((Input::WebCam { nth: Some(4) }, " x".to_string()), run("webcam 4 x", match_command_word));
    assert_eq!((Input::WebCam { nth: None }, "x".to_string()), run("webcam -x", match_command_word));
    assert_eq!(
        (subscribe("wind", None, 120), "min later".to_string()),
        run("subscribe wind 2min later", match_command_word)
    );
    assert_eq!((invalid("Invalid CommandWord"), "nope".to_string()), run("nope", match_command_word));
}

#[test]
fn integers() {
    assert_eq!((Ok("0042".to_string()), "x".to_string()), run(" \t0042x", collect_integer));
    assert_eq!((Err(invalid("Invalid Integer")), " x1".to_string()), run(" x1", collect_integer));
    assert_eq!((Err(invalid("Invalid Integer")), "".to_string()), run("", collect_integer));
    assert_eq!((Err(invalid("Invalid Integer")), "\u{661}".to_string()), run("\u{661}", collect_integer));
    assert_eq!((Ok(42), "".to_string()), run("0042", match_integer));
    assert_eq!((Ok(9223372036854775807), "".to_string()), run("9223372036854775807", match_integer));
    assert_eq!(
        (Err(invalid("Invalid Integer: ParseIntError { kind: PosOverflow }")), " 1".to_string()),
        run("9223372036854775808 1", match_integer)
    );
    assert_eq!(
        "9223372036854775808".parse::<i64>().map_err(|e| invalid(&format!("Invalid Integer: {:?}", e))),
        run("9223372036854775808", match_integer).0
    );
    assert_eq!((Ok(-42), "  ".to_string()), run("  -42  ", match_full_integer));
    assert_eq!((Ok(42), "-".to_string()), run("42-", match_full_integer));
    assert_eq!((Ok(-7), "".to_string()), run("- 7", match_full_integer));
    assert_eq!((Err(invalid("Invalid Integer")), "-7".to_string()), run(" --7", match_full_integer));
    assert_eq!((Err(invalid("Invalid Integer")), "x".to_string()), run("  x", match_full_integer));
    assert_eq!(
        (Err(invalid("Invalid Integer: ParseIntError { kind: PosOverflow }")), "".to_string()),
        run("-9223372036854775808", match_full_integer)
    );
}

#[test]
fn reals() {
    assert_eq!((Ok("666.666".to_string()), "".to_string()), run("666.666", collect_real));
    assert_eq!((Ok("10".to_string()), "min".to_string()), run("10min", collect_real));
    assert_eq!((Ok("6.5".to_string()), " .5".to_string()), run(" 6. 5 .5", collect_real));
    assert_eq!((Ok("007.500".to_string()), ".1".to_string()), run("007.500.1", collect_real));
    assert_eq!((Err(invalid("Invalid Integer")), ".6".to_string()), run("6..6", collect_real));
    assert_eq!((Err(invalid("Invalid Integer")), "".to_string()), run("6.", collect_real));
    assert_eq!((Err(invalid("Invalid Integer")), ".5".to_string()), run(".5", collect_real));
    let (result, rest) = run("12.25h", match_real);
    assert_eq!("12.25", result.unwrap().to_text());
    assert_eq!("h", rest);
    let (result, rest) = run("3 .5", match_real);
    assert_eq!("3", result.unwrap().to_text());
    assert_eq!(" .5", rest);
}

#[test]
fn time_suffixes() {
    assert_eq!((Ok(60), "m".to_string()), run("  m", match_timesuffix));
    assert_eq!((Ok(60), "min".to_string()), run("min", match_timesuffix));
    assert_eq!((Ok(3600), "h ".to_string()), run("\th ", match_timesuffix));
    assert_eq!((Ok(86400), "d".to_string()), run("\r\nd", match_timesuffix));
    assert_eq!((Err(invalid("Invalid TimeSuffix")), "s".to_string()), run(" s", match_timesuffix));
    assert_eq!((Err(invalid("Invalid TimeSuffix")), "".to_string()), run("  ", match_timesuffix));
    assert_eq!((Err(invalid("Invalid TimeSuffix")), "M".to_string()), run("M", match_timesuffix));
}

#[test]
fn durations() {
    assert_eq!((Ok(600), "min".to_string()), run("10min", match_duration));
    assert_eq!((Ok(90), "m".to_string()), run(" 1.5 m", match_duration));
    assert_eq!((Ok(1), "h".to_string()), run("0.0003h", match_duration));
    assert_eq!((Ok(0), "h".to_string()), run("0.00027h", match_duration));
    assert_eq!((Ok(4095), "h".to_string()), run("1.1375h", match_duration));
    assert_eq!((Err(invalid("Invalid Integer")), "h".to_string()), run("h", match_duration));
    assert_eq!((Err(invalid("Invalid TimeSuffix")), "x".to_string()), run("1 x", match_duration));
}

#[test]
fn decimal_times_a_factor() {
    assert_eq!(630, Decimal::new("10", "5").binary_seconds(60));
    assert_eq!(0, Decimal::new("0", "").binary_seconds(86400));
    assert_eq!(0, Decimal::new("12345678901234567890123", "9").binary_seconds(0));
    assert_eq!(86399, Decimal::new("0", "99999").binary_seconds(86400));
    assert_eq!(245, Decimal::new("4", "1").binary_seconds(60));
    assert_eq!(122, Decimal::new("2", "05").binary_seconds(60));
    assert_eq!(9007199254740992, Decimal::new("9007199254740993", "").binary_seconds(1));
    assert_eq!(9007199254740996, Decimal::new("9007199254740995", "").binary_seconds(1));
    assert_eq!(9007199254740992, Decimal::new("4503599627370496", "4").binary_seconds(2));
    assert_eq!(u64::MAX, Decimal::new("18446744073709551615", "").binary_seconds(1));
    assert_eq!(18446744073709549568, Decimal::new("18446744073709550591", "").binary_seconds(1));
    assert_eq!(u64::MAX, Decimal::new("18446744073709550592", "").binary_seconds(1));
    assert_eq!(2147483647, Decimal::new("0", "5").binary_seconds(4294967295));
    assert_eq!("10.5", Decimal::new("10", "5").to_text());
    assert_eq!("10", Decimal::new("10", "").to_text());
}

#[test]
fn digits_and_numbers() {
    assert_eq!(Some(0), parse_digits(""));
    assert_eq!(Some(7), parse_digits("007"));
    assert_eq!(Some(i64::MAX), parse_digits("9223372036854775807"));
    assert_eq!(None, parse_digits("9223372036854775808"));
    assert_eq!(None, parse_digits("99999999999999999999999999"));
    assert_eq!(Some(u64::MAX), digits_to_u64(&to_chars("18446744073709551615")));
    assert_eq!(None, digits_to_u64(&to_chars("18446744073709551616")));
    assert_eq!(Some(0), digits_to_u64(&to_chars("")));
    assert_eq!("0", decimal_text(0));
    assert_eq!("9", decimal_text(9));
    assert_eq!("10", decimal_text(10));
    assert_eq!("18446744073709551615", decimal_text(u64::MAX));
    for n in [0u64, 5, 10, 99, 100, 12345, 1 << 40] {
        assert_eq!(n.to_string(), decimal_text(n));
        assert_eq!(Some(n as i64), parse_digits(&decimal_text(n)));
    }
}

#[test]
fn cursor_primitives() {
    let buffer = to_chars("ab \t\r\nc\u{a0}d");
    assert_eq!(vec!['a', 'b', ' ', '\t', '\r', '\n', 'c', '\u{a0}', 'd'], buffer);
    let mut s = Cursor::new(&buffer);
    assert_eq!(9, s.len());
    assert_eq!(Some('a'), s.peek());
    assert_eq!(Some('b'), s.peek_at(1));
    assert_eq!(None, s.peek_at(9));
    assert_eq!(Some(2), match_len(&s, "ab"));
    assert_eq!(Some(0), match_len(&s, ""));
    assert_eq!(None, match_len(&s, "b"));
    assert_eq!(0, consume_whitespaces(&mut s));
    assert!(matches_with(&mut s, "ab"));
    assert_eq!(4, scan_run(&s, 0, CharClass::Blank));
    assert_eq!(0, scan_run(&s, 4, CharClass::Blank));
    assert_eq!(1, scan_run(&s, 5, CharClass::WhiteSpace));
    assert_eq!(" \t", s.slice_text(0, 2));
    let copy = s;
    assert_eq!(4, consume_whitespaces(&mut s));
    assert_eq!(7, copy.len());
    assert_eq!(3, s.len());
    s.advance(2);
    assert_eq!(Some('d'), s.next());
    assert_eq!(None, s.next());
    assert_eq!(None, s.peek());
    s.advance(5);
    assert_eq!(0, s.len());
    assert!(starts_with(&s, ""));
    assert!(starts_with(&s, "/") == false);
    assert!(matches_with(&mut s, "d") == false);
    assert_eq!("", collect_iterator(&mut s));
    let mut rest = copy;
    assert_eq!(" \t\r\nc\u{a0}d", collect_iterator(&mut rest));
    assert_eq!(0, rest.len());
}

#[test]
fn character_classes() {
    for c in [' ', '\t', '\r', '\n'] {
        assert!(CharClass::Blank.holds(c));
        assert!(CharClass::WhiteSpace.holds(c));
    }
    for c in ['\u{b}', '\u{c}', '\u{85}', '\u{a0}', '\u{1680}', '\u{2000}', '\u{200a}', '\u{2028}', '\u{2029}', '\u{202f}', '\u{205f}', '\u{3000}'] {
        assert!(CharClass::Blank.holds(c) == false);
        assert!(CharClass::WhiteSpace.holds(c));
    }
    for c in ['\u{0}', '\u{8}', '\u{e}', '\u{1f}', '!', '\u{84}', '\u{86}', '\u{200b}', '\u{180e}', 'x', '\u{feff}'] {
        assert!(CharClass::WhiteSpace.holds(c) == false);
    }
    let mut code = 0u32;
    while code <= 0x3100 {
        if let Some(c) = char::from_u32(code) {
            assert_eq!(c.is_whitespace(), CharClass::WhiteSpace.holds(c), "{:x}", code);
            assert_eq!(c.is_ascii_digit(), CharClass::Digit.holds(c), "{:x}", code);
        }
        code += 1;
    }
}

#[test]
fn trimmed_is_what_the_standard_trim_leaves() {
    for text in ["", " ", "a", " a", "a ", "  a b  ", "\u{2003}x\u{3000}\n", "\n\t\r ", "\u{a0}\u{a0}", " \u{200b} "] {
        let buffer = to_chars(text);
        let line: String = trimmed(&buffer).iter().collect();
        assert_eq!(text.trim(), line, "{:?}", text);
    }
}

#[test]
fn invalid_syntax_holds_the_message() {
    assert_eq!(Input::InvalidSyntax("x".to_string()), invalid_syntax("x"));
}

/// The seconds that 64-bit floating point computes for a real and a factor.
fn float_seconds(text: &str, factor: u32) -> u64 {
    (text.parse::<f64>().unwrap() * (factor as f64)) as u64
}

fn decimal_of(text: &str) -> Decimal {
    match text.split_once('.') {
        Some((whole, fraction)) => Decimal::new(whole, fraction),
        None => Decimal::new(text, ""),
    }
}

#[test]
fn binary_seconds_are_those_of_floating_point() {
    let mut count = 0;
    for factor in [1u32, 60, 3600, 86400, 7, 1000, 4294967295] {
        for whole in 0..40u64 {
            for fraction in 0..1000u64 {
                for width in 1..=3usize {
                    if fraction >= 10u64.pow(width as u32) {
                        continue;
                    }
                    let text = format!("{}.{:0width$}", whole, fraction, width = width);
                    assert_eq!(
                        float_seconds(&text, factor),
                        decimal_of(&text).binary_seconds(factor),
                        "{} * {}",
                        text,
                        factor
                    );
                    count += 1;
                }
            }
        }
    }
    assert!(count > 100000);
}

#[test]
fn binary_seconds_of_long_and_odd_reals() {
    let texts = [
        "0",
        "0.0",
        "000.000",
        "1",
        "4.1",
        "2.05",
        "1.1375",
        "0.1",
        "0.2",
        "0.3",
        "0.7",
        "0.016666666666666666",
        "0.016666666666666667",
        "0.0166666666666666666666666666666666666666666666666666666666666666666666666667",
        "0.000011574074074074074",
        "0.000011574074074074075",
        "0.00001157407407407407407407407407407407407407407407407407407407407407407407407408",
        "9007199254740992",
        "9007199254740993",
        "9007199254740993.0000000000000000000000000000000000000000000000000000000000000001",
        "9007199254740994",
        "9007199254740995",
        "9007199254740992.5",
        "9007199254740991.5",
        "4503599627370495.5",
        "4503599627370495.50000000000000000000000000000000000000001",
        "4503599627370496.5",
        "4503599627370497.5",
        "18014398509481983",
        "18014398509481985.999",
        "36028797018963967",
        "18446744073709551615",
        "18446744073709551616",
        "18446744073709551615.999999",
        "9223372036854775807",
        "9223372036854775808",
        "213503982334601.29",
        "213503982334601.3",
        "5124095576030431",
        "5124095576030431.1",
        "307445734561825860",
        "307445734561825861",
        "307445734561825829.5",
        "123456789012345678901234567890",
        "0.000000000000000000000000000000000000000000000000000000000000000000000000000001",
        "1.7976931348623157",
        "2.2250738585072014",
        "0.99999999999999994",
        "0.99999999999999995",
        "0.9999999999999999444888487687421729788184165954589843750",
        "0.9999999999999999444888487687421729788184165954589843751",
        "1.00000000000000011102230246251565404236316680908203125",
        "1.00000000000000011102230246251565404236316680908203124",
        "1.00000000000000011102230246251565404236316680908203126",
        "3.999999999999999777955395074968691915273666381835937500",
        "72057594037927945",
        "72057594037927944.999999999999999",
    ];
    for text in texts {
        for factor in [0u32, 1, 2, 3, 60, 3600, 86400, 4294967295] {
            assert_eq!(
                float_seconds(text, factor),
                decimal_of(text).binary_seconds(factor),
                "{} * {}",
                text,
                factor
            );
        }
    }
    let mut tiny = String::from("0.");
    for _ in 0..400 {
        tiny.push('0');
    }
    tiny.push('1');
    assert_eq!(0, decimal_of(&tiny).binary_seconds(86400));
    assert_eq!(float_seconds(&tiny, 86400), decimal_of(&tiny).binary_seconds(86400));
    let mut huge = String::from("1");
    for _ in 0..400 {
        huge.push('0');
    }
    assert_eq!(u64::MAX, decimal_of(&huge).binary_seconds(60));
    assert_eq!(float_seconds(&huge, 60), decimal_of(&huge).binary_seconds(60));
    assert_eq!(0, decimal_of(&huge).binary_seconds(0));
}

#[test]
fn binary_seconds_of_scattered_reals() {
    let mut state: u64 = 0x2545F4914F6CDD1D;
    let mut next = || {
        state ^= state << 13;
        state ^= state >> 7;
        state ^= state << 17;
        state
    };
    for _ in 0..20000 {
        let whole_digits = (next() % 21) as usize;
        let fraction_digits = (next() % 30) as usize;
        let mut text = String::new();
        for _ in 0..whole_digits.max(1) {
            text.push(char::from(b'0' + (next() % 10) as u8));
        }
        if fraction_digits > 0 {
            text.push('.');
            for _ in 0..fraction_digits {
                text.push(char::from(b'0' + (next() % 10) as u8));
            }
        }
        let factor = match next() % 4 {
            0 => 60,
            1 => 3600,
            2 => 86400,
            _ => (next() % 4294967296) as u32,
        };
        assert_eq!(
            float_seconds(&text, factor),
            decimal_of(&text).binary_seconds(factor),
            "{} * {}",
            text,
            factor
        );
    }
}

#[test]
fn doubling_digits() {
    let mut digits = to_chars("0499");
    assert_eq!(0, double_digits(&mut digits));
    assert_eq!(to_chars("0998"), digits);
    assert_eq!(0, double_digits(&mut digits));
    assert_eq!(to_chars("1996"), digits);
    assert_eq!(0, double_digits(&mut digits));
    assert_eq!(to_chars("3992"), digits);
    assert_eq!(0, double_digits(&mut digits));
    assert_eq!(to_chars("7984"), digits);
    assert_eq!(1, double_digits(&mut digits));
    assert_eq!(to_chars("5968"), digits);
    let mut half = to_chars("5");
    assert_eq!(1, double_digits(&mut half));
    assert_eq!(to_chars("0"), half);
    let mut none: Vec<char> = Vec::new();
    assert_eq!(0, double_digits(&mut none));
    assert!(none.is_empty());
    assert!(is_zero(&none));
    assert!(is_zero(&to_chars("0000")));
    assert!(is_zero(&to_chars("0010")) == false);
    assert_eq!('0', digit_to_char(0));
    assert_eq!('9', digit_to_char(9));
}

#[test]
fn powers_and_rounding() {
    assert_eq!(1, power_of_two(0));
    assert_eq!(2048, power_of_two(11));
    assert_eq!(1u128 << 127, power_of_two(127));
    assert_eq!(6, round_quotient(6, true, false));
    assert_eq!(7, round_quotient(6, false, false));
    assert_eq!(6, round_quotient(6, false, true));
    assert_eq!(8, round_quotient(7, false, true));
    assert_eq!(7, round_quotient(7, true, true));
    assert_eq!(600, binary_seconds_of(&to_chars("10"), &to_chars(""), 60));
    assert_eq!(6, binary_seconds_of(&to_chars(""), &to_chars("1"), 60));
    assert_eq!(0, binary_seconds_of(&to_chars(""), &to_chars(""), 60));
}
