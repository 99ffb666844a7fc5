#![allow(non_snake_case)]

use coredump_bot::cursor::{
    collect_iterator, consume_whitespaces, matches_with, starts_with, to_chars, Cursor,
};
use coredump_bot::decimal::Decimal;
use coredump_bot::literal::{
    match_duration, match_full_integer, match_integer, match_real, match_timesuffix,
};
use coredump_bot::user_input_compiler::Input;
use coredump_bot::user_input_compiler::Input::{
    Cancel, Grammar, Help, InvalidSyntax, Start, Status, Subscribe, Version, WebCam,
};
use coredump_bot::user_input_compiler::SensorSelector;
use std::time::Duration;

/// The value of a real literal as a float, as a float parser reads it.
fn as_float(result: Result<Decimal, Input>) -> Result<f64, Input> {
    result.map(|decimal| decimal.to_text().parse::<f64>().unwrap())
}

// =================== Util Tests ===================
#[test]
fn starts_with_one() {
    let text = to_chars("abcdef");
    let s = Cursor::new(&text);
    assert!(starts_with(&s, "abcd"));
}

#[test]
fn starts_with_two() {
    let text = to_chars("abcdef");
    let s = Cursor::new(&text);
    assert!(starts_with(&s, "xyz") == false);
    assert!(starts_with(&s, "abcd"));
}

#[test]
fn starts_with_four() {
    let text = to_chars("abcdef");
    let s = Cursor::new(&text);
    assert!(starts_with(&s, "abcxxx") == false);
    assert!(starts_with(&s, "abcxyz") == false);
    assert!(starts_with(&s, "abcxyz") == false);
    assert!(starts_with(&s, "abcd"));
}

#[test]
fn starts_with_final_iterator_state() {
    let text = to_chars("abcdef");
    let mut s = Cursor::new(&text);
    assert!(starts_with(&s, "abcxxx") == false);
    assert!(starts_with(&s, "abcd"));
    assert_eq!(Some('a'), s.next());
}

#[test]
fn matches_with_final_iterator_state() {
    let text = to_chars("abcdef");
    let mut s = Cursor::new(&text);
    assert!(matches_with(&mut s, "abcxxx") == false);
    assert!(matches_with(&mut s, "abcd"));
    assert_eq!(Some('e'), s.next());
}

#[test]
fn consume_whitespaces_iter_position() {
    let text = to_chars("    -");
    let mut s = Cursor::new(&text);
    let w = consume_whitespaces(&mut s);

    assert_eq!(4, w);
    assert_eq!(Some('-'), s.next());
}

// =================== Parser Tests ===================

#[test]
fn empty_2_fail() {
    assert_eq!(InvalidSyntax("Empty Request".into()), Input::from(format!("")))
}

#[test]
fn status() {
    assert_eq!(Status, Input::from(format!("/status")))
}

#[test]
fn crowd() {
    assert_eq!(Status, Input::from(format!("/crowd")))
}

#[test]
fn subscribe_pnp_10min() {
    assert_eq!(
        Subscribe {
            sensor: SensorSelector { sensor_selector: "people_now_present".into(), nth: None },
            duration: Duration::from_secs(10 * 60).as_secs()
        },
        Input::from(format!("/subscribe people_now_present 10min"))
    )
}

#[test]
fn subscribe_pnp_13_10min() {
    assert_eq!(
        Subscribe {
            sensor: SensorSelector { sensor_selector: "people_now_present".into(), nth: Some(13) },
            duration: Duration::from_secs(10 * 60).as_secs()
        },
        Input::from(format!("/subscribe people_now_present 13 10min"))
    )
}

#[test]
fn subscribe_pnp_2h() {
    assert_eq!(
        Subscribe {
            sensor: SensorSelector { sensor_selector: "people_now_present".into(), nth: None },
            duration: Duration::from_secs(2 * 60 * 60).as_secs()
        },
        Input::from(format!("/subscribe people_now_present 2h"))
    )
}

#[test]
fn subscribe_pnp_7d() {
    assert_eq!(
        Subscribe {
            sensor: SensorSelector { sensor_selector: "people_now_present".into(), nth: None },
            duration: Duration::from_secs(7 * 60 * 60 * 24).as_secs()
        },
        Input::from(format!("/subscribe people_now_present 7d"))
    )
}

#[test]
fn cancel() {
    assert_eq!(Cancel, Input::from(format!("/cancel")))
}

#[test]
fn integer42() {
    let text = to_chars("42");
    let mut s = Cursor::new(&text);
    assert_eq!(Ok(42), match_integer(&mut s));
}

#[test]
fn integer_neg42() {
    let text = to_chars("-42");
    let mut s = Cursor::new(&text);
    assert_eq!(Err(InvalidSyntax("Invalid Integer".into())), match_integer(&mut s))
}

#[test]
fn integer__neg42() {
    let text = to_chars(" -42 ");
    assert_eq!(
        Err(InvalidSyntax("Invalid Integer".into())),
        match_integer(&mut Cursor::new(&text))
    );
}

#[test]
fn real6_6() {
    let text = to_chars("6.6");
    assert_eq!(Ok(6.6), as_float(match_real(&mut Cursor::new(&text))))
}

#[test]
fn real_123_456_() {
    let text = to_chars(" 123.456 ");
    assert_eq!(Ok(123.456), as_float(match_real(&mut Cursor::new(&text))))
}

#[test]
fn real666_666() {
    let text = to_chars("666.666");
    assert_eq!(Ok(666.666), as_float(match_real(&mut Cursor::new(&text))))
}

#[test]
fn real10min() {
    let text = to_chars("10min");
    assert_eq!(Ok(10 as f64), as_float(match_real(&mut Cursor::new(&text))))
}

#[test]
fn real_duration_10min() {
    let text = to_chars(" 10min");
    let mut s = Cursor::new(&text);

    assert_eq!(Ok(10 as f64), as_float(match_real(&mut s)));
    assert_eq!(Ok(60), match_timesuffix(&mut s));
}

#[test]
fn real_duration_10__min() {
    let text = to_chars(" 10  min");
    let mut s = Cursor::new(&text);

    assert_eq!(Ok(10 as f64), as_float(match_real(&mut s)));
    assert_eq!(Ok(60), match_timesuffix(&mut s));
}

#[test]
fn real_duration__10_5min__() {
    let text = to_chars("  10.5min  ");
    let mut s = Cursor::new(&text);

    assert_eq!(Ok(10.5), as_float(match_real(&mut s)));
    assert_eq!(Ok(60), match_timesuffix(&mut s));
}

#[test]
fn real_duration__10_5__min__() {
    let text = to_chars("  10.5  min  ");
    let mut s = Cursor::new(&text);

    assert_eq!(Ok(10.5), as_float(match_real(&mut s)));
    assert_eq!(Ok(60), match_timesuffix(&mut s));
}

#[test]
fn real12_3__45_6() {
    let text = to_chars("12.3  45.6");
    let mut s = Cursor::new(&text);

    assert_eq!(Ok(12.3), as_float(match_real(&mut s)));
    assert_eq!(Ok(45.6), as_float(match_real(&mut s)));
}

#[test]
fn real6_punkt_6() {
    let text = to_chars("6..6");
    assert_eq!(
        Err(InvalidSyntax("Invalid Integer".into())),
        as_float(match_real(&mut Cursor::new(&text)))
    )
}

#[test]
fn help() {
    assert_eq!(Help, Input::from(format!("/help")))
}

#[test]
fn version() {
    assert_eq!(Version, Input::from(format!("/version")))
}

#[test]
fn start() {
    assert_eq!(Start, Input::from(format!("/start")))
}

#[test]
fn duration_10min() {
    let text = to_chars("10min");
    assert_eq!(
        Ok(Duration::from_secs(10 * 60)),
        match_duration(&mut Cursor::new(&text)).map(Duration::from_secs)
    )
}

#[test]
fn match_integer_position() {
    let text = to_chars("  10  22");
    let mut s = Cursor::new(&text);
    assert_eq!(Ok(10), match_integer(&mut s));

    assert_eq!("  22", collect_iterator(&mut s));
}

#[test]
fn match_integer_position_spaces() {
    let text = to_chars("  10  ");
    let mut s = Cursor::new(&text);
    assert_eq!(Ok(10), match_integer(&mut s));

    assert_eq!("  ", collect_iterator(&mut s));
}

#[test]
fn match_integer_fail_position_spaces() {
    let text = to_chars("  bla  ");
    let mut s = Cursor::new(&text);
    assert_eq!(Err(InvalidSyntax("Invalid Integer".into())), match_integer(&mut s));

    assert_eq!("  bla  ", collect_iterator(&mut s));
}

#[test]
fn match_integer_fail_neg42() {
    let text = to_chars("  -42  ");
    assert_eq!(
        Err(InvalidSyntax("Invalid Integer".into())),
        match_integer(&mut Cursor::new(&text))
    )
}

#[test]
fn match_full_integer_neg42() {
    let text = to_chars("  -42  ");
    assert_eq!(Ok(-42), match_full_integer(&mut Cursor::new(&text)))
}

#[test]
fn webcam() {
    assert_eq!(WebCam { nth: None }, Input::from(format!("/webcam")))
}

#[test]
fn webcam_negative_1() {
    assert_eq!(
        InvalidSyntax("Expected positive Integer".into()),
        Input::from(format!("/webcam -1"))
    )
}

#[test]
fn webcam_negative_13() {
    assert_eq!(
        InvalidSyntax("Expected positive Integer".into()),
        Input::from(format!("/webcam -13"))
    )
}

#[test]
fn webcam_42() {
    assert_eq!(WebCam { nth: Some(42) }, Input::from(format!("/webcam 42")))
}

#[test]
fn webcam_23() {
    assert_eq!(WebCam { nth: Some(23) }, Input::from(format!("/webcam 23")))
}

#[test]
fn grammar() {
    assert_eq!(Grammar, Input::from(format!("/grammar")))
}
