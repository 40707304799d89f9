use sleep::{
    duration_argument, sleep_request, str_to_duration, Duration, DurationError, SleepError,
    MAX_SECS,
};

fn args(list: &[&str]) -> Vec<String> {
    list.iter().map(|a| a.to_string()).collect()
}

fn secs_nanos(s: &str) -> (u64, u32) {
    let d = str_to_duration(s).expect("a duration");
    (d.as_secs(), d.subsec_nanos())
}

#[test]
fn test_integers() {
    assert_eq!(Ok(Duration::new(0, 0)), str_to_duration("0"));
    assert_eq!(Ok(Duration::new(1, 0)), str_to_duration("1"));
    assert_eq!(Ok(Duration::new(5, 0)), str_to_duration("5"));
    assert_eq!(Ok(Duration::new(360, 0)), str_to_duration("360"));
}

#[test]
fn test_floats() {
    assert_eq!(Ok(Duration::new(0, 0)), str_to_duration("0.0"));
    assert_eq!(Ok(Duration::new(1, 0)), str_to_duration("1"));
    assert_eq!(Ok(Duration::new(5, 0)), str_to_duration("5"));
    assert_eq!(Ok(Duration::new(360, 0)), str_to_duration("360"));
}

#[test]
fn fractional_seconds_truncate_to_nanoseconds() {
    assert_eq!(secs_nanos("1.5"), (1, 500_000_000));
    assert_eq!(secs_nanos("0.25"), (0, 250_000_000));
    assert_eq!(secs_nanos("0.000000001"), (0, 1));
    assert_eq!(secs_nanos("0.0000000019"), (0, 1));
    assert_eq!(secs_nanos("0.0000000009"), (0, 0));
    assert_eq!(secs_nanos("2.999999999999"), (2, 999_999_999));
    assert_eq!(secs_nanos(".5"), (0, 500_000_000));
    assert_eq!(secs_nanos("0.9999999999"), (0, 999_999_999));
    assert_eq!(secs_nanos("0.1"), (0, 100_000_000));
    assert_eq!(secs_nanos("0.3"), (0, 300_000_000));
    assert_eq!(secs_nanos("7."), (7, 0));
}

#[test]
fn exponents_scale_the_value() {
    assert_eq!(secs_nanos("1e3"), (1000, 0));
    assert_eq!(secs_nanos("2.5E-1"), (0, 250_000_000));
    assert_eq!(secs_nanos("15e-1"), (1, 500_000_000));
    assert_eq!(secs_nanos("1e+2"), (100, 0));
    assert_eq!(secs_nanos("1e-400"), (0, 0));
    assert_eq!(secs_nanos("0e999999999999999999999999"), (0, 0));
}

#[test]
fn white_space_and_signs() {
    assert_eq!(secs_nanos("  2\n"), (2, 0));
    assert_eq!(secs_nanos("\t3.5 "), (3, 500_000_000));
    assert_eq!(secs_nanos("\u{3000}4\u{a0}"), (4, 0));
    assert_eq!(secs_nanos("+3"), (3, 0));
    assert_eq!(secs_nanos("-0"), (0, 0));
    assert_eq!(secs_nanos("-0.000"), (0, 0));
    assert_eq!(secs_nanos("-1e-400"), (0, 0));
    assert_eq!(secs_nanos("-2e-324"), (0, 0));
}

#[test]
fn negative_values_are_rejected() {
    assert_eq!(str_to_duration("-3"), Err(DurationError::NegativeValueError));
    assert_eq!(str_to_duration("-0.5"), Err(DurationError::NegativeValueError));
    assert_eq!(str_to_duration("-1e-9"), Err(DurationError::NegativeValueError));
    assert_eq!(str_to_duration("-5e-324"), Err(DurationError::NegativeValueError));
    assert_eq!(str_to_duration("-inf"), Err(DurationError::NegativeValueError));
}

#[test]
fn non_numbers_are_rejected() {
    for s in ["abc", "", "   ", "1,5", ".", "+", "-", "1e", "e5", "1e+", "--", "1.2.3", "0x10", "1 2", "in", "nana"] {
        assert_eq!(str_to_duration(s), Err(DurationError::ParseError), "{:?}", s);
    }
}

#[test]
fn large_values_are_clamped() {
    assert_eq!(secs_nanos("18446744073709551615"), (MAX_SECS, 0));
    assert_eq!(secs_nanos("18446744073709551616"), (MAX_SECS, 0));
    assert_eq!(secs_nanos("18446744073709551615.5"), (MAX_SECS, 0));
    assert_eq!(secs_nanos("1e400"), (MAX_SECS, 0));
    assert_eq!(secs_nanos("1e99999999999999999999999999"), (MAX_SECS, 0));
    assert_eq!(secs_nanos("18446744073709551614.75"), (MAX_SECS, 0));
    assert_eq!(secs_nanos("18446744073709549568"), (18446744073709549568, 0));
}

#[test]
fn infinity_and_not_a_number() {
    assert_eq!(secs_nanos("inf"), (MAX_SECS, 0));
    assert_eq!(secs_nanos("+Infinity"), (MAX_SECS, 0));
    assert_eq!(secs_nanos("NaN"), (0, 0));
    assert_eq!(secs_nanos("-nan"), (0, 0));
}

#[test]
fn duration_new_carries_whole_seconds() {
    let d = Duration::new(1, 1_500_000_000);
    assert_eq!((d.as_secs(), d.subsec_nanos()), (2, 500_000_000));
    assert_eq!(Duration::new(2, 500_000_000), d);
}

#[test]
fn argument_shapes() {
    assert_eq!(duration_argument(&args(&["3"])), Some(0));
    assert_eq!(duration_argument(&args(&["--", "3"])), Some(1));
    assert_eq!(duration_argument(&args(&[])), None);
    assert_eq!(duration_argument(&args(&["1", "2"])), None);
    assert_eq!(duration_argument(&args(&["--", "1", "2"])), None);
    assert_eq!(duration_argument(&args(&["-", "3"])), None);
}

#[test]
fn sleep_requests() {
    assert_eq!(sleep_request(&args(&["--", "3"])), Ok(Duration::new(3, 0)));
    assert_eq!(sleep_request(&args(&["0"])), Ok(Duration::new(0, 0)));
    assert_eq!(sleep_request(&args(&[])), Err(SleepError::UsageError));
    assert_eq!(
        sleep_request(&args(&["-3"])),
        Err(SleepError::Duration(DurationError::NegativeValueError))
    );
    assert_eq!(sleep_request(&args(&["--"])), Err(SleepError::Duration(DurationError::ParseError)));
    assert_eq!(sleep_request(&args(&["5", "6"])), Err(SleepError::UsageError));
}

#[test]
fn larger_values_never_give_shorter_durations() {
    let ordered = [
        "0", "0.0000000009", "0.000000001", "0.5", "1", "1.5", "2.3", "9007199254740992",
        "9007199254740993", "18446744073709551615", "1e30", "inf",
    ];
    for pair in ordered.windows(2) {
        assert!(secs_nanos(pair[0]) <= secs_nanos(pair[1]), "{:?}", pair);
    }
    assert_eq!(secs_nanos("9007199254740993"), secs_nanos("9007199254740992"));
}

#[test]
fn values_go_through_the_nearest_binary64_number() {
    assert_eq!(secs_nanos("2.3"), (2, 299_999_999));
    assert_eq!(secs_nanos("9007199254740993"), (9007199254740992, 0));
    assert_eq!(secs_nanos("9007199254740995"), (9007199254740996, 0));
    assert_eq!(secs_nanos("5e-324"), (0, 0));
    for s in ["2.3", "0.7", "1.1", "123.456", "0.000123", "3.14159", "1e-5", "4503599627370495.5"] {
        let v: f64 = s.parse().unwrap();
        let expected = (v.trunc() as u64, ((v - v.trunc()) * 1e9) as u32);
        assert_eq!(secs_nanos(s), expected, "{:?}", s);
    }
}
