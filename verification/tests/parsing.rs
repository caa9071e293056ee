use ttrack::error::Error;
use ttrack::time::{Time, TimeOrDelta, is_digit};

fn time_of(s: &str) -> TimeOrDelta {
    TimeOrDelta::parse(s).unwrap()
}

#[test]
fn one_or_two_digits_read_as_an_hour() {
    assert_eq!(time_of("9"), TimeOrDelta::Time(Time { seconds: 9 * 3600 }));
    assert_eq!(time_of("17"), TimeOrDelta::Time(Time { seconds: 17 * 3600 }));
    assert_eq!(time_of("0"), TimeOrDelta::Time(Time { seconds: 0 }));
    assert_eq!(time_of("23"), TimeOrDelta::Time(Time { seconds: 23 * 3600 }));
}

#[test]
fn three_or_four_digits_read_as_hours_and_minutes() {
    assert_eq!(time_of("930"), TimeOrDelta::Time(Time { seconds: 9 * 3600 + 30 * 60 }));
    assert_eq!(time_of("0930"), TimeOrDelta::Time(Time { seconds: 9 * 3600 + 30 * 60 }));
    assert_eq!(time_of("2359"), TimeOrDelta::Time(Time { seconds: 23 * 3600 + 59 * 60 }));
    assert_eq!(time_of("000"), TimeOrDelta::Time(Time { seconds: 0 }));
}

#[test]
fn out_of_range_times_are_rejected() {
    assert_eq!(TimeOrDelta::parse("24"), Err(Error::Validation));
    assert_eq!(TimeOrDelta::parse("99"), Err(Error::Validation));
    assert_eq!(TimeOrDelta::parse("2400"), Err(Error::Validation));
    assert_eq!(TimeOrDelta::parse("1299"), Err(Error::Validation));
}

#[test]
fn signed_input_reads_as_a_shift_in_minutes() {
    assert_eq!(time_of("+15"), TimeOrDelta::Delta(15 * 60));
    assert_eq!(time_of("-15"), TimeOrDelta::Delta(-15 * 60));
    assert_eq!(time_of("+0"), TimeOrDelta::Delta(0));
    // an extra leading plus is accepted, as numeric parsing accepts it
    assert_eq!(time_of("++5"), TimeOrDelta::Delta(5 * 60));
    assert_eq!(time_of("-+5"), TimeOrDelta::Delta(-5 * 60));
}

#[test]
fn malformed_input_is_rejected() {
    assert_eq!(TimeOrDelta::parse(""), Err(Error::Validation));
    assert_eq!(TimeOrDelta::parse("abc"), Err(Error::Validation));
    assert_eq!(TimeOrDelta::parse("12345"), Err(Error::Validation));
    assert_eq!(TimeOrDelta::parse("+"), Err(Error::Validation));
    assert_eq!(TimeOrDelta::parse("-"), Err(Error::Validation));
    assert_eq!(TimeOrDelta::parse("+12a"), Err(Error::Validation));
    assert_eq!(TimeOrDelta::parse("-99999999999999"), Err(Error::Validation));
    assert_eq!(TimeOrDelta::parse("1 30"), Err(Error::Validation));
    assert_eq!(TimeOrDelta::parse("é"), Err(Error::Validation));
}

#[test]
fn digit_scan_matches_decimal_digits_only() {
    assert!(is_digit("0123456789"));
    assert!(is_digit(""));
    assert!(!is_digit("12a"));
    assert!(!is_digit("+12"));
}

#[test]
fn hour_minute_second_construction_checks_ranges() {
    assert_eq!(Time::from_hms(23, 59, 59), Some(Time { seconds: 86399 }));
    assert_eq!(Time::from_hms(24, 0, 0), None);
    assert_eq!(Time::from_hms(0, 60, 0), None);
    assert_eq!(Time::from_hms(0, 0, 60), None);
    assert_eq!(Time::end_of_day().seconds, 86399);
}

#[test]
fn shifts_wrap_around_midnight() {
    let ten = Time { seconds: 10 * 3600 };
    assert_eq!(ten.plus_seconds(15 * 3600).seconds, 3600);
    assert_eq!(ten.plus_seconds(-11 * 3600).seconds, 23 * 3600);
    assert_eq!(ten.plus_seconds(0), ten);
    assert_eq!(ten.plus_seconds(-2 * 86400).seconds, 10 * 3600);
}
