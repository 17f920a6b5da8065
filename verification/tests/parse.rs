use timepour::cli::{
    chars_of, parse_duration, parse_duration_arg, parse_nonnegative_number,
    parse_positive_number, parse_u64, parse_unit_duration, trimmed_lowercase,
};
use timepour::time::Duration;

fn secs(n: u64) -> Result<Duration, String> {
    Ok(Duration::from_secs(n))
}

fn err(m: &str) -> Result<Duration, String> {
    Err(m.to_string())
}

fn chars(s: &str) -> Vec<char> {
    s.chars().collect()
}

#[test]
fn bare_numbers_are_minutes() {
    assert_eq!(parse_duration("25"), secs(25 * 60));
    assert_eq!(parse_duration("1"), secs(60));
    assert_eq!(parse_duration("+5"), secs(300));
    assert_eq!(parse_duration("007"), secs(420));
}

#[test]
fn units_hours_minutes_seconds() {
    assert_eq!(parse_duration("15m"), secs(900));
    assert_eq!(parse_duration("90s"), secs(90));
    assert_eq!(parse_duration("1h30m"), secs(5400));
    assert_eq!(parse_duration("1m30s"), secs(90));
    assert_eq!(parse_duration("1h2m3s"), secs(3723));
    assert_eq!(parse_duration("2h"), secs(7200));
    assert_eq!(parse_duration("1h5s"), secs(3605));
    assert_eq!(parse_duration("18446744073709551615s"), secs(u64::MAX));
}

#[test]
fn clock_format() {
    assert_eq!(parse_duration("1:30"), secs(90));
    assert_eq!(parse_duration("0:59"), secs(59));
    assert_eq!(parse_duration("10:05"), secs(605));
    assert_eq!(parse_duration("1:+5"), secs(65));
}

#[test]
fn case_and_surrounding_whitespace_are_ignored() {
    assert_eq!(parse_duration(" 25M "), secs(1500));
    assert_eq!(parse_duration("\t1H30M\n"), secs(5400));
    assert_eq!(parse_duration("\u{3000}90S\u{a0}"), secs(90));
    assert_eq!(trimmed_lowercase(&chars("  AbC 1\u{2003}")), chars("abc 1"));
}

#[test]
fn each_refusal_has_its_message() {
    assert_eq!(parse_duration(""), err("must not be empty"));
    assert_eq!(parse_duration("   "), err("must not be empty"));
    assert_eq!(parse_duration("0"), err("must be at least 1"));
    assert_eq!(parse_duration("0m"), err("must be at least 1"));
    assert_eq!(parse_duration("0:00"), err("must be at least 1"));
    assert_eq!(parse_duration("abc"), err("must be a whole number"));
    assert_eq!(parse_duration("-5"), err("must be a whole number"));
    assert_eq!(parse_duration("30m5"), err("must be a whole number"));
    assert_eq!(parse_duration("1:2:3"), err("use MM:SS format"));
    assert_eq!(parse_duration(":30"), err("minutes must not be empty"));
    assert_eq!(parse_duration("1:"), err("seconds must not be empty"));
    assert_eq!(parse_duration("a:30"), err("minutes must be a whole number"));
    assert_eq!(parse_duration("1:x"), err("seconds must be a whole number"));
    assert_eq!(parse_duration("1:60"), err("seconds must be less than 60 in MM:SS format"));
    assert_eq!(parse_duration("m"), err("use durations like 15m, 90s, 1h30m, or 1m30s"));
    assert_eq!(parse_duration("+5m"), err("use durations like 15m, 90s, 1h30m, or 1m30s"));
    assert_eq!(parse_duration("5m3h"), err("use durations like 15m, 90s, 1h30m, or 1m30s"));
    assert_eq!(parse_duration("5m5m"), err("use durations like 15m, 90s, 1h30m, or 1m30s"));
    assert_eq!(parse_duration("5x3m"), err("use durations like 15m, 90s, 1h30m, or 1m30s"));
    assert_eq!(
        parse_duration("99999999999999999999m"),
        err("duration must be a whole number")
    );
    assert_eq!(
        parse_duration("307445734561825861"),
        err("duration is too large")
    );
    assert_eq!(parse_duration("5124095576030432h"), err("duration is too large"));
    assert_eq!(
        parse_duration("307445734561825860:00"),
        secs(307445734561825860 * 60)
    );
    assert_eq!(parse_duration("307445734561825861:00"), err("duration is too large"));
}

#[test]
fn a_character_outside_ascii_after_a_number_is_refused() {
    assert_eq!(
        parse_duration_arg("5\u{e9}m"),
        err("use durations like 15m, 90s, 1h30m, or 1m30s")
    );
    assert_eq!(parse_duration_arg("25m"), secs(1500));
    assert_eq!(parse_duration_arg("0"), err("must be at least 1"));
}

#[test]
fn number_helpers() {
    assert_eq!(parse_u64(&chars("18446744073709551615")), Some(u64::MAX));
    assert_eq!(parse_u64(&chars("18446744073709551616")), None);
    assert_eq!(parse_u64(&chars("+0")), Some(0));
    assert_eq!(parse_u64(&chars("+")), None);
    assert_eq!(parse_u64(&chars("")), None);
    assert_eq!(parse_u64(&chars("1 2")), None);
    assert_eq!(parse_positive_number(&chars("12")), Ok(12));
    assert_eq!(parse_positive_number(&chars("0")), Err("must be at least 1".to_string()));
    assert_eq!(parse_positive_number(&chars("x")), Err("must be a whole number".to_string()));
    assert_eq!(parse_nonnegative_number(&chars("0"), "seconds"), Ok(0));
    assert_eq!(
        parse_nonnegative_number(&chars(""), "minutes"),
        Err("minutes must not be empty".to_string())
    );
    assert_eq!(
        parse_nonnegative_number(&chars("1.5"), "duration"),
        Err("duration must be a whole number".to_string())
    );
    assert_eq!(parse_unit_duration(&chars("1h30m")), Ok(5400));
    assert_eq!(parse_unit_duration(&chars("")), Ok(0));
    assert_eq!(chars_of("a\u{e9}1"), vec!['a', '\u{e9}', '1']);
}
