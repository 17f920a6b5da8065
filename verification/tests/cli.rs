use timepour::cli::Cli;
use timepour::time::Duration;

#[test]
fn top_level_accepts_bare_number_as_focus_minutes() {
    let cli = Cli::try_parse_from(&["timepour", "25"]).unwrap();

    assert!(!cli.break_mode);
    assert_eq!(cli.duration, Some(Duration::from_secs(25 * 60)));
}

#[test]
fn top_level_accepts_explicit_minutes() {
    let cli = Cli::try_parse_from(&["timepour", "25m"]).unwrap();

    assert!(!cli.break_mode);
    assert_eq!(cli.duration, Some(Duration::from_secs(25 * 60)));
}

#[test]
fn top_level_accepts_hours_and_minutes() {
    let cli = Cli::try_parse_from(&["timepour", "1h30m"]).unwrap();

    assert!(!cli.break_mode);
    assert_eq!(cli.duration, Some(Duration::from_secs(90 * 60)));
}

#[test]
fn top_level_still_accepts_colon_duration() {
    let cli = Cli::try_parse_from(&["timepour", "1:30"]).unwrap();

    assert!(!cli.break_mode);
    assert_eq!(cli.duration, Some(Duration::from_secs(90)));
}

#[test]
fn top_level_accepts_seconds_duration() {
    let cli = Cli::try_parse_from(&["timepour", "90s"]).unwrap();

    assert!(!cli.break_mode);
    assert_eq!(cli.duration, Some(Duration::from_secs(90)));
}

#[test]
fn omitted_duration_stays_focus_with_default_duration() {
    let cli = Cli::try_parse_from(&["timepour"]).unwrap();

    assert!(!cli.break_mode);
    assert_eq!(cli.duration, None);
}

#[test]
fn zero_duration_error_is_clear() {
    let error = Cli::try_parse_from(&["timepour", "0"]).unwrap_err();

    assert!(error.to_string().contains("must be at least 1"));
}

#[test]
fn long_break_flag_selects_break_mode() {
    let cli = Cli::try_parse_from(&["timepour", "--break", "5"]).unwrap();

    assert!(cli.break_mode);
    assert_eq!(cli.duration, Some(Duration::from_secs(5 * 60)));
}

#[test]
fn short_break_flag_selects_break_mode() {
    let cli = Cli::try_parse_from(&["timepour", "-b", "5m"]).unwrap();

    assert!(cli.break_mode);
    assert_eq!(cli.duration, Some(Duration::from_secs(5 * 60)));
}

#[test]
fn break_flag_can_use_default_duration() {
    let cli = Cli::try_parse_from(&["timepour", "--break"]).unwrap();

    assert!(cli.break_mode);
    assert_eq!(cli.duration, None);
}

#[test]
fn start_subcommand_is_not_supported() {
    let result = Cli::try_parse_from(&["timepour", "start", "10"]);

    assert!(result.is_err());
}

#[test]
fn break_subcommand_is_not_supported() {
    let result = Cli::try_parse_from(&["timepour", "break", "10"]);

    assert!(result.is_err());
}

#[test]
fn seconds_flag_is_not_supported() {
    let result = Cli::try_parse_from(&["timepour", "--seconds", "30"]);

    assert!(result.is_err());
}

#[test]
fn help_and_version_are_requests_that_exit_cleanly() {
    let help = Cli::try_parse_from(&["timepour", "--help"]).unwrap_err();
    assert_eq!(help.exit_code(), 0);
    assert!(help.to_string().contains("DURATION"));

    let version = Cli::try_parse_from(&["timepour", "--version"]).unwrap_err();
    assert_eq!(version.exit_code(), 0);
    assert!(version.to_string().contains("0.1.2"));

    let refused = Cli::try_parse_from(&["timepour", "abc"]).unwrap_err();
    assert_eq!(refused.exit_code(), 2);
    assert!(refused.to_string().contains("must be a whole number"));
}

#[test]
fn duration_after_flag_and_value_separator_are_read() {
    let cli = Cli::try_parse_from(&["timepour", "--", "90s"]).unwrap();
    assert_eq!(cli.duration, Some(Duration::from_secs(90)));

    let cli = Cli::try_parse_from(&["timepour", "5m", "-b"]).unwrap();
    assert!(cli.break_mode);
    assert_eq!(cli.duration, Some(Duration::from_secs(300)));
}
