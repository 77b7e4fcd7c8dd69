use ci_runner::cli::{key_action, Key, KeyAction};
use std::time::Duration;

use ci_runner::cli::{parse_args, ArgError, DEFAULT_MS};

fn args(v: &[&str]) -> Vec<String> {
    v.iter().map(|s| s.to_string()).collect::<Vec<_>>()
}

#[test]
fn no_arguments_uses_the_default_interval() {
    let d = parse_args(&args(&[])).ok().unwrap();
    assert_eq!(Duration::from_millis(d), Duration::from_millis(DEFAULT_MS));
}

#[test]
fn a_positional_interval_is_accepted() {
    let d = parse_args(&args(&["250"])).ok().unwrap();
    assert_eq!(Duration::from_millis(d), Duration::from_millis(250));
}

#[test]
fn help_is_distinct_from_an_error() {
    assert!(matches!(parse_args(&args(&["-h"])), Err(ArgError::Help)));
    assert!(matches!(parse_args(&args(&["--help"])), Err(ArgError::Help)));
}

#[test]
fn intervals_below_the_floor_are_rejected() {
    assert!(matches!(
        parse_args(&args(&["99"])),
        Err(ArgError::Invalid(_))
    ));
    assert!(matches!(
        parse_args(&args(&["0"])),
        Err(ArgError::Invalid(_))
    ));
}

#[test]
fn non_numeric_arguments_are_rejected() {
    assert!(matches!(
        parse_args(&args(&["abc"])),
        Err(ArgError::Invalid(_))
    ));
    assert!(matches!(
        parse_args(&args(&["-5"])),
        Err(ArgError::Invalid(_))
    ));
    assert!(matches!(
        parse_args(&args(&["--verbose"])),
        Err(ArgError::Invalid(_))
    ));
}

#[test]
fn the_last_interval_wins_and_a_plus_sign_is_read() {
    assert!(matches!(parse_args(&args(&["200", "+300"])), Ok(300)));
    assert!(matches!(parse_args(&args(&["100"])), Ok(100)));
    assert!(matches!(parse_args(&args(&["200", "-h"])), Err(ArgError::Help)));
    assert!(matches!(parse_args(&args(&["abc", "-h"])), Err(ArgError::Invalid(_))));
    assert!(matches!(parse_args(&args(&[" 200"])), Err(ArgError::Invalid(_))));
    assert!(matches!(parse_args(&args(&["18446744073709551616"])), Err(ArgError::Invalid(_))));
}

#[test]
fn the_invalid_message_names_the_floor() {
    match parse_args(&args(&["1"])) {
        Err(ArgError::Invalid(m)) => assert_eq!(m, "interval_ms must be an integer >= 100"),
        _ => panic!("expected an invalid interval"),
    }
}

#[test]
fn keys_quit_refresh_or_do_nothing() {
    assert_eq!(key_action(Key::Char('q'), false), KeyAction::Quit);
    assert_eq!(key_action(Key::Char('Q'), false), KeyAction::Quit);
    assert_eq!(key_action(Key::Esc, false), KeyAction::Quit);
    assert_eq!(key_action(Key::Char('c'), true), KeyAction::Quit);
    assert_eq!(key_action(Key::Char('c'), false), KeyAction::Ignore);
    assert_eq!(key_action(Key::Char('r'), false), KeyAction::Refresh);
    assert_eq!(key_action(Key::Char('R'), true), KeyAction::Refresh);
    assert_eq!(key_action(Key::Other, true), KeyAction::Ignore);
}
