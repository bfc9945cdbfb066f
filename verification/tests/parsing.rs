use active_app_volume::args::{
    parse_pid, parse_target, select_command, select_operation, ArgumentError,
};
use active_app_volume::operations::{Command, Operation, Target};
use active_app_volume::text::{parse_i32, parse_u32, text_equals};

#[test]
fn parse_u32_follows_from_str() {
    assert_eq!(parse_u32("0"), Some(0));
    assert_eq!(parse_u32("4242"), Some(4242));
    assert_eq!(parse_u32("+17"), Some(17));
    assert_eq!(parse_u32("007"), Some(7));
    assert_eq!(parse_u32("4294967295"), Some(4294967295));
    assert_eq!(parse_u32("4294967296"), None);
    assert_eq!(parse_u32("99999999999999999999"), None);
    assert_eq!(parse_u32(""), None);
    assert_eq!(parse_u32("+"), None);
    assert_eq!(parse_u32("-1"), None);
    assert_eq!(parse_u32("12a"), None);
    assert_eq!(parse_u32(" 12"), None);
    assert_eq!(parse_u32("١٢"), None);
    for text in ["0", "+5", "123456", "4294967295", "4294967296", "", "+", "-0", "1_0"] {
        assert_eq!(parse_u32(text), text.parse::<u32>().ok());
    }
}

#[test]
fn parse_i32_follows_from_str_radix() {
    assert_eq!(parse_i32("1234"), Some(1234));
    assert_eq!(parse_i32("-1234"), Some(-1234));
    assert_eq!(parse_i32("+1234"), Some(1234));
    assert_eq!(parse_i32("-0"), Some(0));
    assert_eq!(parse_i32("2147483647"), Some(i32::MAX));
    assert_eq!(parse_i32("-2147483648"), Some(i32::MIN));
    assert_eq!(parse_i32("2147483648"), None);
    assert_eq!(parse_i32("-2147483649"), None);
    assert_eq!(parse_i32("-"), None);
    assert_eq!(parse_i32("+"), None);
    assert_eq!(parse_i32("--1"), None);
    assert_eq!(parse_i32("+-1"), None);
    assert_eq!(parse_i32(""), None);
    for text in ["7", "-7", "+7", "-", "", "2147483648", "-2147483648", "x1", "1x"] {
        assert_eq!(parse_i32(text), i32::from_str_radix(text, 10).ok());
    }
}

#[test]
fn text_equals_compares_characters() {
    assert!(text_equals("all", "all"));
    assert!(!text_equals("all", "al"));
    assert!(!text_equals("All", "all"));
    assert!(text_equals("", ""));
}

#[test]
fn operation_precedence() {
    assert_eq!(select_operation(true, true, true, true), Ok(Operation::ToggleMute));
    assert_eq!(select_operation(false, true, true, true), Ok(Operation::NoOp));
    assert_eq!(select_operation(false, false, true, true), Ok(Operation::ChangeVolume));
    assert_eq!(select_operation(false, false, false, true), Ok(Operation::SetVolume));
    assert_eq!(
        select_operation(false, false, false, false),
        Err(ArgumentError::UnsupportedOperation)
    );
}

#[test]
fn target_names() {
    assert_eq!(parse_target(None), Ok(Target::All));
    assert_eq!(parse_target(Some("all")), Ok(Target::All));
    assert_eq!(parse_target(Some("active")), Ok(Target::Active));
    assert_eq!(parse_target(Some("ACTIVE")), Err(ArgumentError::InvalidTarget));
    assert_eq!(parse_target(Some("")), Err(ArgumentError::InvalidTarget));
}

#[test]
fn pid_argument() {
    assert_eq!(parse_pid(None), Ok(None));
    assert_eq!(parse_pid(Some("1234")), Ok(Some(1234)));
    assert_eq!(parse_pid(Some("12ab")), Err(ArgumentError::InvalidPid));
    assert_eq!(parse_pid(Some("-3")), Err(ArgumentError::InvalidPid));
}

fn args(words: &[&str]) -> Vec<String> {
    words.iter().map(|w| w.to_string()).collect()
}

#[test]
fn command_words() {
    assert_eq!(select_command(&args(&["prog", "up"])), Ok(Command::VolumeUp));
    assert_eq!(select_command(&args(&["prog", "down"])), Ok(Command::VolumeDown));
    assert_eq!(select_command(&args(&["prog", "mute"])), Ok(Command::ToggleMute));
    assert_eq!(select_command(&args(&["prog", "noop", "extra"])), Ok(Command::NoOp));
    assert_eq!(select_command(&args(&["prog", "loud"])), Err(ArgumentError::UnknownArgument));
    assert_eq!(select_command(&args(&["prog"])), Err(ArgumentError::MissingArgument));
    assert_eq!(select_command(&args(&[])), Err(ArgumentError::MissingArgument));
}
