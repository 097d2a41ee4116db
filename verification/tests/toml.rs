use sublime::toml::{
    date_is_valid, datetime_is_valid, is_bare_key_byte, is_control, is_token_byte, looks_like_date, looks_like_time,
    offset_length, time_length, two_digits,
};

#[test]
fn datetimes_are_validated_as_written() {
    assert!(datetime_is_valid(b"1979-05-27T07:32:00Z"));
    assert!(datetime_is_valid(b"07:32:00.5"));
    assert!(datetime_is_valid(b"1979-05-27 07:32:00"));
    assert!(datetime_is_valid(b"1979-05-27"));
    assert!(datetime_is_valid(b"1979-05-27t07:32:00-07:00"));
    assert!(!datetime_is_valid(b"1979-13-01"));
    assert!(!datetime_is_valid(b"25:00:00"));
    assert!(!datetime_is_valid(b"1979-05-27T07:32"));
    assert!(!datetime_is_valid(b"1979-05-27X07:32:00"));
    assert!(!datetime_is_valid(b"1979-05-27T07:32:00+24:00"));
    assert!(!datetime_is_valid(b"07:32:00."));
    assert!(!datetime_is_valid(b""));
}

#[test]
fn date_and_time_parts() {
    assert!(looks_like_date(b"2024-01-02"));
    assert!(!looks_like_date(b"2024-01-0"));
    assert!(!looks_like_date(b"20x4-01-02"));
    assert!(looks_like_time(b"12:00:00"));
    assert!(!looks_like_time(b"12-00-00"));
    assert_eq!(two_digits(b"x42", 1), Some(42));
    assert_eq!(two_digits(b"x4", 1), None);
    assert_eq!(two_digits(b"4a", 0), None);
    assert!(date_is_valid(b"2024-12-31"));
    assert!(!date_is_valid(b"2024-00-10"));
    assert!(!date_is_valid(b"2024-01-32"));
    assert_eq!(time_length(b"23:59:60"), Some(8));
    assert_eq!(time_length(b"23:59:59.123Z"), Some(12));
    assert_eq!(time_length(b"24:00:00"), None);
    assert_eq!(time_length(b"23:60:00"), None);
    assert_eq!(offset_length(b"Z"), Some(1));
    assert_eq!(offset_length(b"z"), Some(1));
    assert_eq!(offset_length(b"+05:30"), Some(6));
    assert_eq!(offset_length(b"-23:59"), Some(6));
    assert_eq!(offset_length(b"+05-30"), None);
    assert_eq!(offset_length(b""), None);
}

#[test]
fn byte_classes() {
    assert!(is_bare_key_byte(b'a'));
    assert!(is_bare_key_byte(b'Z'));
    assert!(is_bare_key_byte(b'7'));
    assert!(is_bare_key_byte(b'_'));
    assert!(is_bare_key_byte(b'-'));
    assert!(!is_bare_key_byte(b'.'));
    assert!(is_token_byte(b'.'));
    assert!(is_token_byte(b':'));
    assert!(is_token_byte(b'+'));
    assert!(!is_token_byte(b' '));
    assert!(is_control(0x00));
    assert!(is_control(0x7F));
    assert!(!is_control(b'\t'));
    assert!(!is_control(b' '));
}

#[test]
fn underscores_come_out_from_between_digits() {
    assert_eq!(sublime::toml::strip_underscores("1_000", 10), Ok(String::from("1000")));
    assert_eq!(sublime::toml::strip_underscores("ff_FF", 16), Ok(String::from("ffFF")));
    assert_eq!(sublime::toml::strip_underscores("0101", 2), Ok(String::from("0101")));
    assert_eq!(sublime::toml::strip_underscores("", 10), Err("expected digits"));
    assert_eq!(sublime::toml::strip_underscores("_1", 10), Err("underscores must sit between digits"));
    assert_eq!(sublime::toml::strip_underscores("1__0", 10), Err("underscores must sit between digits"));
    assert_eq!(sublime::toml::strip_underscores("1_", 10), Err("underscores must sit between digits"));
    assert_eq!(sublime::toml::strip_underscores("12a", 10), Err("invalid character in a number"));
    assert_eq!(sublime::toml::strip_underscores("102", 2), Err("invalid character in a number"));
    assert_eq!(sublime::toml::strip_underscores("7_8", 8), Err("underscores must sit between digits"));
}
