use tztui::dates::parse_timezone_offset;
use tztui::timezones::{parse_user_timezone, validate_user_timezone_str};

#[test]
fn test_parse_user_timezone_with_nothing() {
    if let Err(err) = parse_user_timezone("") {
        assert_eq!(err.message(), "User/offset not formatted properly.");
    }
}

#[test]
fn test_parse_user_timezone_with_sep_no_username() {
    if let Err(err) = parse_user_timezone(",asdfUTC+8") {
        assert_eq!(err.message(), "User/offset not formatted properly.");
    }
}

#[test]
fn test_parse_user_timezone_with_sep_no_timezone() {
    if let Err(err) = parse_user_timezone("ausername,") {
        assert_eq!(err.message(), "User/offset not formatted properly.");
    }
}

#[test]
fn test_parse_user_timezone_with_valid_username_positive_timezone() {
    if let Ok((user, offset)) = parse_user_timezone("SomeName,UTC+4") {
        assert_eq!(user, "SomeName".to_string());
        assert_eq!(offset, 4);
    }
}

#[test]
fn test_parse_user_timezone_with_valid_username_negative_timezone() {
    if let Ok((user, offset)) = parse_user_timezone("SomeName,UTC-4") {
        assert_eq!(user, "SomeName".to_string());
        assert_eq!(offset, -4);
    }
}

#[test]
fn test_parse_user_timezone_with_and_without_utc_sep_positive_offset() {
    let (user0, offset0) = parse_user_timezone("SomeName,UTC+4").unwrap();
    let (user1, offset1) = parse_user_timezone("SomeName,+4").unwrap();

    assert_eq!(user0, user1);
    assert_eq!(offset0, offset1);
}

#[test]
fn test_parse_user_timezone_with_and_without_utc_sep_negative_offset() {
    let (user0, offset0) = parse_user_timezone("SomeName,UTC-4").unwrap();
    let (user1, offset1) = parse_user_timezone("SomeName,-4").unwrap();

    assert_eq!(user0, user1);
    assert_eq!(offset0, offset1);
}

#[test]
fn parse_accepts_the_documented_forms() {
    assert_eq!(parse_user_timezone("SomeName,UTC+4").unwrap(), ("SomeName".to_string(), 4));
    assert_eq!(parse_user_timezone("SomeName,+4").unwrap(), ("SomeName".to_string(), 4));
    assert_eq!(parse_user_timezone("SomeName,UTC-4").unwrap(), ("SomeName".to_string(), -4));
}

#[test]
fn parse_rejects_the_documented_forms() {
    assert!(parse_user_timezone("SomeName,").is_err());
    assert!(parse_user_timezone(",UTC+8").is_err());
    assert!(parse_user_timezone("NoCommaHere").is_err());
}

#[test]
fn parse_takes_one_or_two_digits_only() {
    assert_eq!(parse_user_timezone("n,+99").unwrap(), ("n".to_string(), 99));
    assert_eq!(parse_user_timezone("n,-99").unwrap(), ("n".to_string(), -99));
    assert!(parse_user_timezone("n,+100").is_err());
    assert!(parse_user_timezone("n,+").is_err());
}

#[test]
fn parse_rejects_a_second_comma() {
    assert!(parse_user_timezone("a,b,+4").is_err());
}

#[test]
fn validate_agrees_with_parse() {
    assert!(validate_user_timezone_str("SomeName,UTC+4"));
    assert!(!validate_user_timezone_str("SomeName,"));
    assert!(!validate_user_timezone_str(""));
}

#[test]
fn offset_reader_requires_the_utc_prefix() {
    assert_eq!(parse_timezone_offset("UTC+7").unwrap(), 7);
    assert_eq!(parse_timezone_offset("UTC-12").unwrap(), 12);
    assert!(parse_timezone_offset("+7").is_err());
    assert!(parse_timezone_offset("UTC7").is_err());
    assert!(parse_timezone_offset("UTC+123").is_err());
}
