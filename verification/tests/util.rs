use dabping::util::{RangeError, parse_range};

#[test]
fn parses_ranges() {
    assert_eq!(parse_range("90").unwrap(), 90);
    assert_eq!(parse_range("90s").unwrap(), 90);
    assert_eq!(parse_range("5m").unwrap(), 300);
    assert_eq!(parse_range("3h").unwrap(), 10800);
    assert_eq!(parse_range("10d").unwrap(), 864000);
    assert_eq!(parse_range("2w").unwrap(), 1209600);
    assert!(parse_range("0h").is_err());
    assert!(parse_range("abc").is_err());
}

#[test]
fn tells_bad_ranges_apart() {
    assert_eq!(parse_range(" 5m "), Ok(300));
    assert_eq!(parse_range("+5m"), Ok(300));
    assert_eq!(parse_range(""), Err(RangeError::Unreadable));
    assert_eq!(parse_range("h"), Err(RangeError::Unreadable));
    assert_eq!(parse_range("5 m"), Err(RangeError::Unreadable));
    assert_eq!(parse_range("-5m"), Err(RangeError::Unreadable));
    assert_eq!(parse_range("0"), Err(RangeError::Zero));
    assert_eq!(parse_range("18446744073709551615"), Ok(u64::MAX));
    assert_eq!(parse_range("18446744073709551615m"), Err(RangeError::TooLarge));
    assert_eq!(parse_range("18446744073709551616"), Err(RangeError::Unreadable));
}

#[test]
fn ranges_in_words() {
    let words = |s: &str| parse_range(s).unwrap_err().message(s);
    assert_eq!(words(" soon "), "cannot parse range \"soon\"");
    assert_eq!(words("0d"), "range must be > 0");
    assert_eq!(words("18446744073709551615w"), "range is too large");
}
