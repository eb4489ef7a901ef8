use workpool::args::parse_usize_flag;

#[test]
fn parses_a_plain_number() {
    assert_eq!(parse_usize_flag(Some("123"), 7), 123);
    assert_eq!(parse_usize_flag(Some("0"), 7), 0);
}

#[test]
fn parses_a_plus_signed_number() {
    assert_eq!(parse_usize_flag(Some("+42"), 7), 42);
}

#[test]
fn missing_argument_falls_back() {
    assert_eq!(parse_usize_flag(None, 7), 7);
}

#[test]
fn stray_characters_fall_back() {
    assert_eq!(parse_usize_flag(Some("abc"), 7), 7);
    assert_eq!(parse_usize_flag(Some("12x"), 7), 7);
    assert_eq!(parse_usize_flag(Some("-3"), 7), 7);
    assert_eq!(parse_usize_flag(Some(""), 7), 7);
    assert_eq!(parse_usize_flag(Some("+"), 7), 7);
}

#[test]
fn overflow_falls_back() {
    assert_eq!(parse_usize_flag(Some("99999999999999999999999999"), 7), 7);
}
