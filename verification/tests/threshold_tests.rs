use word_similarity::parse_percent;

fn parse(s: &str) -> Option<word_similarity::Threshold> {
    parse_percent(&s.as_bytes().to_vec())
}

#[test]
fn parses_whole_percent() {
    let t = parse("80").unwrap();
    assert!(!t.negative);
    assert_eq!(t.num, 80);
    assert_eq!(t.den, 100);
}

#[test]
fn parses_decimals() {
    let t = parse("66.67").unwrap();
    assert!(!t.negative);
    assert_eq!(t.num, 6667);
    assert_eq!(t.den, 10_000);
}

#[test]
fn parses_negative() {
    let t = parse("-5").unwrap();
    assert!(t.negative);
    assert_eq!(t.num, 5);
    assert_eq!(t.den, 100);
}

#[test]
fn parses_explicit_plus() {
    let t = parse("+12.5").unwrap();
    assert!(!t.negative);
    assert_eq!(t.num, 125);
    assert_eq!(t.den, 1000);
}

#[test]
fn parses_leading_dot() {
    let t = parse(".5").unwrap();
    assert_eq!(t.num, 5);
    assert_eq!(t.den, 1000);
}

#[test]
fn parses_trailing_dot() {
    let t = parse("5.").unwrap();
    assert_eq!(t.num, 5);
    assert_eq!(t.den, 100);
}

#[test]
fn rejects_letters() {
    assert!(parse("abc").is_none());
    assert!(parse("1x").is_none());
    assert!(parse("1.2y").is_none());
}

#[test]
fn rejects_empty_and_lone_signs() {
    assert!(parse("").is_none());
    assert!(parse("-").is_none());
    assert!(parse("+").is_none());
    assert!(parse(".").is_none());
}

#[test]
fn rejects_two_dots() {
    assert!(parse("1.2.3").is_none());
}

#[test]
fn rejects_too_many_digits() {
    assert!(parse("1234567890").is_none());
    assert!(parse("1.1234567890").is_none());
}

#[test]
fn hundred_is_one() {
    let t = parse("100").unwrap();
    assert_eq!(t.num, 100);
    assert_eq!(t.den, 100);
}
