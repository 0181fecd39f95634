use arnis::text::{chars_of, height_number_text, parse_i32, same_text};

fn text(value: &str) -> Option<String> {
    height_number_text(value).map(|cs| cs.into_iter().collect())
}

#[test]
fn parses_signed_integers() {
    assert_eq!(parse_i32("2"), Some(2));
    assert_eq!(parse_i32("-1"), Some(-1));
    assert_eq!(parse_i32("+17"), Some(17));
    assert_eq!(parse_i32("007"), Some(7));
}

#[test]
fn parses_the_i32_limits() {
    assert_eq!(parse_i32("2147483647"), Some(i32::MAX));
    assert_eq!(parse_i32("-2147483648"), Some(i32::MIN));
    assert_eq!(parse_i32("2147483648"), None);
    assert_eq!(parse_i32("-2147483649"), None);
    assert_eq!(parse_i32("99999999999999999999"), None);
}

#[test]
fn refuses_what_is_not_an_integer() {
    assert_eq!(parse_i32(""), None);
    assert_eq!(parse_i32("-"), None);
    assert_eq!(parse_i32("+"), None);
    assert_eq!(parse_i32(" 1"), None);
    assert_eq!(parse_i32("1.5"), None);
    assert_eq!(parse_i32("1_000"), None);
    assert_eq!(parse_i32("--1"), None);
}

#[test]
fn agrees_with_std_parse() {
    for s in ["0", "-0", "+0", "12", "-12", "2147483647", "2147483648", "-2147483648", "a", "1a", "", "٣"] {
        assert_eq!(parse_i32(s), s.parse::<i32>().ok(), "{}", s);
    }
}

#[test]
fn height_text_takes_the_number() {
    assert_eq!(text("5.2m"), Some("5.2".to_string()));
    assert_eq!(text("  12 m"), Some("12".to_string()));
    assert_eq!(text("about -3.5 metres"), Some("-3.5".to_string()));
    assert_eq!(text("ca. 4"), Some(".".to_string()));
    assert_eq!(text("5 6"), Some("5".to_string()));
    assert_eq!(text("1-2"), Some("1".to_string()));
    assert_eq!(text("--3"), Some("-".to_string()));
}

#[test]
fn height_text_of_nothing() {
    assert_eq!(text(""), None);
    assert_eq!(text("   "), None);
    assert_eq!(text("high"), None);
}

#[test]
fn characters_and_equality() {
    assert_eq!(chars_of("höhe"), vec!['h', 'ö', 'h', 'e']);
    assert!(same_text("yes", "yes"));
    assert!(!same_text("yes", "no"));
    assert!(!same_text("ye", "yes"));
}
