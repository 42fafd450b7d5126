use polylang::decimal::{parse_integer, IntErrorKind};
use polylang::text::{split_once, split_string, str_eq, write_decimal};

#[test]
fn split_keeps_empty_pieces() {
    assert_eq!(split_string("a.b..c", '.'), vec!["a", "b", "", "c"]);
    assert_eq!(split_string("", '.'), vec![""]);
    assert_eq!(split_string(".", '.'), vec!["", ""]);
}

#[test]
fn split_once_cuts_at_first_separator() {
    assert_eq!(split_once("a,b,c", ','), Some(("a".to_string(), "b,c".to_string())));
    assert_eq!(split_once(",", ','), Some((String::new(), String::new())));
    assert_eq!(split_once("abc", ','), None);
}

#[test]
fn str_eq_compares_characters() {
    assert!(str_eq("héllo", "héllo"));
    assert!(!str_eq("hello", "hellO"));
    assert!(!str_eq("a", "ab"));
}

#[test]
fn decimal_text() {
    let mut s = String::from("n=");
    write_decimal(&mut s, 0);
    write_decimal(&mut s, 1234567890);
    assert_eq!(s, "n=01234567890");
}

#[test]
fn integers_parse_with_overflow_check() {
    let chars = |t: &str| -> Vec<char> { t.chars().collect() };
    assert_eq!(parse_integer(&chars("18446744073709551615"), false, 0, u64::MAX as i128), Ok(u64::MAX as i128));
    assert_eq!(
        parse_integer(&chars("18446744073709551616"), false, 0, u64::MAX as i128),
        Err(IntErrorKind::PosOverflow)
    );
    assert_eq!(parse_integer(&chars("+"), false, 0, 10), Err(IntErrorKind::InvalidDigit));
    assert_eq!(parse_integer(&chars("12a"), false, 0, 100), Err(IntErrorKind::InvalidDigit));
    assert_eq!(parse_integer(&chars("-11"), true, -10, 10), Err(IntErrorKind::NegOverflow));
    assert_eq!(parse_integer(&chars("-10"), true, -10, 10), Ok(-10));
    assert_eq!(parse_integer(&chars(""), true, -10, 10), Err(IntErrorKind::Empty));
}
