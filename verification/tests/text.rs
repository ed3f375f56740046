use fleischwolf::text::{
    clean_lines, join, parse_i64, parse_usize, same_text, spaces, starts_with, trim,
    without_trailing_space,
};

#[test]
fn lines_are_cleaned() {
    assert_eq!(clean_lines("  a \n\n\t b\r\n c"), "a b c");
    assert_eq!(clean_lines("\n \n"), "");
    assert_eq!(clean_lines("one"), "one");
    let once = clean_lines(" x \n y ");
    assert_eq!(clean_lines(&once), once);
}

#[test]
fn white_space_is_trimmed() {
    assert_eq!(trim("\u{a0} a b \u{3000}"), "a b");
    assert_eq!(without_trailing_space(" a \n"), " a");
    assert_eq!(trim(" \t"), "");
}

#[test]
fn numbers_are_read() {
    assert_eq!(parse_usize("042"), Some(42));
    assert_eq!(parse_usize("+7"), Some(7));
    assert_eq!(parse_usize("-7"), None);
    assert_eq!(parse_usize(""), None);
    assert_eq!(parse_usize("+"), None);
    assert_eq!(parse_usize("1 "), None);
    assert_eq!(parse_usize("18446744073709551616"), None);
    assert_eq!(parse_i64("-9223372036854775808"), Some(i64::MIN));
    assert_eq!(parse_i64("9223372036854775808"), None);
    assert_eq!(parse_i64("+12"), Some(12));
    assert_eq!(parse_i64("-"), None);
}

#[test]
fn texts_are_joined_and_compared() {
    assert_eq!(join(&vec!["a".to_string(), "b".to_string()], ", "), "a, b");
    assert_eq!(join(&Vec::new(), ", "), "");
    assert!(same_text("é", "é"));
    assert!(!same_text("a", "ab"));
    assert!(starts_with("super 58%", "super"));
    assert!(!starts_with("su", "sub"));
    assert_eq!(spaces(3), "   ");
}
