use backend::text::{
    chars_of, first_index, last_index, starts_with, str_eq, trim_end_str_by, trim_str,
    trim_str_by, CharClass,
};

#[test]
fn trim_removes_unicode_whitespace() {
    assert_eq!(trim_str("  hello \n"), "hello");
    assert_eq!(trim_str("\u{3000}\tx y\u{a0}"), "x y");
    assert_eq!(trim_str("   "), "");
    assert_eq!(trim_str(""), "");
}

#[test]
fn trim_by_quote_and_semicolon() {
    assert_eq!(trim_str_by("'./util'", CharClass::Quote), "./util");
    assert_eq!(trim_str_by("`\"a\"`", CharClass::Quote), "a");
    assert_eq!(trim_end_str_by("System;;", CharClass::Semicolon), "System");
    assert_eq!(trim_end_str_by(";a;", CharClass::Semicolon), ";a");
}

#[test]
fn starts_with_and_equality() {
    assert!(starts_with("https://x", "https://"));
    assert!(!starts_with("http", "https"));
    assert!(starts_with("abc", ""));
    assert!(str_eq("abc", "abc"));
    assert!(!str_eq("abc", "abd"));
}

#[test]
fn first_and_last_index() {
    let cs = chars_of("a=b=c");
    assert_eq!(first_index(&cs, '='), Some(1));
    assert_eq!(last_index(&cs, '='), Some(3));
    assert_eq!(first_index(&cs, '#'), None);
    assert_eq!(last_index(&cs, '#'), None);
}
