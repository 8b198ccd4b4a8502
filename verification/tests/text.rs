use quartz::commands::chars_to_string;
use quartz::text::{
    char_is_ascii_ws, char_is_control, char_is_digit, char_is_unicode_ws, chars_of, eq_lit,
    find_char, parse_i32, parse_unsigned, push_decimal_i64, push_decimal_u64, split_at_char,
    split_tokens, starts_with, strip_all_prefixes, sub_chars, trim, trim_start,
};

fn cs(s: &str) -> Vec<char> {
    s.chars().collect()
}

fn strs(v: &[Vec<char>]) -> Vec<String> {
    v.iter().map(|x| x.iter().collect()).collect()
}

#[test]
fn parse_unsigned_reads_decimal_text() {
    assert_eq!(parse_unsigned(&cs("42"), 100), Some(42));
    assert_eq!(parse_unsigned(&cs("+7"), 100), Some(7));
    assert_eq!(parse_unsigned(&cs("007"), 100), Some(7));
    assert_eq!(parse_unsigned(&cs("101"), 100), None);
    assert_eq!(parse_unsigned(&cs("18446744073709551615"), u64::MAX), Some(u64::MAX));
    assert_eq!(parse_unsigned(&cs("18446744073709551616"), u64::MAX), None);
    assert_eq!(parse_unsigned(&cs(""), 100), None);
    assert_eq!(parse_unsigned(&cs("+"), 100), None);
    assert_eq!(parse_unsigned(&cs("-1"), 100), None);
    assert_eq!(parse_unsigned(&cs("1 "), 100), None);
}

#[test]
fn parse_i32_reads_signed_text() {
    assert_eq!(parse_i32(&cs("-12")), Some(-12));
    assert_eq!(parse_i32(&cs("+12")), Some(12));
    assert_eq!(parse_i32(&cs("-2147483648")), Some(i32::MIN));
    assert_eq!(parse_i32(&cs("-2147483649")), None);
    assert_eq!(parse_i32(&cs("--1")), None);
    assert_eq!(parse_i32(&cs("-")), None);
}

#[test]
fn decimal_text() {
    let mut s = String::from("x=");
    push_decimal_u64(&mut s, 0);
    push_decimal_u64(&mut s, 1234);
    assert_eq!(s, "x=01234");
    let mut t = String::new();
    push_decimal_i64(&mut t, i64::MIN);
    assert_eq!(t, i64::MIN.to_string());
    let mut u = String::new();
    push_decimal_i64(&mut u, -5);
    assert_eq!(u, "-5");
    assert_eq!(chars_to_string(&cs("awa")), "awa");
}

#[test]
fn tokens_and_pieces() {
    assert_eq!(strs(&split_tokens(&cs("  :set n\t 4v1 42  "))), vec![":set", "n", "4v1", "42"]);
    assert!(split_tokens(&cs(" \t ")).is_empty());
    assert_eq!(strs(&split_at_char(&cs("a;b;;c"), ';')), vec!["a", "b", "", "c"]);
    assert_eq!(strs(&split_at_char(&cs(""), ';')), vec![""]);
}

#[test]
fn searching_and_slicing() {
    let v = cs("4v1v2");
    assert_eq!(find_char(&v, 0, 'v'), 1);
    assert_eq!(find_char(&v, 2, 'v'), 3);
    assert_eq!(find_char(&v, 4, 'v'), 5);
    assert_eq!(sub_chars(&v, 2, 3), cs("1"));
    assert!(eq_lit(&cs(":q"), ":q"));
    assert!(!eq_lit(&cs(":q "), ":q"));
    assert!(starts_with(&cs("-- CONNECT --"), &cs("-- CONNECT")));
    assert!(!starts_with(&cs("-- CON"), &cs("-- CONNECT")));
}

#[test]
fn trimming() {
    assert_eq!(trim_start(&cs(" \t x y ")), cs("x y "));
    assert_eq!(trim(&cs("\u{3000} x y \t")), cs("x y"));
    assert_eq!(strip_all_prefixes(&cs("set set op"), &cs("set ")), cs("op"));
    assert_eq!(strip_all_prefixes(&cs("abc"), &cs("")), cs("abc"));
}

#[test]
fn character_classes() {
    assert!(char_is_digit('7') && !char_is_digit('a'));
    assert!(char_is_control('\u{1b}') && char_is_control('\u{85}') && !char_is_control('a'));
    assert!(char_is_ascii_ws('\t') && !char_is_ascii_ws('\u{a0}'));
    assert!(char_is_unicode_ws('\u{a0}') && char_is_unicode_ws('\u{2028}') && !char_is_unicode_ws('x'));
    assert_eq!(chars_of("aé"), vec!['a', 'é']);
}
