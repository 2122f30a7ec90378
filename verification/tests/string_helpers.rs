//! Tests of the verified string helpers.

use mailbox_mcp::strings::{is_blank, parse_message_id, str_eq, str_lt, trim_str};

#[test]
fn trim_removes_surrounding_whitespace_only() {
    assert_eq!(trim_str("  hello world \t\n"), "hello world");
    assert_eq!(trim_str("no-change"), "no-change");
    assert_eq!(trim_str("   "), "");
    assert_eq!(trim_str(""), "");
}

#[test]
fn trim_handles_unicode_whitespace() {
    assert_eq!(trim_str("\u{00A0}\u{3000}text\u{2028}"), "text");
    assert_eq!(trim_str("\u{1680}\u{205F}"), "");
}

#[test]
fn blankness_matches_trimming() {
    assert!(is_blank(""));
    assert!(is_blank(" \t\r\n"));
    assert!(!is_blank(" x "));
}

#[test]
fn string_equality_is_by_characters() {
    assert!(str_eq("abc", "abc"));
    assert!(!str_eq("abc", "abd"));
    assert!(!str_eq("abc", "ab"));
    assert!(str_eq("", ""));
}

#[test]
fn lexicographic_order_is_by_code_point() {
    assert!(str_lt("apple", "banana"));
    assert!(!str_lt("banana", "apple"));
    assert!(str_lt("ab", "abc"));
    assert!(!str_lt("abc", "abc"));
    assert!(str_lt("Z", "a"));
}

#[test]
fn message_id_parsing_boundaries() {
    assert_eq!(parse_message_id("0"), Some(0));
    assert_eq!(parse_message_id("42"), Some(42));
    assert_eq!(parse_message_id("007"), Some(7));
    assert_eq!(parse_message_id("18446744073709551615"), Some(u64::MAX));
    assert_eq!(parse_message_id("18446744073709551616"), None);
    assert_eq!(parse_message_id(""), None);
    assert_eq!(parse_message_id("12a"), None);
    assert_eq!(parse_message_id("+5"), None);
    assert_eq!(parse_message_id("-5"), None);
}
