use recall::text::{
    bytes_eq, decimal_string, ends_with, find_bytes, pad_left_string, right_aligned4, starts_with,
    str_contains, str_eq, zero_padded3,
};

#[test]
fn finds_first_occurrence() {
    assert_eq!(find_bytes(b"abcabc", b"bc"), Some(1));
    assert_eq!(find_bytes(b"abcabc", b"cab"), Some(2));
    assert_eq!(find_bytes(b"abc", b"abcd"), None);
    assert_eq!(find_bytes(b"abc", b""), Some(0));
    assert_eq!(find_bytes(b"", b""), Some(0));
    assert_eq!(find_bytes(b"aaa", b"x"), None);
}

#[test]
fn contains_and_equality() {
    assert!(str_contains("recall archive-session", "archive-session"));
    assert!(!str_contains("recall", "Recall"));
    assert!(str_eq("abc", "abc"));
    assert!(!str_eq("abc", "abd"));
    assert!(bytes_eq(b"", b""));
    assert!(!bytes_eq(b"a", b"ab"));
}

#[test]
fn prefixes_and_suffixes() {
    assert!(starts_with("conversation-1.md", "conversation-"));
    assert!(!starts_with("conv", "conversation-"));
    assert!(ends_with("x.md", ".md"));
    assert!(!ends_with("x.mdx", ".md"));
    assert!(ends_with("äö.md", "ö.md"));
}

#[test]
fn decimals() {
    assert_eq!(decimal_string(0), "0");
    assert_eq!(decimal_string(7), "7");
    assert_eq!(decimal_string(1234567890), "1234567890");
    assert_eq!(decimal_string(u64::MAX), u64::MAX.to_string());
    assert_eq!(zero_padded3(5), "005");
    assert_eq!(zero_padded3(12345), "12345");
    assert_eq!(right_aligned4(42), "  42");
    assert_eq!(right_aligned4(123456), "123456");
    assert_eq!(pad_left_string("ab", 5, "*"), "***ab");
}

