use mehsh_check::text::{parse_u64_dec, replace_str, split_str, str_eq, str_starts_with, u64_to_dec};

#[test]
fn test_parse_u64_dec() {
    assert_eq!(parse_u64_dec("0"), Some(0));
    assert_eq!(parse_u64_dec("80"), Some(80));
    assert_eq!(parse_u64_dec("18446744073709551615"), Some(u64::MAX));
    assert_eq!(parse_u64_dec("18446744073709551616"), None);
    assert_eq!(parse_u64_dec(""), None);
    assert_eq!(parse_u64_dec("1a"), None);
    assert_eq!(parse_u64_dec("-1"), None);
    assert_eq!(parse_u64_dec("+1"), None);
}

#[test]
fn test_u64_to_dec() {
    assert_eq!(u64_to_dec(0), "0");
    assert_eq!(u64_to_dec(7), "7");
    assert_eq!(u64_to_dec(1234567890), "1234567890");
    assert_eq!(u64_to_dec(u64::MAX), "18446744073709551615");
}

#[test]
fn test_split_str() {
    assert_eq!(split_str("a.b.c", '.'), vec!["a", "b", "c"]);
    assert_eq!(split_str("", '.'), vec![""]);
    assert_eq!(split_str("a..b", '.'), vec!["a", "", "b"]);
    assert_eq!(split_str(".a.", '.'), vec!["", "a", ""]);
}

#[test]
fn test_replace_str() {
    assert_eq!(replace_str("a {x} b {x}", "{x}", "y"), "a y b y");
    assert_eq!(replace_str("aaa", "aa", "b"), "ba");
    assert_eq!(replace_str("none here", "{x}", "y"), "none here");
    assert_eq!(replace_str("{x}", "{x}", ""), "");
}

#[test]
fn test_str_helpers() {
    assert!(str_eq("abc", "abc"));
    assert!(!str_eq("abc", "abd"));
    assert!(!str_eq("abc", "ab"));
    assert!(str_starts_with("v4:1.2.3.4", "v4:"));
    assert!(!str_starts_with("v6:::1", "v4:"));
    assert!(!str_starts_with("v4", "v4:"));
}
