use rgine::text::{
    contains_str, forward_slashes, join_strings, starts_with, str_eq, suffix_from,
    trim_leading_slashes, u32_to_decimal,
};

#[test]
fn decimal_notation() {
    assert_eq!(u32_to_decimal(0), "0");
    assert_eq!(u32_to_decimal(9), "9");
    assert_eq!(u32_to_decimal(10), "10");
    assert_eq!(u32_to_decimal(4294967295), "4294967295");
}

#[test]
fn comparisons() {
    assert!(str_eq("abc", "abc"));
    assert!(!str_eq("abc", "abd"));
    assert!(!str_eq("abc", "ab"));
    assert!(str_eq("", ""));
    assert!(starts_with("apps/x", "apps/"));
    assert!(!starts_with("app", "apps/"));
    assert!(starts_with("é☃", "é"));
    assert!(contains_str(&["a", "b"], "b"));
    assert!(!contains_str(&["a", "b"], "c"));
    assert!(!contains_str(&[], "c"));
}

#[test]
fn rewriting() {
    assert_eq!(forward_slashes("a\\b\\\\c"), "a/b//c");
    assert_eq!(forward_slashes("é\\☃"), "é/☃");
    assert_eq!(trim_leading_slashes("///a/b"), "a/b");
    assert_eq!(trim_leading_slashes("a/"), "a/");
    assert_eq!(trim_leading_slashes("//"), "");
    assert_eq!(suffix_from("héllo", 2), "llo");
    assert_eq!(
        join_strings(&vec!["a".to_string(), "b".to_string(), "c".to_string()], " -> "),
        "a -> b -> c"
    );
    assert_eq!(join_strings(&vec![], ", "), "");
    assert_eq!(join_strings(&vec!["x".to_string()], ", "), "x");
}
