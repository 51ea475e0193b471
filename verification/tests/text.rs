use fish::text::{decimal_string, join_path, str_contains, str_find, str_lt};

#[test]
fn decimal_renders_without_leading_zeros() {
    assert_eq!(decimal_string(0), "0");
    assert_eq!(decimal_string(1024), "1024");
    assert_eq!(decimal_string(u64::MAX as u128), "18446744073709551615");
}

#[test]
fn paths_join_like_std() {
    assert_eq!(join_path("/a", "b"), "/a/b");
    assert_eq!(join_path("/a/", "b"), "/a/b");
    assert_eq!(join_path("", "b"), "b");
    assert_eq!(join_path("/a", "/abs"), "/abs");
    assert_eq!(join_path("/a", ""), "/a/");
}

#[test]
fn strings_order_by_code_point() {
    assert!(str_lt("abc", "abd"));
    assert!(str_lt("ab", "abc"));
    assert!(!str_lt("abc", "abc"));
    assert!(str_lt("Z", "a"));
    assert!(!str_lt("b", "a"));
}

#[test]
fn substrings_are_found() {
    assert!(str_contains("hello world", "o w"));
    assert!(!str_contains("hello", "hello!"));
    assert!(str_contains("x", ""));
    assert_eq!(str_find("a) b) c", ") "), Some(1));
    assert_eq!(str_find("abc", "x"), None);
}
