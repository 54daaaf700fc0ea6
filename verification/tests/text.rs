use napparent_tabular::order::text_cmp;
use napparent_tabular::text::{cat, contains_text, decimal, is_nan_word, same_text};
use std::cmp::Ordering;

#[test]
fn text_helpers() {
    assert_eq!(cat("ab", "cd"), "abcd");
    assert_eq!(decimal(0), "0");
    assert_eq!(decimal(1203), "1203");
    assert!(is_nan_word("NaN"));
    assert!(is_nan_word("nAn"));
    assert!(!is_nan_word("nana"));
    assert!(contains_text("was interrupted", "interrupted"));
    assert!(!contains_text("inter", "interrupted"));
    assert!(same_text("x", "x"));
    assert!(!same_text("x", "y"));
}

#[test]
fn text_order_matches_string_order() {
    for (a, b) in [("a", "b"), ("ab", "a"), ("", "a"), ("same", "same"), ("Z", "a"), ("é", "z")] {
        assert_eq!(text_cmp(a, b), a.cmp(b));
    }
    assert_eq!(text_cmp("a", "b"), Ordering::Less);
}
