use dioxus_sugar::sort::sort_by_name;
use dioxus_sugar::text::{starts_with, text_equal, text_less, trim_end_matches};

#[test]
fn text_order_is_lexicographic() {
    assert!(text_less("a", "b"));
    assert!(text_less("ab", "abc"));
    assert!(!text_less("abc", "ab"));
    assert!(!text_less("same", "same"));
    assert!(text_less("", "x"));
    assert!(text_less("Z", "a"));
    assert!(text_less("é", "ê"));
}

#[test]
fn text_equality_and_prefixes() {
    assert!(text_equal("class", "class"));
    assert!(!text_equal("class", "clas"));
    assert!(starts_with("data-x", "data-"));
    assert!(!starts_with("dat", "data-"));
    assert!(starts_with("anything", ""));
}

#[test]
fn trailing_patterns_are_trimmed_repeatedly() {
    assert_eq!(trim_end_matches("data-*", "-*"), "data");
    assert_eq!(trim_end_matches("x-*-*", "-*"), "x");
    assert_eq!(trim_end_matches("-*", "-*"), "");
    assert_eq!(trim_end_matches("plain", "-*"), "plain");
    assert_eq!(trim_end_matches("plain", ""), "plain");
}

#[test]
fn sorting_by_name_orders_and_keeps_everything() {
    let sorted = sort_by_name(vec!["pear".to_string(), "apple".to_string(), "fig".to_string(), "apple".to_string()]);
    assert_eq!(sorted, vec!["apple", "apple", "fig", "pear"]);
}
