use std::cmp::Ordering;

use gitree::utils::compare_file_names;

fn compare_str(file_name_1: &str, file_name_2: &str) -> Ordering {
    compare_file_names(file_name_1.as_bytes(), file_name_2.as_bytes())
}

#[test]
fn test_compare_file_names() {
    // Trivial equality.
    assert_eq!(compare_str("foobar", "foobar"), Ordering::Equal);

    // Ignore leading dot.
    assert_eq!(compare_str("foobar", ".foobar"), Ordering::Equal);
    assert_eq!(compare_str("foobar", "..foobar"), Ordering::Greater);

    // Ignore case.
    assert_eq!(compare_str("foobar", "FooBar"), Ordering::Equal);

    // Size matters.
    assert_eq!(compare_str("foo", "foobar"), Ordering::Less);
}

#[test]
fn empty_names_sort_first() {
    assert_eq!(compare_str("", ""), Ordering::Equal);
    assert_eq!(compare_str("", "a"), Ordering::Less);
    assert_eq!(compare_str(".", ""), Ordering::Equal);
    assert_eq!(compare_str(".", "a"), Ordering::Less);
    assert_eq!(compare_str("a", "."), Ordering::Greater);
}

#[test]
fn only_one_dot_is_stripped() {
    assert_eq!(compare_str("..a", ".a"), Ordering::Less);
    assert_eq!(compare_str(".a", "a"), Ordering::Equal);
}

#[test]
fn case_folding_is_ascii_only() {
    assert_eq!(compare_str("ABC", "abc"), Ordering::Equal);
    assert_eq!(compare_str("Zeta", "alpha"), Ordering::Greater);
    assert_eq!(compare_str("b", "A"), Ordering::Greater);
    // '_' (0x5f) lies between the upper and lower case letters.
    assert_eq!(compare_str("_", "a"), Ordering::Less);
    assert_eq!(compare_str("_", "A"), Ordering::Less);
}
