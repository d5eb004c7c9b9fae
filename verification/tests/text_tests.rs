use bes::text::{chars_of, contains, matches_at, starts_with, string_of};

#[test]
fn chars_and_strings_convert_both_ways() {
    assert_eq!(chars_of("a\u{e9}\u{20ac}"), vec!['a', '\u{e9}', '\u{20ac}']);
    assert_eq!(string_of(&vec!['a', '\u{e9}', '\u{20ac}']), "a\u{e9}\u{20ac}");
    assert_eq!(chars_of(""), Vec::<char>::new());
    assert_eq!(string_of(&vec![]), "");
}

#[test]
fn starts_with_compares_the_beginning() {
    assert!(starts_with("text/plain; charset=utf-8", "text/plain"));
    assert!(starts_with("text/plain", "text/plain"));
    assert!(starts_with("abc", ""));
    assert!(!starts_with("text/plai", "text/plain"));
    assert!(!starts_with(" text/plain", "text/plain"));
    assert!(!starts_with("Text/plain", "text/plain"));
    assert!(!starts_with("", "a"));
}

#[test]
fn contains_finds_a_substring_anywhere() {
    assert!(contains("quarterly report", "report"));
    assert!(contains("quarterly report", "quarter"));
    assert!(contains("quarterly report", "ly re"));
    assert!(contains("abc", ""));
    assert!(contains("", ""));
    assert!(!contains("", "a"));
    assert!(!contains("abc", "abcd"));
    assert!(!contains("aab", "abb"));
    assert!(contains("aaab", "aab"));
    assert!(!contains("Report", "report"));
    assert!(contains("caf\u{e9} au lait", "\u{e9} au"));
}

#[test]
fn matches_at_checks_one_position() {
    let hay = chars_of("hello");
    assert!(matches_at(&hay, &chars_of("ell"), 1));
    assert!(!matches_at(&hay, &chars_of("ell"), 0));
    assert!(matches_at(&hay, &chars_of(""), 5));
    assert!(!matches_at(&hay, &chars_of(""), 6));
    assert!(!matches_at(&hay, &chars_of("lo!"), 3));
    assert!(!matches_at(&hay, &chars_of("o"), usize::MAX));
}
