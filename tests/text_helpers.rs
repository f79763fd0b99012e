use dirlist::text::{contains_folded, contains_text, decimal_text, padded_left, signed_decimal_text, trimmed_end};

#[test]
fn decimal_rendering() {
    assert_eq!(decimal_text(0), "0");
    assert_eq!(decimal_text(10), "10");
    assert_eq!(decimal_text(u64::MAX), "18446744073709551615");
    assert_eq!(signed_decimal_text(i64::MIN), "-9223372036854775808");
    assert_eq!(signed_decimal_text(-5), "-5");
}

#[test]
fn substring_search() {
    assert!(contains_text("report.txt", "port"));
    assert!(contains_text("abc", ""));
    assert!(!contains_text("abc", "abcd"));
    assert!(!contains_text("Report", "report"));
}

#[test]
fn folded_substring_search() {
    assert!(contains_folded("README.md", "readme"));
    assert!(contains_folded("notes", "NOT"));
    assert!(!contains_folded("notes", "xyz"));
}

#[test]
fn trailing_separators_removed() {
    assert_eq!(trimmed_end("dir///", '/', '/'), "dir");
    assert_eq!(trimmed_end("a\\/", '/', '\\'), "a");
    assert_eq!(trimmed_end("/", '/', '/'), "");
    assert_eq!(trimmed_end("a/b", '/', '/'), "a/b");
}

#[test]
fn padding() {
    assert_eq!(padded_left("7", 4), "   7");
    assert_eq!(padded_left("12345", 4), "12345");
}
