use dawn_checker::credentials::parse_credentials;
use dawn_checker::text::{contains_text, is_blank};

#[test]
fn paragraphs_when_an_empty_line_occurs() {
    assert_eq!(parse_credentials("a\nb\n\n\nc\n\n  \n\nd"), vec!["ab", "c", "d"]);
}

#[test]
fn lines_otherwise() {
    assert_eq!(parse_credentials("x\r\ny\n \nz\n"), vec!["x", "y", "z"]);
    assert!(parse_credentials("").is_empty());
}

#[test]
fn blank_and_contains() {
    assert!(is_blank(" \t\u{3000}"));
    assert!(!is_blank(" x "));
    assert!(contains_text("abc User is moderated", "User is moderated"));
    assert!(!contains_text("User is moderate", "User is moderated"));
}
