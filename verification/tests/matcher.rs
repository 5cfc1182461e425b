use logfilter::matcher::{Matcher, PassthroughMatcher, PatternMatcher};
use logfilter::FilterError;

#[test]
fn passthrough_accepts_every_line() {
    assert!(PassthroughMatcher().matches(""));
    assert!(PassthroughMatcher().matches("anything at all"));
}

#[test]
fn pattern_accepts_lines_containing_a_match() {
    let m = PatternMatcher::new("line").unwrap();
    assert!(m.matches("a line here"));
    assert!(m.matches("line"));
    assert!(!m.matches("a word"));
    assert!(!m.matches(""));
}

#[test]
fn pattern_is_a_regular_expression() {
    let m = PatternMatcher::new("^err(or)? [0-9]+$").unwrap();
    assert!(m.matches("error 42"));
    assert!(m.matches("err 7"));
    assert!(!m.matches("an error 42"));
    assert!(!m.matches("error x"));
}

#[test]
fn invalid_pattern_is_refused() {
    assert!(matches!(PatternMatcher::new("("), Err(FilterError::InvalidPattern)));
    assert!(matches!(PatternMatcher::new("[a-"), Err(FilterError::InvalidPattern)));
}

#[test]
fn pattern_never_accepts_an_empty_line() {
    let m = PatternMatcher::new("^$").unwrap();
    assert!(!m.matches(""));
    let everything = PatternMatcher::new("").unwrap();
    assert!(!everything.matches(""));
    assert!(everything.matches("x"));
}

#[test]
fn pattern_is_searched_line_by_line() {
    let m = PatternMatcher::new("^b$").unwrap();
    assert!(m.matches("a\nb"));
    assert!(!m.matches("ab"));
    assert_eq!(m.matching_line_count("b\nb\nc"), 2);
    assert_eq!(m.matching_line_count(""), 0);
}
