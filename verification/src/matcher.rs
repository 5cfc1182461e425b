//! Deciding which lines a document keeps.

use vstd::prelude::*;

pub mod search;

use crate::FilterError;

use self::search::{compile_regex, count_matching_lines, matching_lines, regex_compiles, CompiledRegex};

verus! {

/// Decides, line by line, whether a line belongs to a document.
pub trait Matcher {
    /// Whether `line` is accepted.
    spec fn accepts(&self, line: Seq<char>) -> bool;

    /// Tells whether `line` is accepted.
    fn matches(&self, line: &str) -> (r: bool)
        ensures
            r == self.accepts(line@),
    ;
}

/// Accepts the lines that grep's line search, with a regular expression,
/// reports as matching (a text with no line, such as the empty line, never).
pub struct PatternMatcher {
    regex: CompiledRegex,
}

impl View for PatternMatcher {
    type V = Seq<char>;

    /// The pattern the matcher was compiled from.
    closed spec fn view(&self) -> Seq<char> {
        self.regex@
    }
}

impl PatternMatcher {
    /// Compiles `pattern`; fails when it is not a valid regular expression.
    pub fn new(pattern: &str) -> (r: Result<Self, FilterError>)
        ensures
            r is Ok <==> regex_compiles(pattern@),
            pattern@.len() == 0 ==> r is Ok,
            r matches Ok(m) ==> m@ == pattern@,
            r matches Err(e) ==> e == FilterError::InvalidPattern,
    {
        match compile_regex(pattern) {
            Ok(regex) => Ok(Self { regex }),
            Err(_) => Err(FilterError::InvalidPattern),
        }
    }

    /// How many lines of `text` the search reports as matching.
    pub fn matching_line_count(&self, text: &str) -> (n: usize)
        ensures
            n == matching_lines(self@, text@),
            text@.len() == 0 ==> n == 0,
            !text@.contains('\n') ==> n <= 1,
            self@.len() == 0 && text@.len() > 0 && !text@.contains('\n') && text@[0] != '\u{feff}'
                ==> n == 1,
    {
        count_matching_lines(&self.regex, text)
    }
}

impl Matcher for PatternMatcher {
    /// A line is accepted when the search reports a matching line in it.
    open spec fn accepts(&self, line: Seq<char>) -> bool {
        matching_lines(self@, line) > 0
    }

    /// An empty line is never accepted, and the empty pattern accepts every
    /// other line that holds no line break and does not start with a byte
    /// order mark.
    fn matches(&self, line: &str) -> (r: bool)
        ensures
            line@.len() == 0 ==> !r,
            self@.len() == 0 && line@.len() > 0 && !line@.contains('\n') && line@[0] != '\u{feff}'
                ==> r,
    {
        self.matching_line_count(line) > 0
    }
}

/// Accepts every line.
pub struct PassthroughMatcher();

impl Matcher for PassthroughMatcher {
    open spec fn accepts(&self, line: Seq<char>) -> bool {
        true
    }

    fn matches(&self, _line: &str) -> (r: bool) {
        true
    }
}

} // verus!
