//! Regular expressions and line searches, by the `grep` crate.
//!
//! A `CompiledRegex` can only be made by `compile_regex`, which records the
//! pattern it was compiled from.

use vstd::prelude::*;

verus! {

/// The compiled form of a regular expression, from the `grep` crate.
#[verifier::external_type_specification]
#[verifier::external_body]
pub struct ExRegexMatcher(grep::regex::RegexMatcher);

/// The error that `grep` reports for a pattern it cannot compile.
#[verifier::external_type_specification]
#[verifier::external_body]
pub struct ExRegexError(grep::regex::Error);

/// The error type of the sinks of a `grep` search.
#[verifier::external_type_specification]
#[verifier::external_body]
pub struct ExIoError(std::io::Error);

/// Whether `grep`'s default regex builder accepts `pattern`.
pub uninterp spec fn regex_compiles(pattern: Seq<char>) -> bool;

/// How many lines of `text` grep's default line searcher reports as matching
/// the regex compiled from `pattern`.
pub uninterp spec fn matching_lines(pattern: Seq<char>, text: Seq<char>) -> nat;

/// A regular expression compiled by `grep`, with the pattern it was compiled from.
pub struct CompiledRegex {
    regex: grep::regex::RegexMatcher,
    source: Ghost<Seq<char>>,
}

impl View for CompiledRegex {
    type V = Seq<char>;

    /// The pattern the regex was compiled from.
    closed spec fn view(&self) -> Seq<char> {
        self.source@
    }
}

/// Calls `grep::regex::RegexMatcher::new`, which builds a matcher with the
/// default configuration, and records `pattern` beside it. The contract
/// claims that it succeeds exactly on the patterns named valid by
/// `regex_compiles`, a function of the pattern, and that the empty pattern is
/// valid.
#[verifier::external_body]
pub fn compile_regex(pattern: &str) -> (r: Result<CompiledRegex, grep::regex::Error>)
    ensures
        r is Ok <==> regex_compiles(pattern@),
        pattern@.len() == 0 ==> r is Ok,
        r matches Ok(c) ==> c@ == pattern@,
{
    match grep::regex::RegexMatcher::new(pattern) {
        Ok(regex) => Ok(CompiledRegex { regex, source: Ghost(pattern@) }),
        Err(e) => Err(e),
    }
}

/// Counts one line reported by a search, and lets the search go on.
pub fn count_line(count: &mut usize) -> (r: Result<bool, std::io::Error>)
    ensures
        *final(count) == if *old(count) < usize::MAX {
            *old(count) + 1
        } else {
            *old(count) as int
        },
        r matches Ok(go_on) && go_on,
{
    if *count < usize::MAX {
        *count = *count + 1;
    }
    Ok(true)
}

/// Calls `grep::searcher::Searcher::search_slice`, on a searcher with the
/// default configuration (`Searcher::new`), with the regex and the bytes of
/// `text`, and a sink that counts the lines reported. The contract claims
/// that the count is `matching_lines` of the regex's pattern and the text;
/// that the search reports nothing in an empty text (it stops at once), and
/// at most one line in a text without a line break; and that the empty
/// pattern reports the one line of a non-empty text without a line break
/// that does not start with a byte order mark (which the searcher strips).
/// The search cannot fail: the text is valid UTF-8, the sink never fails,
/// and the default configuration passes the searcher's checks; the count
/// cannot reach `usize::MAX`, the lines of a text being fewer.
#[verifier::external_body]
pub fn count_matching_lines(regex: &CompiledRegex, text: &str) -> (n: usize)
    ensures
        n == matching_lines(regex@, text@),
        text@.len() == 0 ==> n == 0,
        !text@.contains('\n') ==> n <= 1,
        regex@.len() == 0 && text@.len() > 0 && !text@.contains('\n') && text@[0] != '\u{feff}'
            ==> n == 1,
{
    let mut count: usize = 0;
    grep::searcher::Searcher::new().search_slice(
        &regex.regex,
        text.as_bytes(),
        grep::searcher::sinks::UTF8(|_, _| count_line(&mut count)),
    ).unwrap();
    count
}

} // verus!
