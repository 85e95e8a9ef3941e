//! Regular expressions on lines: which lines of a source a pattern matches.

use vstd::prelude::*;
use vstd::utf8::{decode_utf8, valid_utf8};
use regex::Regex;
use crate::output::byte_views;

verus! {

/// A compiled regular expression of the `regex` crate.
#[verifier::external_type_specification]
#[verifier::external_body]
pub struct ExRegex(regex::Regex);

/// The reason for which the `regex` crate refuses a pattern.
#[verifier::external_type_specification]
#[verifier::external_body]
pub struct ExRegexError(regex::Error);

/// What `Regex::new` makes of a pattern: the compiled expression, or nothing
/// where it refuses the pattern.
pub uninterp spec fn compiled(pattern: Seq<char>) -> Option<Regex>;

/// Whether `Regex::is_match` finds a match of the expression anywhere in the
/// text.
pub uninterp spec fn matches_text(expression: Regex, text: Seq<char>) -> bool;

/// `Regex::new` compiles a pattern. Whether it accepts the pattern, and the
/// expression that it returns, depend on the pattern alone.
pub assume_specification[ Regex::new ](re: &str) -> (result: Result<Regex, regex::Error>)
    ensures
        match result {
            Ok(expression) => compiled(re@) == Some(expression),
            Err(_) => compiled(re@) is None,
        },
;

/// `Regex::is_match` says whether the expression matches anywhere in the
/// haystack, which depends on the expression and the haystack alone.
pub assume_specification[ Regex::is_match ](expression: &Regex, haystack: &str) -> (found: bool)
    ensures
        found == matches_text(*expression, haystack@),
;

/// `std::str::from_utf8` reads bytes as text: it succeeds exactly on valid
/// UTF-8, and the text then holds the characters that the bytes encode.
#[verifier::external_body]
fn as_text<'a>(bytes: &'a [u8]) -> (text: Option<&'a str>)
    ensures
        text is Some <==> valid_utf8(bytes@),
        text is Some ==> text->0@ == decode_utf8(bytes@),
{
    std::str::from_utf8(bytes).ok()
}

/// Whether the expression matches the line. A line that is not valid UTF-8
/// is no text, and nothing matches it.
pub open spec fn line_matches(expression: Regex, line: Seq<u8>) -> bool {
    valid_utf8(line) && matches_text(expression, decode_utf8(line))
}

/// For each line, whether the expression matches it.
pub open spec fn match_flags(expression: Regex, lines: Seq<Seq<u8>>) -> Seq<bool> {
    Seq::new(lines.len(), |i: int| line_matches(expression, lines[i]))
}

/// Says of each line whether the expression matches it.
pub(crate) fn matching_lines(expression: &Regex, lines: &Vec<Vec<u8>>) -> (flags: Vec<bool>)
    ensures
        flags@ == match_flags(*expression, byte_views(lines@)),
{
    let mut flags: Vec<bool> = Vec::new();
    let mut i: usize = 0;
    while i < lines.len()
        invariant
            i <= lines@.len(),
            flags@ =~= match_flags(*expression, byte_views(lines@)).take(i as int),
        decreases lines@.len() - i,
    {
        let found = match as_text(lines[i].as_slice()) {
            Some(text) => expression.is_match(text),
            None => false,
        };
        flags.push(found);
        i += 1;
    }
    assert(flags@ =~= match_flags(*expression, byte_views(lines@)));
    flags
}

} // verus!
