//! Regular expressions, which the `regex` crate compiles and runs. Nothing
//! in this file is proved: it states what this library assumes of that
//! crate.

use vstd::prelude::*;

verus! {

/// A compiled regular expression of the `regex` crate. Nothing inside it
/// is visible here.
#[verifier::external_type_specification]
#[verifier::external_body]
pub struct ExRegex(regex::Regex);

/// The error of the `regex` crate for a pattern that it does not compile.
#[verifier::external_type_specification]
#[verifier::external_body]
pub struct ExRegexError(regex::Error);

/// What `regex::RegexBuilder::build` makes of a pattern and a choice of
/// case-insensitivity, with multi-line mode, verbose syntax and Unicode
/// switched on: the compiled expression, or nothing for a pattern that the
/// crate rejects.
pub uninterp spec fn compiled(pattern: Seq<char>, case_insensitive: bool) -> Option<regex::Regex>;

/// Whether `regex::Regex::is_match` finds a match of the expression
/// anywhere in the text.
pub uninterp spec fn finds_match(regex: regex::Regex, text: Seq<char>) -> bool;

/// Calls `regex::RegexBuilder::build` on `pattern` with the given
/// case-insensitivity and with multi-line mode, verbose syntax and Unicode
/// switched on. The claim: what comes back is a function of the pattern and
/// the flag alone, so the same two arguments always give the same answer.
#[verifier::external_body]
pub(crate) fn build_regex(pattern: &str, case_insensitive: bool) -> (r: Result<
    regex::Regex,
    regex::Error,
>)
    ensures
        match r {
            Ok(regex) => compiled(pattern@, case_insensitive) == Some(regex),
            Err(_) => compiled(pattern@, case_insensitive) is None,
        },
{
    regex::RegexBuilder::new(pattern)
        .case_insensitive(case_insensitive)
        .multi_line(true)
        .ignore_whitespace(true)
        .unicode(true)
        .build()
}

/// Calls `regex::Regex::is_match`. The claim: whether a match is found
/// depends on the expression and the text alone.
#[verifier::external_body]
pub(crate) fn regex_is_match(regex: &regex::Regex, text: &str) -> (b: bool)
    ensures
        b == finds_match(*regex, text@),
{
    regex.is_match(text)
}

/// Calls `regex::Regex::clone`. The claim: the copy is the same expression.
#[verifier::external_body]
pub(crate) fn clone_regex(regex: &regex::Regex) -> (r: regex::Regex)
    ensures
        r == *regex,
{
    regex.clone()
}

/// The message of an error of the `regex` crate, as its `Display` writes
/// it. Nothing is claimed of the text.
#[verifier::external_body]
pub(crate) fn regex_error_message(error: &regex::Error) -> String {
    format!("{}", error)
}

} // verus!
