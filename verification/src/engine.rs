//! The regular-expression engine, and what this library takes on trust of it.
//!
//! Nothing in this file is proved. Each contract states what the `regex` crate
//! documents of the function that the body calls.

use vstd::prelude::*;
use regex::Regex;
use crate::glob::{glob_accepts, glob_source};

verus! {

/// `regex::Regex`, a compiled regular expression. Nothing inside it is seen
/// here.
#[verifier::external_type_specification]
#[verifier::external_body]
pub struct ExRegex(regex::Regex);

/// `regex::Error`, the engine's reason for refusing an expression. Nothing
/// inside it is seen here.
#[verifier::external_type_specification]
#[verifier::external_body]
pub struct ExRegexError(regex::Error);

/// Whether a compiled expression matches somewhere in `text`: what
/// `regex::Regex::is_match` returns for the two.
pub uninterp spec fn regex_matches(re: Regex, text: Seq<char>) -> bool;

/// Whether the compiled expression `re` decides the wildcard pattern `glob`:
/// it matches exactly the texts that the pattern accepts.
pub open spec fn decides(re: Regex, glob: Seq<char>) -> bool {
    forall|text: Seq<char>| #[trigger] regex_matches(re, text) == glob_accepts(glob, text)
}

/// Compiles `source` with `regex::Regex::new`, that is with none of the
/// engine's options changed.
///
/// Taken on trust: where `source` is the text written for a wildcard pattern,
/// an expression that compiled decides that pattern. That text is `(?s)^`,
/// then `.*` for each `*`, a backslash and the character for each character
/// that has a meaning of its own, any other character as it is, then `$`. To
/// the engine `^` and `$` are the two ends of the text, `.` under the flag `s`
/// is any character, `*` repeats it any number of times, an escaped character
/// and a plain one are themselves.
///
/// Nothing is claimed about which texts compile: besides the syntax, the engine
/// refuses an expression whose compiled form is larger than its size limit.
#[verifier::external_body]
pub(crate) fn compile(source: &str) -> (compiled: Result<Regex, regex::Error>)
    ensures
        compiled matches Ok(re) ==> forall|glob: Seq<char>| #[trigger]
            glob_source(glob) == source@ ==> decides(re, glob),
{
    Regex::new(source)
}

/// Searches `text` with `regex::Regex::is_match`.
///
/// Taken on trust: the answer is the engine's, and the same for the same
/// expression and text.
#[verifier::external_body]
pub(crate) fn is_match(re: &Regex, text: &str) -> (found: bool)
    ensures
        found == regex_matches(*re, text@),
{
    re.is_match(text)
}

} // verus!
