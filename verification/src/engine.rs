//! The regular-expression engine, as far as the matcher needs it.
//!
//! The engine is the `regex` crate. Nothing in this file is proved: each
//! contract here says what that crate's documentation says, and the
//! verifier believes it as it stands.

use regex::{Regex, RegexSet};
use vstd::prelude::*;

verus! {

#[verifier::external_type_specification]
#[verifier::external_body]
pub struct ExRegex(regex::Regex);

#[verifier::external_type_specification]
#[verifier::external_body]
pub struct ExRegexSet(regex::RegexSet);

#[verifier::external_type_specification]
#[verifier::external_body]
pub struct ExRegexError(regex::Error);

/// Whether `regex::Regex::new` accepts `pattern`: the text is a valid
/// regular expression and what it compiles to is within the crate's default
/// size limit.
pub uninterp spec fn pattern_compiles(pattern: Seq<char>) -> bool;

/// Whether `regex::RegexSet::new` accepts `patterns` as one set: each text
/// is valid, and what they compile to together is within the default size
/// limit.
pub uninterp spec fn set_compiles(patterns: Seq<Seq<char>>) -> bool;

/// Where `regex::Regex::find` sees the match of `pattern` in `path` end:
/// the byte offset behind the leftmost match, for a regex that
/// `regex::Regex::new` made of `pattern`; `None` where `pattern` matches
/// nowhere in `path`.
pub uninterp spec fn match_end(pattern: Seq<char>, path: Seq<char>) -> Option<usize>;

/// The pattern text that `rx` holds, which `regex::Regex::as_str` returns.
pub uninterp spec fn regex_source(rx: Regex) -> Seq<char>;

/// The pattern texts that `set` holds, which `regex::RegexSet::patterns`
/// returns, in their order.
pub uninterp spec fn regex_set_patterns(set: RegexSet) -> Seq<Seq<char>>;

/// The texts of a sequence of strings.
pub open spec fn texts(strings: Seq<String>) -> Seq<Seq<char>> {
    Seq::new(strings.len(), |i: int| strings[i]@)
}

/// Whether `pattern` matches somewhere in `path`.
pub open spec fn pattern_matches(pattern: Seq<char>, path: Seq<char>) -> bool {
    match_end(pattern, path) is Some
}

/// Whether one of `patterns` matches somewhere in `path`.
pub open spec fn any_matches(patterns: Seq<Seq<char>>, path: Seq<char>) -> bool {
    exists|i: int| 0 <= i < patterns.len() && pattern_matches(#[trigger] patterns[i], path)
}

/// Calls `regex::Regex::new`, which compiles `pattern` with the crate's
/// default options.
///
/// Believed: whether it succeeds is a matter of the pattern text alone, and
/// the regex that comes back holds that text.
#[verifier::external_body]
pub(crate) fn compile(pattern: &str) -> (r: Result<Regex, regex::Error>)
    ensures
        r is Ok == pattern_compiles(pattern@),
        r matches Ok(rx) ==> regex_source(rx) == pattern@,
{
    Regex::new(pattern)
}

/// Calls `regex::RegexSet::new`, which compiles `patterns` into one set with
/// the crate's default options.
///
/// Believed: whether it succeeds is a matter of the pattern texts alone, and
/// the set that comes back holds those texts in their order.
#[verifier::external_body]
pub(crate) fn compile_set(patterns: &Vec<String>) -> (r: Result<RegexSet, regex::Error>)
    ensures
        r is Ok == set_compiles(texts(patterns@)),
        r matches Ok(set) ==> regex_set_patterns(set) == texts(patterns@),
{
    RegexSet::new(patterns)
}

/// Calls `regex::Regex::find`, an unanchored search from the start of
/// `path`, and keeps the offset at which the match ends.
///
/// Believed: the result is a matter of the regex's pattern text and of
/// `path` alone. That holds of a regex compiled with the default options,
/// as `compile` does; this crate holds no other.
#[verifier::external_body]
pub(crate) fn find_end(rx: &Regex, path: &str) -> (r: Option<usize>)
    ensures
        r == match_end(regex_source(*rx), path@),
{
    rx.find(path).map(|m| m.end())
}

/// Calls `regex::RegexSet::is_match`.
///
/// Believed: the set matches if and only if one of its patterns, searched
/// by itself, matches somewhere in `path`. That holds of a set compiled with
/// the default options, as `compile_set` does; this crate holds no other.
#[verifier::external_body]
pub(crate) fn set_is_match(set: &RegexSet, path: &str) -> (r: bool)
    ensures
        r == any_matches(regex_set_patterns(*set), path@),
{
    set.is_match(path)
}

} // verus!
