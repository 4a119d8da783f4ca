//! Trusted boundary around the regex crate: compiling a pattern and
//! testing a string against it.
//!
//! Which patterns compile, and which texts a pattern matches, are fixed
//! functions of the characters involved; both are named here and never
//! written out.

use vstd::prelude::*;

verus! {

#[verifier::external_type_specification]
#[verifier::external_body]
pub struct ExRegex(regex::Regex);

/// Whether `pattern` is a valid regular expression, the ones
/// `regex::Regex::new` accepts.
pub uninterp spec fn re_valid(pattern: Seq<char>) -> bool;

/// The pattern a compiled `regex::Regex` holds, the one
/// `regex::Regex::as_str` returns.
pub uninterp spec fn re_source(r: regex::Regex) -> Seq<char>;

/// Whether `pattern` matches anywhere in `text`, as
/// `regex::Regex::is_match` decides it.
pub uninterp spec fn re_match(pattern: Seq<char>, text: Seq<char>) -> bool;

/// Relies on regex::Regex::new: compilation succeeds exactly on valid
/// patterns, and the compiled value holds the pattern it was built from.
#[verifier::external_body]
pub(crate) fn re_compile(pattern: &str) -> (r: Option<regex::Regex>)
    ensures
        r is Some <==> re_valid(pattern@),
        r is Some ==> re_source(r->0) == pattern@,
{
    regex::Regex::new(pattern).ok()
}

/// Relies on regex::Regex::is_match: true exactly when the compiled
/// pattern matches somewhere in `text`; the answer depends on the pattern
/// and the text alone.
#[verifier::external_body]
pub(crate) fn re_is_match(r: &regex::Regex, text: &str) -> (b: bool)
    ensures
        b == re_match(re_source(*r), text@),
{
    r.is_match(text)
}

} // verus!
