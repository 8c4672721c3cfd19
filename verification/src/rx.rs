//! The pattern matcher: whether a given line matches a given
//! regular-expression text. Compilation and matching are done by the regex
//! crate; what it computes is named, not restated, since both depend on the
//! pattern bytes and the line bytes alone.

use vstd::prelude::*;

verus! {

/// Whether the pattern text is a well-formed regular expression (UTF-8 and
/// accepted by the regex compiler).
pub uninterp spec fn regex_valid(pat: Seq<u8>) -> bool;

/// Whether a line's text matches the regular expression `pat`.
pub uninterp spec fn regex_matches(pat: Seq<u8>, line: Seq<u8>) -> bool;

/// Relies on regex::bytes::Regex::new: whether a pattern text compiles is a
/// function of the pattern bytes alone; a non-UTF-8 pattern never compiles.
#[verifier::external_body]
pub(crate) fn regex_compiles(pat: &[u8]) -> (r: bool)
    ensures
        r == regex_valid(pat@),
{
    match core::str::from_utf8(pat) {
        Ok(s) => regex::bytes::Regex::new(s).is_ok(),
        Err(_) => false,
    }
}

/// Relies on regex::bytes::Regex::new and regex::bytes::Regex::is_match:
/// whether a haystack matches is a function of the compiled pattern's bytes
/// and the haystack bytes alone.
#[verifier::external_body]
pub(crate) fn regex_is_match(pat: &[u8], line: &[u8]) -> (r: bool)
    requires
        regex_valid(pat@),
    ensures
        r == regex_matches(pat@, line@),
{
    let s = core::str::from_utf8(pat).unwrap();
    regex::bytes::Regex::new(s).unwrap().is_match(line)
}

} // verus!
