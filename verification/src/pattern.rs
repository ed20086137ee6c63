//! Regular expressions as field delimiters.

use crate::fields::spans_ordered;
use regex::Regex;
use vstd::prelude::*;
use vstd::string::StringSliceAdditionalSpecFns;

verus! {

/// `Regex` of the `regex` crate: a compiled regular expression. The proofs
/// see nothing inside it; they only carry it to the functions below.
#[verifier::external_type_specification]
#[verifier::external_body]
pub struct ExRegex(regex::Regex);

/// The matches of a regular expression in a text: for each of the successive
/// non-overlapping matches, the byte offsets at which it begins and ends.
pub uninterp spec fn delimiter_matches(delimiter: Regex, text: Seq<char>) -> Seq<(usize, usize)>;

/// `Regex::find_iter` of the `regex` crate, with `Match::start` and
/// `Match::end` of each match: the result is that of `delimiter_matches`.
/// Each match lies within the bytes of the text, ends no earlier than it
/// begins, and begins no earlier than the match before it ends.
#[verifier::external_body]
pub(crate) fn find_delimiters(delimiter: &Regex, text: &str) -> (spans: Vec<(usize, usize)>)
    ensures
        spans@ == delimiter_matches(*delimiter, text@),
        spans_ordered(spans@, text.spec_bytes().len() as int),
{
    delimiter.find_iter(text).map(|m| (m.start(), m.end())).collect()
}

/// The regular expression that a pattern compiles to, if it is one.
pub uninterp spec fn compiled_pattern(pattern: Seq<char>) -> Option<Regex>;

/// `Regex::new` of the `regex` crate: compiles a pattern, if it is one. The
/// result is that of `compiled_pattern`.
#[verifier::external_body]
pub(crate) fn compile_pattern(pattern: &str) -> (r: Option<Regex>)
    ensures
        r == compiled_pattern(pattern@),
{
    Regex::new(pattern).ok()
}

} // verus!
