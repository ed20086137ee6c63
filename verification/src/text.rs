//! Conversions between strings, characters and bytes.

use vstd::prelude::*;
use vstd::std_specs::iter::IteratorSpec;
use vstd::string::StrSliceExecFns;
use vstd::utf8::{decode_utf8, encode_utf8, valid_utf8};

verus! {

/// Why an input could not be cut.
#[derive(Debug, Clone, Copy, PartialEq, Eq)]
pub enum CutError {
    /// A line that must be text is not valid UTF-8.
    InvalidEncoding,
}

impl CutError {
    /// The message shown to the user.
    pub fn message(&self) -> (m: &'static str)
        ensures
            m@ == "Input was not valid UTF-8"@,
    {
        "Input was not valid UTF-8"
    }
}

/// `String::from_utf8` of the standard library: the bytes become a string
/// exactly when they are valid UTF-8, and the string then holds the
/// characters that the bytes encode.
#[verifier::external_body]
fn utf8_to_string(bytes: Vec<u8>) -> (r: Option<String>)
    ensures
        r is Some <==> valid_utf8(bytes@),
        r is Some ==> r->0@ == decode_utf8(bytes@),
{
    String::from_utf8(bytes).ok()
}

/// `String::push` of the standard library: appends one character.
#[verifier::external_body]
fn push_char(s: &mut String, c: char)
    ensures
        final(s)@ == old(s)@.push(c),
{
    s.push(c)
}

/// Decodes a line as UTF-8.
pub fn string_from_utf8(bytes: Vec<u8>) -> (r: Result<String, CutError>)
    ensures
        valid_utf8(bytes@) ==> r is Ok && r->Ok_0@ == decode_utf8(bytes@),
        !valid_utf8(bytes@) ==> r == Err::<String, CutError>(CutError::InvalidEncoding),
{
    match utf8_to_string(bytes) {
        Some(text) => Ok(text),
        None => Err(CutError::InvalidEncoding),
    }
}

/// The string that holds the given characters.
pub fn string_of(chars: &[char]) -> (text: String)
    ensures
        text@ == chars@,
{
    let mut text = String::new();
    let mut j: usize = 0;
    while j < chars.len()
        invariant
            j <= chars@.len(),
            text@ == chars@.subrange(0, j as int),
        decreases chars@.len() - j,
    {
        push_char(&mut text, chars[j]);
        assert(chars@.subrange(0, j + 1) =~= chars@.subrange(0, j as int).push(chars@[j as int]));
        j += 1;
    }
    assert(chars@.subrange(0, chars@.len() as int) =~= chars@);
    text
}

/// Encodes characters as UTF-8.
pub fn encode_chars(chars: &[char]) -> (bytes: Vec<u8>)
    ensures
        bytes@ == encode_utf8(chars@),
{
    string_of(chars).as_str().as_bytes_vec()
}

/// The characters of a string, in order.
pub fn chars_of(s: &str) -> (v: Vec<char>)
    ensures
        v@ == s@,
{
    broadcast use vstd::string::group_string_axioms;

    let mut it = s.chars();
    let mut v: Vec<char> = Vec::new();
    assert(v@ + it.remaining() =~= s@);
    loop
        invariant
            v@ + it.remaining() == s@,
            it.obeys_prophetic_iter_laws(),
            it.decrease() is Some,
        ensures
            v@ == s@,
        decreases it.decrease()->0,
    {
        let ghost before = it.remaining();
        let ghost scanned = v@;
        match it.next() {
            Some(c) => {
                v.push(c);
                assert(scanned.push(c) + before.drop_first() =~= scanned + before);
            },
            None => {
                assert(scanned + before =~= scanned);
                break ;
            },
        }
    }
    v
}

} // verus!
