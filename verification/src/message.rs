//! The messages that tell the user why a range list was rejected.

use crate::fields::append_units;
use crate::parse::{LexError, ParseRangesError, RangeFault, Token};
use crate::render::{decimal_digits, push_decimal};
use crate::text::{chars_of, string_of};
use vstd::prelude::*;

verus! {

/// A token as the user wrote it, numbers without leading zeros.
pub open spec fn token_text(t: Token) -> Seq<char> {
    match t {
        Token::Number(n) => decimal_digits(n as nat),
        Token::Hyphen => seq!['-'],
        Token::Comma => seq![','],
        Token::Blank(c) => seq![c],
    }
}

/// The tokens one after the other.
pub open spec fn tokens_text(ts: Seq<Token>) -> Seq<char>
    decreases ts.len(),
{
    if ts.len() == 0 {
        Seq::empty()
    } else {
        tokens_text(ts.drop_last()) + token_text(ts.last())
    }
}

/// The message for each reason to reject a range list.
pub open spec fn fault_message(fault: RangeFault) -> Seq<char> {
    match fault {
        RangeFault::NumberedFromZero => "Ranges are numbered from one."@,
        RangeFault::IndecipherableRange(tokens) => "Indecipherable range: \""@ + tokens_text(tokens)
            + "\""@,
        RangeFault::DescendingRange => "Ranges must be ascending."@,
        RangeFault::UnexpectedSeparator(t) => "Expected separator but found '"@ + token_text(t)
            + "'."@,
        RangeFault::LexError(LexError::UnrecognizedCharacter(c)) => "Unrecognized character '"@
            + seq![c] + "'."@,
        RangeFault::LexError(LexError::NumberTooLarge) => "Number is too large."@,
    }
}

/// Appends the characters of a string.
pub fn push_str(out: &mut Vec<char>, s: &str)
    ensures
        final(out)@ == old(out)@ + s@,
{
    let chars = chars_of(s);
    append_units(out, chars.as_slice(), 0, chars.len());
    assert(chars@.subrange(0, chars@.len() as int) =~= chars@);
}

/// Appends a token as the user wrote it.
pub fn push_token(out: &mut Vec<char>, t: &Token)
    ensures
        final(out)@ == old(out)@ + token_text(*t),
{
    let ghost before = out@;
    match t {
        Token::Number(n) => push_decimal(out, *n),
        Token::Hyphen => out.push('-'),
        Token::Comma => out.push(','),
        Token::Blank(c) => out.push(*c),
    }
    assert(out@ =~= before + token_text(*t));
}

impl Token {
    /// The token as the user wrote it.
    pub fn to_text(&self) -> (text: String)
        ensures
            text@ == token_text(*self),
    {
        let mut out: Vec<char> = Vec::new();
        push_token(&mut out, self);
        assert(Seq::<char>::empty() + token_text(*self) =~= token_text(*self));
        string_of(out.as_slice())
    }
}

impl ParseRangesError {
    /// The message that tells the user why the range list was rejected.
    pub fn message(&self) -> (text: String)
        ensures
            text@ == fault_message(self@),
    {
        let mut out: Vec<char> = Vec::new();
        match self {
            ParseRangesError::NumberedFromZero => {
                push_str(&mut out, "Ranges are numbered from one.");
            },
            ParseRangesError::IndecipherableRange(tokens) => {
                push_str(&mut out, "Indecipherable range: \"");
                let ghost head = out@;
                let mut k: usize = 0;
                assert(tokens@.subrange(0, 0) =~= Seq::<Token>::empty());
                assert(head + Seq::<char>::empty() =~= head);
                while k < tokens.len()
                    invariant
                        k <= tokens@.len(),
                        out@ == head + tokens_text(tokens@.subrange(0, k as int)),
                    decreases tokens@.len() - k,
                {
                    let ghost before = out@;
                    push_token(&mut out, &tokens[k]);
                    proof {
                        let next = tokens@.subrange(0, k + 1);
                        assert(next.drop_last() =~= tokens@.subrange(0, k as int));
                        assert(next.last() == tokens@[k as int]);
                        assert(out@ =~= head + tokens_text(next));
                    }
                    k += 1;
                }
                assert(tokens@.subrange(0, tokens@.len() as int) =~= tokens@);
                push_str(&mut out, "\"");
            },
            ParseRangesError::DescendingRange => {
                push_str(&mut out, "Ranges must be ascending.");
            },
            ParseRangesError::UnexpectedSeparator(t) => {
                push_str(&mut out, "Expected separator but found '");
                push_token(&mut out, t);
                push_str(&mut out, "'.");
            },
            ParseRangesError::LexError(LexError::UnrecognizedCharacter(c)) => {
                push_str(&mut out, "Unrecognized character '");
                out.push(*c);
                push_str(&mut out, "'.");
            },
            ParseRangesError::LexError(LexError::NumberTooLarge) => {
                push_str(&mut out, "Number is too large.");
            },
        }
        assert(out@ =~= fault_message(self@));
        string_of(out.as_slice())
    }
}

} // verus!
