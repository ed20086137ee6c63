//! The textual range list: lexing into tokens and parsing into ranges.

use crate::range::{
    below_max, cut_covers, cut_wf, cut_writable, writable, CutRange, IncreasingRange, Ranges,
};
use crate::text::chars_of;
use vstd::prelude::*;

verus! {

/// A lexical unit of a range list.
#[derive(Debug, Clone, Copy, PartialEq, Eq)]
pub enum Token {
    Number(usize),
    Hyphen,
    Comma,
    Blank(char),
}

/// Why a range list could not be split into tokens.
#[derive(Debug, Clone, Copy, PartialEq, Eq)]
pub enum LexError {
    /// A character that is no digit, hyphen, comma, space or tab.
    UnrecognizedCharacter(char),
    /// A number that exceeds the largest position the machine can hold.
    NumberTooLarge,
}

/// Why a range list was rejected.
#[derive(Debug, Clone, PartialEq, Eq)]
pub enum ParseRangesError {
    NumberedFromZero,
    IndecipherableRange(Vec<Token>),
    DescendingRange,
    UnexpectedSeparator(Token),
    LexError(LexError),
}

/// The mathematical value of a `ParseRangesError`.
pub enum RangeFault {
    NumberedFromZero,
    IndecipherableRange(Seq<Token>),
    DescendingRange,
    UnexpectedSeparator(Token),
    LexError(LexError),
}

impl View for ParseRangesError {
    type V = RangeFault;

    open spec fn view(&self) -> RangeFault {
        match self {
            ParseRangesError::NumberedFromZero => RangeFault::NumberedFromZero,
            ParseRangesError::IndecipherableRange(tokens) => RangeFault::IndecipherableRange(
                tokens@,
            ),
            ParseRangesError::DescendingRange => RangeFault::DescendingRange,
            ParseRangesError::UnexpectedSeparator(t) => RangeFault::UnexpectedSeparator(*t),
            ParseRangesError::LexError(e) => RangeFault::LexError(*e),
        }
    }
}

/// `c` is one of the decimal digits `0` to `9`.
pub open spec fn is_digit(c: char) -> bool {
    '0' <= c <= '9'
}

/// The value of a decimal digit.
pub open spec fn digit_value(c: char) -> int {
    c as int - '0' as int
}

/// The number of digits at the front of `s`.
pub open spec fn digit_run(s: Seq<char>) -> nat
    decreases s.len(),
{
    if s.len() > 0 && is_digit(s[0]) {
        1 + digit_run(s.drop_first())
    } else {
        0
    }
}

/// The number that the digits of `s` denote in base ten.
pub open spec fn decimal_value(s: Seq<char>) -> int
    decreases s.len(),
{
    if s.len() == 0 {
        0
    } else {
        decimal_value(s.drop_last()) * 10 + digit_value(s.last())
    }
}

/// Puts one more item in front of a successful result.
pub open spec fn prepend<A, E>(first: A, rest: Result<Seq<A>, E>) -> Result<Seq<A>, E> {
    match rest {
        Ok(items) => Ok(seq![first] + items),
        Err(e) => Err(e),
    }
}

/// The tokens of a range list: each hyphen, comma, space and tab is a token
/// of its own, each maximal run of digits is one number, and anything else
/// is an error, as is a number too large for the machine. The leftmost error
/// is the one reported.
pub open spec fn scan_spec(s: Seq<char>) -> Result<Seq<Token>, LexError>
    decreases s.len(),
    via scan_spec_terminates
{
    if s.len() == 0 {
        Ok(Seq::empty())
    } else if s[0] == '-' {
        prepend(Token::Hyphen, scan_spec(s.drop_first()))
    } else if s[0] == ',' {
        prepend(Token::Comma, scan_spec(s.drop_first()))
    } else if s[0] == ' ' || s[0] == '\t' {
        prepend(Token::Blank(s[0]), scan_spec(s.drop_first()))
    } else if is_digit(s[0]) {
        let k = digit_run(s) as int;
        let value = decimal_value(s.subrange(0, k));
        if value > usize::MAX {
            Err(LexError::NumberTooLarge)
        } else {
            prepend(Token::Number(value as usize), scan_spec(s.subrange(k, s.len() as int)))
        }
    } else {
        Err(LexError::UnrecognizedCharacter(s[0]))
    }
}

#[via_fn]
proof fn scan_spec_terminates(s: Seq<char>) {
    lemma_digit_run_bounds(s);
}

/// A run of digits is no longer than the sequence, and not empty where the
/// sequence starts with a digit.
pub proof fn lemma_digit_run_bounds(s: Seq<char>)
    ensures
        digit_run(s) <= s.len(),
        s.len() > 0 && is_digit(s[0]) ==> digit_run(s) >= 1,
    decreases s.len(),
{
    if s.len() > 0 && is_digit(s[0]) {
        lemma_digit_run_bounds(s.drop_first());
    }
}

/// A token that belongs to a range: a number or a hyphen.
pub open spec fn in_range_group(t: Token) -> bool {
    t is Number || t is Hyphen
}

/// The number of range tokens at the front of `ts`.
pub open spec fn group_len(ts: Seq<Token>) -> nat
    decreases ts.len(),
{
    if ts.len() > 0 && in_range_group(ts[0]) {
        1 + group_len(ts.drop_first())
    } else {
        0
    }
}

/// The range that one group of tokens denotes: `N`, `-M`, `N-` or `N-M`,
/// numbered from one and ascending.
pub open spec fn range_of_group(g: Seq<Token>) -> Result<CutRange, RangeFault> {
    if g.len() == 1 && g[0] is Number {
        let n = g[0]->Number_0;
        if n == 0 {
            Err(RangeFault::NumberedFromZero)
        } else {
            Ok(CutRange::Unit((n - 1) as usize))
        }
    } else if g.len() == 2 && g[0] is Hyphen && g[1] is Number {
        let end = g[1]->Number_0;
        if end == 0 {
            Err(RangeFault::NumberedFromZero)
        } else {
            Ok(CutRange::FromStart((end - 1) as usize))
        }
    } else if g.len() == 2 && g[0] is Number && g[1] is Hyphen {
        let start = g[0]->Number_0;
        if start == 0 {
            Err(RangeFault::NumberedFromZero)
        } else {
            Ok(CutRange::ToEnd((start - 1) as usize))
        }
    } else if g.len() == 3 && g[0] is Number && g[1] is Hyphen && g[2] is Number {
        let start = g[0]->Number_0;
        let end = g[2]->Number_0;
        if start == 0 || end == 0 {
            Err(RangeFault::NumberedFromZero)
        } else if start <= end {
            Ok(
                CutRange::Closed(
                    IncreasingRange { start: (start - 1) as usize, end: (end - 1) as usize },
                ),
            )
        } else {
            Err(RangeFault::DescendingRange)
        }
    } else {
        Err(RangeFault::IndecipherableRange(g))
    }
}

/// The ranges that a token sequence denotes: groups of range tokens, each
/// followed by exactly one separator or by the end of the sequence. The
/// leftmost faulty group is the one reported.
pub open spec fn parse_tokens_spec(ts: Seq<Token>) -> Result<Seq<CutRange>, RangeFault>
    decreases ts.len(),
{
    let k = group_len(ts) as int;
    match range_of_group(ts.subrange(0, k)) {
        Err(fault) => Err(fault),
        Ok(range) => if k >= ts.len() {
            Ok(seq![range])
        } else {
            prepend(range, parse_tokens_spec(ts.subrange(k + 1, ts.len() as int)))
        },
    }
}

/// The ranges that a range list denotes, before merging.
pub open spec fn parse_spec(s: Seq<char>) -> Result<Seq<CutRange>, RangeFault> {
    match scan_spec(s) {
        Err(e) => Err(RangeFault::LexError(e)),
        Ok(tokens) => parse_tokens_spec(tokens),
    }
}

/// One group of tokens is never rejected for its separator.
pub proof fn lemma_group_fault(g: Seq<Token>)
    ensures
        !(range_of_group(g) matches Err(RangeFault::UnexpectedSeparator(_))),
        !(range_of_group(g) matches Err(RangeFault::LexError(_))),
{
}

/// No token sequence is rejected for an unexpected separator: behind a
/// group of range tokens stands a separator or nothing, so the only faults
/// of a token sequence are those of its groups.
pub proof fn lemma_no_unexpected_separator(ts: Seq<Token>)
    ensures
        !(parse_tokens_spec(ts) matches Err(RangeFault::UnexpectedSeparator(_))),
        !(parse_tokens_spec(ts) matches Err(RangeFault::LexError(_))),
    decreases ts.len(),
{
    let k = group_len(ts) as int;
    lemma_group_fault(ts.subrange(0, k));
    if range_of_group(ts.subrange(0, k)) is Ok && k < ts.len() {
        lemma_no_unexpected_separator(ts.subrange(k + 1, ts.len() as int));
    }
}

/// Whether a result of the parser is what the grammar prescribes.
pub open spec fn parsed_as(
    r: Result<Ranges, ParseRangesError>,
    expected: Result<Seq<CutRange>, RangeFault>,
) -> bool {
    match expected {
        Err(fault) => r is Err && r->Err_0@ == fault,
        Ok(cut_ranges) => {
            &&& r is Ok
            &&& r->Ok_0.wf()
            &&& writable(r->Ok_0@)
            &&& below_max(r->Ok_0@)
            &&& forall|i: int|
                #![trigger r->Ok_0.contains(i)]
                #![trigger cut_covers(cut_ranges, i)]
                r->Ok_0.contains(i) <==> cut_covers(cut_ranges, i)
        },
    }
}

/// Reads the number that starts at `start`, up to the first character that
/// is no digit. Returns the position behind the number, and its value unless
/// that exceeds `usize::MAX`.
pub fn scan_number(chars: &[char], start: usize) -> (r: (Option<usize>, usize))
    requires
        start < chars@.len(),
        is_digit(chars@[start as int]),
    ensures
        r.1 == start + digit_run(chars@.skip(start as int)),
        start < r.1 <= chars@.len(),
        decimal_value(chars@.subrange(start as int, r.1 as int)) <= usize::MAX ==> r.0 == Some(
            decimal_value(chars@.subrange(start as int, r.1 as int)) as usize,
        ),
        decimal_value(chars@.subrange(start as int, r.1 as int)) > usize::MAX ==> r.0 is None,
{
    let mut value: usize = 0;
    let mut overflow = false;
    let mut j: usize = start;
    proof {
        lemma_digit_run_bounds(chars@.skip(start as int));
        assert(chars@.subrange(start as int, start as int) =~= Seq::<char>::empty());
    }
    while j < chars.len() && '0' <= chars[j] && chars[j] <= '9'
        invariant
            start <= j <= chars@.len(),
            digit_run(chars@.skip(start as int)) == (j - start) + digit_run(chars@.skip(j as int)),
            0 <= decimal_value(chars@.subrange(start as int, j as int)),
            !overflow ==> value == decimal_value(chars@.subrange(start as int, j as int)),
            overflow ==> decimal_value(chars@.subrange(start as int, j as int)) > usize::MAX,
        decreases chars@.len() - j,
    {
        let digit: usize = (chars[j] as u32 - '0' as u32) as usize;
        proof {
            let run = chars@.subrange(start as int, j + 1);
            assert(run.drop_last() =~= chars@.subrange(start as int, j as int));
            assert(run.last() == chars@[j as int]);
            assert(digit == digit_value(chars@[j as int]));
            assert(chars@.skip(j as int).drop_first() =~= chars@.skip(j + 1));
            assert(chars@.skip(j as int)[0] == chars@[j as int]);
        }
        if !overflow {
            if value > (usize::MAX - digit) / 10 {
                overflow = true;
            } else {
                value = value * 10 + digit;
            }
        }
        j += 1;
    }
    proof {
        if j < chars@.len() {
            assert(chars@.skip(j as int)[0] == chars@[j as int]);
        }
    }
    if overflow {
        (None, j)
    } else {
        (Some(value), j)
    }
}

/// Splits a range list into tokens.
pub fn scan(s: &str) -> (r: Result<Vec<Token>, LexError>)
    ensures
        match scan_spec(s@) {
            Ok(tokens) => r is Ok && r->Ok_0@ == tokens,
            Err(e) => r == Err::<Vec<Token>, LexError>(e),
        },
{
    let chars = chars_of(s);
    scan_chars(&chars)
}

/// The tokens scanned so far, followed by those of the rest.
pub open spec fn scanned_then(
    done: Seq<Token>,
    rest: Result<Seq<Token>, LexError>,
) -> Result<Seq<Token>, LexError> {
    match rest {
        Ok(tokens) => Ok(done + tokens),
        Err(e) => Err(e),
    }
}

/// Splits the characters of a range list into tokens.
pub fn scan_chars(chars: &[char]) -> (r: Result<Vec<Token>, LexError>)
    ensures
        match scan_spec(chars@) {
            Ok(tokens) => r is Ok && r->Ok_0@ == tokens,
            Err(e) => r == Err::<Vec<Token>, LexError>(e),
        },
{
    let mut tokens: Vec<Token> = Vec::new();
    let mut i: usize = 0;
    assert(chars@.skip(0) =~= chars@);
    assert(scanned_then(tokens@, scan_spec(chars@)) == scan_spec(chars@)) by {
        match scan_spec(chars@) {
            Ok(ts) => {
                assert(tokens@ + ts =~= ts);
            },
            Err(_) => {},
        }
    }
    while i < chars.len()
        invariant
            i <= chars@.len(),
            scan_spec(chars@) == scanned_then(tokens@, scan_spec(chars@.skip(i as int))),
        decreases chars@.len() - i,
    {
        let ch = chars[i];
        let ghost rest = chars@.skip(i as int);
        let ghost before = tokens@;
        proof {
            assert(rest[0] == ch);
            assert(rest.drop_first() =~= chars@.skip(i + 1));
        }
        if ch == '-' {
            tokens.push(Token::Hyphen);
            proof {
                lemma_scanned_step(before, Token::Hyphen, scan_spec(chars@.skip(i + 1)));
            }
            i += 1;
        } else if ch == ',' {
            tokens.push(Token::Comma);
            proof {
                lemma_scanned_step(before, Token::Comma, scan_spec(chars@.skip(i + 1)));
            }
            i += 1;
        } else if ch == ' ' || ch == '\t' {
            tokens.push(Token::Blank(ch));
            proof {
                lemma_scanned_step(before, Token::Blank(ch), scan_spec(chars@.skip(i + 1)));
            }
            i += 1;
        } else if '0' <= ch && ch <= '9' {
            let (value, next) = scan_number(chars, i);
            proof {
                let k = digit_run(rest) as int;
                assert(rest.subrange(0, k) =~= chars@.subrange(i as int, next as int));
                assert(rest.subrange(k, rest.len() as int) =~= chars@.skip(next as int));
            }
            match value {
                Some(n) => {
                    tokens.push(Token::Number(n));
                    proof {
                        lemma_scanned_step(
                            before,
                            Token::Number(n),
                            scan_spec(chars@.skip(next as int)),
                        );
                    }
                    i = next;
                },
                None => {
                    return Err(LexError::NumberTooLarge);
                },
            }
        } else {
            return Err(LexError::UnrecognizedCharacter(ch));
        }
    }
    proof {
        assert(chars@.skip(i as int) =~= Seq::<char>::empty());
        assert(tokens@ + Seq::<Token>::empty() =~= tokens@);
    }
    Ok(tokens)
}

/// Scanning one more token in front of the rest is scanning it behind what
/// was scanned before.
proof fn lemma_scanned_step(done: Seq<Token>, t: Token, rest: Result<Seq<Token>, LexError>)
    ensures
        scanned_then(done, prepend(t, rest)) == scanned_then(done.push(t), rest),
{
    match rest {
        Ok(ts) => {
            assert(done + (seq![t] + ts) =~= done.push(t) + ts);
        },
        Err(_) => {},
    }
}

/// Reads one range from the tokens that start at `start`, up to the next
/// separator or the end. Returns the range and the position behind it.
pub fn parse_range(tokens: &[Token], start: usize) -> (r: (
    Result<CutRange, ParseRangesError>,
    usize,
))
    requires
        start <= tokens@.len(),
    ensures
        r.1 == start + group_len(tokens@.skip(start as int)),
        r.1 <= tokens@.len(),
        r.1 < tokens@.len() ==> tokens@[r.1 as int] is Comma || tokens@[r.1 as int] is Blank,
        match range_of_group(tokens@.subrange(start as int, r.1 as int)) {
            Ok(range) => r.0 == Ok::<CutRange, ParseRangesError>(range),
            Err(fault) => r.0 is Err && r.0->Err_0@ == fault,
        },
        r.0 is Ok ==> r.0->Ok_0.wf() && r.0->Ok_0.writable(),
{
    let mut range: Vec<Token> = Vec::new();
    let mut j: usize = start;
    proof {
        assert(tokens@.subrange(start as int, start as int) =~= range@);
    }
    while j < tokens.len() && is_range_token(&tokens[j])
        invariant
            start <= j <= tokens@.len(),
            range@ == tokens@.subrange(start as int, j as int),
            group_len(tokens@.skip(start as int)) == (j - start) + group_len(
                tokens@.skip(j as int),
            ),
        decreases tokens@.len() - j,
    {
        proof {
            assert(tokens@.skip(j as int)[0] == tokens@[j as int]);
            assert(tokens@.skip(j as int).drop_first() =~= tokens@.skip(j + 1));
            assert(tokens@.subrange(start as int, j + 1) =~= tokens@.subrange(
                start as int,
                j as int,
            ).push(tokens@[j as int]));
        }
        range.push(tokens[j]);
        j += 1;
    }
    proof {
        if j < tokens@.len() {
            assert(tokens@.skip(j as int)[0] == tokens@[j as int]);
        }
    }
    if range.len() == 1 {
        return match range[0] {
            Token::Number(n) => if n == 0 {
                (Err(ParseRangesError::NumberedFromZero), j)
            } else {
                (Ok(CutRange::Unit(n - 1)), j)
            },
            _ => (Err(ParseRangesError::IndecipherableRange(range)), j),
        };
    }
    if range.len() == 2 {
        return match (range[0], range[1]) {
            (Token::Hyphen, Token::Number(end)) => if end == 0 {
                (Err(ParseRangesError::NumberedFromZero), j)
            } else {
                (Ok(CutRange::FromStart(end - 1)), j)
            },
            (Token::Number(start), Token::Hyphen) => if start == 0 {
                (Err(ParseRangesError::NumberedFromZero), j)
            } else {
                (Ok(CutRange::ToEnd(start - 1)), j)
            },
            _ => (Err(ParseRangesError::IndecipherableRange(range)), j),
        };
    }
    if range.len() == 3 {
        return match (range[0], range[1], range[2]) {
            (Token::Number(start), Token::Hyphen, Token::Number(end)) => if start == 0 || end
                == 0 {
                (Err(ParseRangesError::NumberedFromZero), j)
            } else if start <= end {
                (Ok(CutRange::Closed(IncreasingRange::new(start - 1, end - 1))), j)
            } else {
                (Err(ParseRangesError::DescendingRange), j)
            },
            _ => (Err(ParseRangesError::IndecipherableRange(range)), j),
        };
    }
    (Err(ParseRangesError::IndecipherableRange(range)), j)
}

/// Whether a token belongs to a range: a number or a hyphen.
pub fn is_range_token(t: &Token) -> (b: bool)
    ensures
        b == in_range_group(*t),
{
    match t {
        Token::Hyphen | Token::Number(_) => true,
        _ => false,
    }
}

/// The ranges parsed so far, followed by those of the rest.
pub open spec fn parsed_then(
    done: Seq<CutRange>,
    rest: Result<Seq<CutRange>, RangeFault>,
) -> Result<Seq<CutRange>, RangeFault> {
    match rest {
        Ok(ranges) => Ok(done + ranges),
        Err(e) => Err(e),
    }
}

/// Parses a token sequence into the canonical list of its ranges.
pub fn parse_tokens(tokens: Vec<Token>) -> (r: Result<Ranges, ParseRangesError>)
    ensures
        parsed_as(r, parse_tokens_spec(tokens@)),
{
    let mut cut_ranges: Vec<CutRange> = Vec::new();
    let mut i: usize = 0;
    proof {
        assert(tokens@.skip(0) =~= tokens@);
        match parse_tokens_spec(tokens@) {
            Ok(rs) => {
                assert(cut_ranges@ + rs =~= rs);
            },
            Err(_) => {},
        }
    }
    loop
        invariant_except_break
            i <= tokens@.len(),
            parse_tokens_spec(tokens@) == parsed_then(
                cut_ranges@,
                parse_tokens_spec(tokens@.skip(i as int)),
            ),
        invariant
            cut_wf(cut_ranges@),
            cut_writable(cut_ranges@),
        ensures
            cut_wf(cut_ranges@),
            cut_writable(cut_ranges@),
            parse_tokens_spec(tokens@) == Ok::<Seq<CutRange>, RangeFault>(cut_ranges@),
        decreases tokens@.len() - i,
    {
        let ghost rest = tokens@.skip(i as int);
        let ghost before = cut_ranges@;
        let (result, next) = parse_range(tokens.as_slice(), i);
        proof {
            let k = group_len(rest) as int;
            assert(rest.subrange(0, k) =~= tokens@.subrange(i as int, next as int));
            if next < tokens@.len() {
                assert(rest.subrange(k + 1, rest.len() as int) =~= tokens@.skip(next + 1));
            }
        }
        match result {
            Ok(cut_range) => {
                cut_ranges.push(cut_range);
                proof {
                    assert forall|k: int|
                        0 <= k < cut_ranges@.len() implies #[trigger] cut_ranges@[k].wf() by {
                        if k < before.len() {
                            assert(before[k].wf());
                        }
                    }
                    assert forall|k: int|
                        0 <= k < cut_ranges@.len() implies #[trigger] cut_ranges@[k].writable() by {
                        if k < before.len() {
                            assert(before[k].writable());
                        }
                    }
                    if next < tokens@.len() {
                        match parse_tokens_spec(tokens@.skip(next + 1)) {
                            Ok(rs) => {
                                assert(before + (seq![cut_range] + rs) =~= before.push(cut_range)
                                    + rs);
                            },
                            Err(_) => {},
                        }
                    } else {
                        assert(before + seq![cut_range] =~= before.push(cut_range));
                    }
                }
            },
            Err(e) => {
                return Err(e);
            },
        }
        if next < tokens.len() {
            i = next + 1;
        } else {
            break ;
        }
    }
    Ok(Ranges::from_ranges(cut_ranges.as_slice()))
}

/// Parses a range list such as `2-4,7-,-3` into the canonical list of its
/// ranges.
pub fn parse(s: &str) -> (r: Result<Ranges, ParseRangesError>)
    ensures
        parsed_as(r, parse_spec(s@)),
{
    match scan(s) {
        Ok(tokens) => parse_tokens(tokens),
        Err(e) => Err(ParseRangesError::LexError(e)),
    }
}

impl std::str::FromStr for Ranges {
    type Err = ParseRangesError;

    fn from_str(s: &str) -> (r: Result<Self, Self::Err>)
        ensures
            parsed_as(r, parse_spec(s@)),
    {
        parse(s)
    }
}

} // verus!
