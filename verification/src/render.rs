//! The text of numbers and of range lists, and the proof that a range list
//! that is written down and parsed again is the list that was written.

use crate::parse::{
    decimal_value, digit_run, digit_value, group_len, in_range_group, is_digit, parse_spec,
    parse_tokens_spec, parsed_as, prepend, range_of_group, scan_spec, LexError, ParseRangesError,
    RangeFault, Token,
};
use crate::range::{
    canonical, covers, cut_covers, lemma_canonical_tail, lemma_canonical_unique, writable,
    CutRange, IncreasingRange, MergedRange, Ranges,
};
use crate::text::string_of;
use vstd::prelude::*;

verus! {

/// The character of a decimal digit.
pub open spec fn digit_char(d: int) -> char {
    if d == 0 {
        '0'
    } else if d == 1 {
        '1'
    } else if d == 2 {
        '2'
    } else if d == 3 {
        '3'
    } else if d == 4 {
        '4'
    } else if d == 5 {
        '5'
    } else if d == 6 {
        '6'
    } else if d == 7 {
        '7'
    } else if d == 8 {
        '8'
    } else {
        '9'
    }
}

/// The digits of a number in base ten, without leading zeros.
pub open spec fn decimal_digits(n: nat) -> Seq<char>
    decreases n,
{
    if n < 10 {
        seq![digit_char(n as int)]
    } else {
        decimal_digits(n / 10).push(digit_char((n % 10) as int))
    }
}

/// A range as the user writes it, numbered from one: `N`, `N-M` or `N-`.
pub open spec fn range_text(r: MergedRange) -> Seq<char> {
    match r {
        MergedRange::Closed(s, e) => if s == e {
            decimal_digits((s + 1) as nat)
        } else {
            decimal_digits((s + 1) as nat) + seq!['-'] + decimal_digits((e + 1) as nat)
        },
        MergedRange::ToEnd(s) => decimal_digits((s + 1) as nat) + seq!['-'],
    }
}

/// A list of ranges as the user writes it: the ranges, separated by commas.
pub open spec fn list_text(rs: Seq<MergedRange>) -> Seq<char>
    decreases rs.len(),
{
    if rs.len() == 0 {
        Seq::empty()
    } else if rs.len() == 1 {
        range_text(rs[0])
    } else {
        range_text(rs[0]) + seq![','] + list_text(rs.drop_first())
    }
}

/// The tokens of a range as the user writes it.
pub open spec fn range_tokens(r: MergedRange) -> Seq<Token> {
    match r {
        MergedRange::Closed(s, e) => if s == e {
            seq![Token::Number((s + 1) as usize)]
        } else {
            seq![Token::Number((s + 1) as usize), Token::Hyphen, Token::Number((e + 1) as usize)]
        },
        MergedRange::ToEnd(s) => seq![Token::Number((s + 1) as usize), Token::Hyphen],
    }
}

/// The tokens of a list of ranges as the user writes it.
pub open spec fn list_tokens(rs: Seq<MergedRange>) -> Seq<Token>
    decreases rs.len(),
{
    if rs.len() == 0 {
        Seq::empty()
    } else if rs.len() == 1 {
        range_tokens(rs[0])
    } else {
        range_tokens(rs[0]) + seq![Token::Comma] + list_tokens(rs.drop_first())
    }
}

/// The range that the user writes for a merged range.
pub open spec fn cut_of(r: MergedRange) -> CutRange {
    match r {
        MergedRange::Closed(s, e) => if s == e {
            CutRange::Unit(s)
        } else {
            CutRange::Closed(IncreasingRange { start: s, end: e })
        },
        MergedRange::ToEnd(s) => CutRange::ToEnd(s),
    }
}

/// The ranges that the user writes for a list of merged ranges.
pub open spec fn written_ranges(rs: Seq<MergedRange>) -> Seq<CutRange> {
    rs.map_values(|r: MergedRange| cut_of(r))
}

/// The digits of a number are digits, at least one, and denote the number.
pub proof fn lemma_decimal_digits(n: nat)
    ensures
        decimal_digits(n).len() >= 1,
        forall|i: int| 0 <= i < decimal_digits(n).len() ==> is_digit(#[trigger] decimal_digits(n)[i]),
        decimal_value(decimal_digits(n)) == n,
    decreases n,
{
    let ds = decimal_digits(n);
    if n < 10 {
        assert(ds.drop_last() =~= Seq::<char>::empty());
        assert(decimal_value(ds.drop_last()) == 0);
        assert(digit_value(ds.last()) == n);
    } else {
        lemma_decimal_digits(n / 10);
        assert(ds.drop_last() =~= decimal_digits(n / 10));
        assert(digit_value(ds.last()) == n % 10);
        assert forall|i: int| 0 <= i < ds.len() implies is_digit(#[trigger] ds[i]) by {
            if i < ds.len() - 1 {
                assert(ds[i] == decimal_digits(n / 10)[i]);
            }
        }
    }
}

/// Digits in front of something that is no digit form a run of their own.
pub proof fn lemma_digit_run_prefix(ds: Seq<char>, rest: Seq<char>)
    requires
        forall|i: int| 0 <= i < ds.len() ==> is_digit(#[trigger] ds[i]),
        rest.len() == 0 || !is_digit(rest[0]),
    ensures
        digit_run(ds + rest) == ds.len(),
    decreases ds.len(),
{
    if ds.len() == 0 {
        assert(ds + rest =~= rest);
    } else {
        assert((ds + rest).drop_first() =~= ds.drop_first() + rest);
        assert((ds + rest)[0] == ds[0]);
        assert forall|i: int| 0 <= i < ds.drop_first().len() implies is_digit(
            #[trigger] ds.drop_first()[i],
        ) by {
            assert(ds.drop_first()[i] == ds[i + 1]);
        }
        lemma_digit_run_prefix(ds.drop_first(), rest);
    }
}

/// A number in front of something that is no digit is scanned as one token.
pub proof fn lemma_scan_number(n: nat, rest: Seq<char>)
    requires
        n <= usize::MAX,
        rest.len() == 0 || !is_digit(rest[0]),
    ensures
        scan_spec(decimal_digits(n) + rest) == prepend(Token::Number(n as usize), scan_spec(rest)),
{
    lemma_decimal_digits(n);
    let ds = decimal_digits(n);
    let s = ds + rest;
    lemma_digit_run_prefix(ds, rest);
    assert(s[0] == ds[0]);
    assert(is_digit(ds[0]));
    assert(s.subrange(0, ds.len() as int) =~= ds);
    assert(s.subrange(ds.len() as int, s.len() as int) =~= rest);
}

/// A hyphen is scanned as a token of its own.
pub proof fn lemma_scan_hyphen(rest: Seq<char>)
    ensures
        scan_spec(seq!['-'] + rest) == prepend(Token::Hyphen, scan_spec(rest)),
{
    let s = seq!['-'] + rest;
    assert(s[0] == '-');
    assert(s.drop_first() =~= rest);
}

/// A comma is scanned as a token of its own.
pub proof fn lemma_scan_comma(rest: Seq<char>)
    ensures
        scan_spec(seq![','] + rest) == prepend(Token::Comma, scan_spec(rest)),
{
    let s = seq![','] + rest;
    assert(s[0] == ',');
    assert(s.drop_first() =~= rest);
}

/// A range in front of a comma or of the end is scanned as its tokens.
pub proof fn lemma_scan_range(r: MergedRange, tail: Seq<char>, tail_tokens: Seq<Token>)
    requires
        r.writable(),
        tail.len() == 0 || tail[0] == ',',
        scan_spec(tail) == Ok::<Seq<Token>, LexError>(tail_tokens),
    ensures
        scan_spec(range_text(r) + tail) == Ok::<Seq<Token>, LexError>(range_tokens(r) + tail_tokens),
{
    match r {
        MergedRange::Closed(s, e) => {
            if s == e {
                lemma_scan_number((s + 1) as nat, tail);
            } else {
                let second = decimal_digits((e + 1) as nat);
                let last = seq![Token::Number((e + 1) as usize)] + tail_tokens;
                lemma_scan_number((e + 1) as nat, tail);
                lemma_decimal_digits((e + 1) as nat);
                assert((second + tail)[0] == second[0]);
                assert(is_digit(second[0]));
                lemma_scan_open_range((s + 1) as nat, second + tail, last);
                assert(range_text(r) + tail =~= decimal_digits((s + 1) as nat) + seq!['-'] + (
                second + tail));
                assert(seq![Token::Number((s + 1) as usize), Token::Hyphen] + last
                    =~= range_tokens(r) + tail_tokens);
            }
        },
        MergedRange::ToEnd(s) => {
            lemma_scan_open_range((s + 1) as nat, tail, tail_tokens);
        },
    }
}

/// A number and a hyphen are scanned as two tokens.
proof fn lemma_scan_open_range(n: nat, tail: Seq<char>, tail_tokens: Seq<Token>)
    requires
        n <= usize::MAX,
        scan_spec(tail) == Ok::<Seq<Token>, LexError>(tail_tokens),
    ensures
        scan_spec(decimal_digits(n) + seq!['-'] + tail) == Ok::<Seq<Token>, LexError>(
            seq![Token::Number(n as usize), Token::Hyphen] + tail_tokens,
        ),
{
    let after_number = seq!['-'] + tail;
    lemma_scan_hyphen(tail);
    assert(after_number[0] == '-');
    lemma_scan_number(n, after_number);
    assert(decimal_digits(n) + seq!['-'] + tail =~= decimal_digits(n) + after_number);
    assert(seq![Token::Number(n as usize)] + (seq![Token::Hyphen] + tail_tokens) =~= seq![
        Token::Number(n as usize),
        Token::Hyphen,
    ] + tail_tokens);
}

/// The text of a list of ranges is scanned as the tokens of the list.
pub proof fn lemma_scan_list(rs: Seq<MergedRange>)
    requires
        writable(rs),
    ensures
        scan_spec(list_text(rs)) == Ok::<Seq<Token>, LexError>(list_tokens(rs)),
    decreases rs.len(),
{
    if rs.len() == 0 {
    } else if rs.len() == 1 {
        assert(rs[0].writable());
        lemma_scan_range(rs[0], Seq::empty(), Seq::empty());
        assert(range_text(rs[0]) + Seq::<char>::empty() =~= range_text(rs[0]));
        assert(range_tokens(rs[0]) + Seq::<Token>::empty() =~= range_tokens(rs[0]));
    } else {
        let rest = rs.drop_first();
        assert(rs[0].writable());
        assert forall|k: int| 0 <= k < rest.len() implies #[trigger] rest[k].writable() by {
            assert(rs[k + 1].writable());
        }
        lemma_scan_list(rest);
        let tail = seq![','] + list_text(rest);
        let tail_tokens = seq![Token::Comma] + list_tokens(rest);
        lemma_scan_comma(list_text(rest));
        lemma_scan_range(rs[0], tail, tail_tokens);
        assert(list_text(rs) =~= range_text(rs[0]) + tail);
        assert(list_tokens(rs) =~= range_tokens(rs[0]) + tail_tokens);
    }
}

/// Range tokens in front of a separator or of the end form a group of their
/// own.
pub proof fn lemma_group_prefix(g: Seq<Token>, rest: Seq<Token>)
    requires
        forall|i: int| 0 <= i < g.len() ==> in_range_group(#[trigger] g[i]),
        rest.len() == 0 || !in_range_group(rest[0]),
    ensures
        group_len(g + rest) == g.len(),
    decreases g.len(),
{
    if g.len() == 0 {
        assert(g + rest =~= rest);
    } else {
        assert((g + rest).drop_first() =~= g.drop_first() + rest);
        assert((g + rest)[0] == g[0]);
        assert forall|i: int| 0 <= i < g.drop_first().len() implies in_range_group(
            #[trigger] g.drop_first()[i],
        ) by {
            assert(g.drop_first()[i] == g[i + 1]);
        }
        lemma_group_prefix(g.drop_first(), rest);
    }
}

/// The tokens of a list of ranges are parsed as the ranges of the list.
pub proof fn lemma_parse_list(rs: Seq<MergedRange>)
    requires
        writable(rs),
        canonical(rs),
        rs.len() > 0,
    ensures
        parse_tokens_spec(list_tokens(rs)) == Ok::<Seq<CutRange>, RangeFault>(written_ranges(rs)),
    decreases rs.len(),
{
    let first = range_tokens(rs[0]);
    let ts = list_tokens(rs);
    let expected = written_ranges(rs);
    assert(rs[0].writable());
    assert(rs[0].inhabited());
    assert(range_of_group(first) == Ok::<CutRange, RangeFault>(cut_of(rs[0])));
    assert forall|i: int| 0 <= i < first.len() implies in_range_group(#[trigger] first[i]) by {}
    if rs.len() == 1 {
        lemma_group_prefix(first, Seq::empty());
        assert(first + Seq::<Token>::empty() =~= first);
        assert(ts.subrange(0, first.len() as int) =~= first);
        assert(expected =~= seq![cut_of(rs[0])]);
    } else {
        let rest = rs.drop_first();
        assert forall|k: int| 0 <= k < rest.len() implies #[trigger] rest[k].writable() by {
            assert(rs[k + 1].writable());
        }
        lemma_canonical_tail(rs);
        assert(rest =~= rs.subrange(1, rs.len() as int));
        lemma_parse_list(rest);
        let tail = seq![Token::Comma] + list_tokens(rest);
        assert(ts =~= first + tail);
        lemma_group_prefix(first, tail);
        assert(ts.subrange(0, first.len() as int) =~= first);
        assert(ts.subrange(first.len() as int + 1, ts.len() as int) =~= list_tokens(rest));
        assert(expected =~= seq![cut_of(rs[0])] + written_ranges(rest));
    }
}

/// Writing a list of ranges down and parsing the text gives the list back:
/// whatever the parser makes of the text of a canonical, non-empty list
/// whose positions all have a 1-based number is that list.
pub proof fn lemma_parse_round_trip(
    rs: Seq<MergedRange>,
    reparsed: Result<Ranges, ParseRangesError>,
)
    requires
        canonical(rs),
        writable(rs),
        rs.len() > 0,
        parsed_as(reparsed, parse_spec(list_text(rs))),
    ensures
        reparsed is Ok,
        reparsed->Ok_0@ == rs,
{
    lemma_scan_list(rs);
    lemma_parse_list(rs);
    let written = written_ranges(rs);
    let back = reparsed->Ok_0@;
    assert(parse_spec(list_text(rs)) == Ok::<Seq<CutRange>, RangeFault>(written));
    assert forall|i: int| covers(back, i) <==> covers(rs, i) by {
        assert(reparsed->Ok_0.contains(i) <==> cut_covers(written, i));
        if cut_covers(written, i) {
            let k = choose|k: int| 0 <= k < written.len() && #[trigger] written[k].covers(i);
            assert(rs[k].covers(i));
        }
        if covers(rs, i) {
            let k = choose|k: int| 0 <= k < rs.len() && #[trigger] rs[k].covers(i);
            assert(written[k].covers(i));
        }
    }
    lemma_canonical_unique(back, rs);
}

/// The character of a decimal digit.
pub fn digit_of(d: usize) -> (c: char)
    requires
        d < 10,
    ensures
        c == digit_char(d as int),
{
    if d == 0 {
        '0'
    } else if d == 1 {
        '1'
    } else if d == 2 {
        '2'
    } else if d == 3 {
        '3'
    } else if d == 4 {
        '4'
    } else if d == 5 {
        '5'
    } else if d == 6 {
        '6'
    } else if d == 7 {
        '7'
    } else if d == 8 {
        '8'
    } else {
        '9'
    }
}

/// Appends the digits of a number in base ten.
pub fn push_decimal(out: &mut Vec<char>, n: usize)
    ensures
        final(out)@ == old(out)@ + decimal_digits(n as nat),
    decreases n,
{
    let ghost before = out@;
    if n >= 10 {
        push_decimal(out, n / 10);
    }
    out.push(digit_of(n % 10));
    proof {
        if n >= 10 {
            assert(out@ =~= before + decimal_digits(n as nat));
        } else {
            assert(out@ =~= before + decimal_digits(n as nat));
        }
    }
}

/// Appends a range as the user writes it.
pub fn push_range_text(out: &mut Vec<char>, r: MergedRange)
    requires
        r.writable(),
    ensures
        final(out)@ == old(out)@ + range_text(r),
{
    let ghost before = out@;
    match r {
        MergedRange::Closed(s, e) => {
            push_decimal(out, s + 1);
            if s != e {
                out.push('-');
                push_decimal(out, e + 1);
            }
        },
        MergedRange::ToEnd(s) => {
            push_decimal(out, s + 1);
            out.push('-');
        },
    }
    assert(out@ =~= before + range_text(r));
}

impl Ranges {
    /// Writes the list down as the user would: `1-4,7-` for the first four
    /// positions and everything from the seventh on.
    pub fn to_text(&self) -> (text: String)
        requires
            writable(self@),
        ensures
            text@ == list_text(self@),
    {
        let mut out: Vec<char> = Vec::new();
        let n = self.ranges.len();
        let mut k: usize = 0;
        assert(self@.skip(0) =~= self@);
        assert(out@ + list_text(self@) =~= list_text(self@));
        while k < n
            invariant
                n == self@.len(),
                k <= n,
                writable(self@),
                list_text(self@) == out@ + list_text(self@.skip(k as int)),
            decreases n - k,
        {
            let ghost before = out@;
            let ghost rest = self@.skip(k as int);
            assert(self@[k as int].writable());
            assert(rest[0] == self@[k as int]);
            assert(rest.drop_first() =~= self@.skip(k + 1));
            push_range_text(&mut out, self.ranges[k]);
            if k + 1 < n {
                out.push(',');
                assert(out@ + list_text(self@.skip(k + 1)) =~= before + (range_text(rest[0])
                    + seq![','] + list_text(rest.drop_first())));
            } else {
                assert(out@ + list_text(self@.skip(k + 1)) =~= before + range_text(rest[0]));
            }
            k += 1;
        }
        assert(self@.skip(n as int) =~= Seq::<MergedRange>::empty());
        assert(out@ + Seq::<char>::empty() =~= out@);
        string_of(out.as_slice())
    }
}

} // verus!
