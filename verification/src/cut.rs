//! The four ways of cutting an input: by bytes, by characters, and by fields
//! that a character or a regular expression delimits.

use crate::fields::{
    cut_fields_line, fields_line_spec, find_literal_delimiters, lemma_literal_delims,
    lemma_no_delimiter, literal_delims, opt_view,
};
use crate::lines::{
    copy_span, emit, emit_line, kept, lemma_emit_push, lemma_lines_pass, lines_of, normalized,
    spans_match_lines,
    split_lines,
};
use crate::pattern::{delimiter_matches, find_delimiters};
use crate::range::{MergedRange, Ranges};
use crate::select::{select, select_spec};
use crate::text::{chars_of, encode_chars, string_from_utf8, CutError};
use regex::Regex;
use vstd::prelude::*;
use vstd::utf8::{decode_utf8, encode_utf8, valid_utf8};

verus! {

/// Every line is valid UTF-8.
pub open spec fn all_valid_utf8(lines: Seq<Seq<u8>>) -> bool {
    forall|k: int| 0 <= k < lines.len() ==> valid_utf8(#[trigger] lines[k])
}

/// A line cut by bytes: the selected bytes.
pub open spec fn bytes_line(line: Seq<u8>, ranges: Seq<MergedRange>) -> Option<Seq<u8>> {
    Some(select_spec(line, ranges))
}

/// A line cut by characters: the encoding of the selected characters.
pub open spec fn characters_line(line: Seq<u8>, ranges: Seq<MergedRange>) -> Option<Seq<u8>> {
    Some(encode_utf8(select_spec(decode_utf8(line), ranges)))
}

/// A line cut by fields that a character delimits.
pub open spec fn fields_char_line(
    line: Seq<u8>,
    delimiter: char,
    joiner: Seq<char>,
    suppress: bool,
    ranges: Seq<MergedRange>,
) -> Option<Seq<u8>> {
    let text = decode_utf8(line);
    match fields_line_spec(text, literal_delims(text, delimiter), joiner, suppress, ranges) {
        Some(cut) => Some(encode_utf8(cut)),
        None => None,
    }
}

/// A line cut by fields that the matches of a regular expression delimit.
pub open spec fn fields_regex_line(
    line: Seq<u8>,
    delimiter: Regex,
    joiner: Seq<char>,
    suppress: bool,
    ranges: Seq<MergedRange>,
) -> Option<Seq<u8>> {
    fields_line_spec(
        line,
        delimiter_matches(delimiter, decode_utf8(line)),
        encode_utf8(joiner),
        suppress,
        ranges,
    )
}

/// The number of lines in front of the first that is not valid UTF-8.
pub open spec fn valid_prefix_len(lines: Seq<Seq<u8>>) -> nat
    decreases lines.len(),
{
    if lines.len() > 0 && valid_utf8(lines[0]) {
        1 + valid_prefix_len(lines.drop_first())
    } else {
        0
    }
}

/// The lines of an input that are cut as text: those in front of the first
/// that is not valid UTF-8. With that line the cutting of the input ends.
pub open spec fn text_lines(input: Seq<u8>, terminator: u8) -> Seq<Seq<u8>> {
    let lines = lines_of(input, terminator);
    lines.take(valid_prefix_len(lines) as int)
}

/// The output of cutting an input by bytes.
pub open spec fn bytes_output(input: Seq<u8>, terminator: u8, ranges: Seq<MergedRange>) -> Seq<u8> {
    emit(
        lines_of(input, terminator).map_values(|line: Seq<u8>| bytes_line(line, ranges)),
        terminator,
    )
}

/// The output of cutting an input by characters.
pub open spec fn characters_output(
    input: Seq<u8>,
    terminator: u8,
    ranges: Seq<MergedRange>,
) -> Seq<u8> {
    emit(
        text_lines(input, terminator).map_values(|line: Seq<u8>| characters_line(line, ranges)),
        terminator,
    )
}

/// The output of cutting an input by fields that a character delimits.
pub open spec fn fields_char_output(
    input: Seq<u8>,
    terminator: u8,
    delimiter: char,
    joiner: Seq<char>,
    suppress: bool,
    ranges: Seq<MergedRange>,
) -> Seq<u8> {
    emit(
        text_lines(input, terminator).map_values(
            |line: Seq<u8>| fields_char_line(line, delimiter, joiner, suppress, ranges),
        ),
        terminator,
    )
}

/// The output of cutting an input by fields that the matches of a regular
/// expression delimit.
pub open spec fn fields_regex_output(
    input: Seq<u8>,
    terminator: u8,
    delimiter: Regex,
    joiner: Seq<char>,
    suppress: bool,
    ranges: Seq<MergedRange>,
) -> Seq<u8> {
    emit(
        text_lines(input, terminator).map_values(
            |line: Seq<u8>| fields_regex_line(line, delimiter, joiner, suppress, ranges),
        ),
        terminator,
    )
}

/// The valid lines at the front are no more than the lines; all lines are
/// valid exactly if the valid front is the whole; and the line behind a
/// shorter front is not valid.
pub proof fn lemma_valid_prefix(lines: Seq<Seq<u8>>)
    ensures
        valid_prefix_len(lines) <= lines.len(),
        all_valid_utf8(lines) <==> valid_prefix_len(lines) == lines.len(),
        valid_prefix_len(lines) < lines.len() ==> !valid_utf8(lines[valid_prefix_len(lines) as int]),
        forall|j: int| 0 <= j < valid_prefix_len(lines) ==> valid_utf8(#[trigger] lines[j]),
    decreases lines.len(),
{
    if lines.len() > 0 && valid_utf8(lines[0]) {
        let rest = lines.drop_first();
        lemma_valid_prefix(rest);
        assert forall|j: int| 0 <= j < valid_prefix_len(lines) implies valid_utf8(
            #[trigger] lines[j],
        ) by {
            if j > 0 {
                assert(lines[j] == rest[j - 1]);
            }
        }
        if all_valid_utf8(rest) {
            assert forall|k: int| 0 <= k < lines.len() implies valid_utf8(#[trigger] lines[k]) by {
                if k > 0 {
                    assert(lines[k] == rest[k - 1]);
                }
            }
        }
        if all_valid_utf8(lines) {
            assert forall|k: int| 0 <= k < rest.len() implies valid_utf8(#[trigger] rest[k]) by {
                assert(rest[k] == lines[k + 1]);
            }
        }
        if valid_prefix_len(rest) < rest.len() {
            assert(rest[valid_prefix_len(rest) as int] == lines[valid_prefix_len(lines) as int]);
        }
    } else if lines.len() > 0 {
        assert(!valid_utf8(lines[0]));
    }
}

/// If the first `k` lines are valid and either line `k` is not or there is
/// none, the valid front has `k` lines.
pub proof fn lemma_valid_prefix_is(lines: Seq<Seq<u8>>, k: int)
    requires
        0 <= k <= lines.len(),
        forall|j: int| 0 <= j < k ==> valid_utf8(#[trigger] lines[j]),
        k < lines.len() ==> !valid_utf8(lines[k]),
    ensures
        valid_prefix_len(lines) == k,
{
    lemma_valid_prefix(lines);
    let n = valid_prefix_len(lines) as int;
    if n < k {
        assert(valid_utf8(lines[n]));
    } else if n > k {
        assert(valid_utf8(lines[k]));
    }
}

/// Appends a processed line and the terminator to the output, unless the
/// line was dropped.
fn emit_result(out: &mut Vec<u8>, result: &Option<Vec<u8>>, terminator: u8)
    ensures
        final(out)@ == match opt_view(*result) {
            Some(line) => old(out)@ + line + seq![terminator],
            None => old(out)@,
        },
{
    match result {
        Some(line) => emit_line(out, line.as_slice(), terminator),
        None => {},
    }
}

/// Cuts one line by characters.
pub fn cut_characters_line(line: Vec<u8>, ranges: &Ranges) -> (r: Result<Vec<u8>, CutError>)
    requires
        ranges.wf(),
    ensures
        valid_utf8(line@) ==> r is Ok && Some(r->Ok_0@) == characters_line(line@, ranges@),
        !valid_utf8(line@) ==> r is Err && r->Err_0 == CutError::InvalidEncoding,
{
    match string_from_utf8(line) {
        Ok(text) => {
            let chars = chars_of(text.as_str());
            let selected = select(chars.as_slice(), ranges);
            Ok(encode_chars(selected.as_slice()))
        },
        Err(e) => Err(e),
    }
}

/// Cuts one line by fields that a character delimits.
pub fn cut_fields_with_char_line(
    line: Vec<u8>,
    field_delimiter: char,
    output_delimiter: &str,
    suppress: bool,
    ranges: &Ranges,
) -> (r: Result<Option<Vec<u8>>, CutError>)
    requires
        ranges.wf(),
    ensures
        valid_utf8(line@) ==> r is Ok && opt_view(r->Ok_0) == fields_char_line(
            line@,
            field_delimiter,
            output_delimiter@,
            suppress,
            ranges@,
        ),
        !valid_utf8(line@) ==> r is Err && r->Err_0 == CutError::InvalidEncoding,
{
    match string_from_utf8(line) {
        Ok(text) => {
            let chars = chars_of(text.as_str());
            let delims = find_literal_delimiters(chars.as_slice(), field_delimiter);
            proof {
                assert(chars@.len() == chars.len());
                lemma_literal_delims(chars@, field_delimiter);
            }
            let joiner = chars_of(output_delimiter);
            match cut_fields_line(
                chars.as_slice(),
                delims.as_slice(),
                joiner.as_slice(),
                suppress,
                ranges,
            ) {
                Some(cut) => Ok(Some(encode_chars(cut.as_slice()))),
                None => Ok(None),
            }
        },
        Err(e) => Err(e),
    }
}

/// Cuts one line by fields that the matches of a regular expression delimit.
pub fn cut_fields_with_regex_line(
    line: Vec<u8>,
    field_delimiter: &Regex,
    output_delimiter: &str,
    suppress: bool,
    ranges: &Ranges,
) -> (r: Result<Option<Vec<u8>>, CutError>)
    requires
        ranges.wf(),
    ensures
        valid_utf8(line@) ==> r is Ok && opt_view(r->Ok_0) == fields_regex_line(
            line@,
            *field_delimiter,
            output_delimiter@,
            suppress,
            ranges@,
        ),
        !valid_utf8(line@) ==> r is Err && r->Err_0 == CutError::InvalidEncoding,
{
    broadcast use vstd::utf8::decode_utf8_encode_utf8;

    let ghost bytes = line@;
    match string_from_utf8(line) {
        Ok(text) => {
            let delims = find_delimiters(field_delimiter, text.as_str());
            let units = text.as_str().as_bytes();
            let joiner = output_delimiter.as_bytes();
            assert(units@ == bytes);
            Ok(cut_fields_line(units, delims.as_slice(), joiner, suppress, ranges))
        },
        Err(e) => Err(e),
    }
}

/// What is written behind `before` for processed lines: one more line adds
/// itself and the terminator, or nothing if it was dropped.
pub proof fn lemma_emit_appended(
    before: Seq<u8>,
    done: Seq<Option<Seq<u8>>>,
    result: Option<Seq<u8>>,
    terminator: u8,
)
    ensures
        before + emit(done.push(result), terminator) == match result {
            Some(line) => before + emit(done, terminator) + line + seq![terminator],
            None => before + emit(done, terminator),
        },
{
    lemma_emit_push(done, result, terminator);
    match result {
        Some(line) => {
            assert(before + (emit(done, terminator) + line + seq![terminator]) =~= before + emit(
                done,
                terminator,
            ) + line + seq![terminator]);
        },
        None => {},
    }
}

/// Cuts an input by bytes and appends the result to `output`: of every line
/// the selected bytes, each line followed by the terminator. Never fails.
pub fn cut_bytes(input: &[u8], output: &mut Vec<u8>, line_delimiter: u8, ranges: &Ranges) -> (r:
    Result<(), CutError>)
    requires
        ranges.wf(),
    ensures
        final(output)@ == old(output)@ + bytes_output(input@, line_delimiter, ranges@),
        r is Ok,
{
    let spans = split_lines(input, line_delimiter);
    let ghost lines = lines_of(input@, line_delimiter);
    let ghost before = output@;
    let ghost mut done: Seq<Option<Seq<u8>>> = Seq::empty();
    let mut k: usize = 0;
    assert(before + emit(done, line_delimiter) =~= before);
    while k < spans.len()
        invariant
            k <= spans@.len(),
            ranges.wf(),
            lines == lines_of(input@, line_delimiter),
            spans_match_lines(input@, spans@, lines),
            done.len() == k,
            forall|j: int| 0 <= j < k ==> #[trigger] done[j] == bytes_line(lines[j], ranges@),
            before == old(output)@,
            output@ == before + emit(done, line_delimiter),
        decreases spans@.len() - k,
    {
        let span = spans[k];
        assert(span == spans@[k as int]);
        let line = copy_span(input, span.0, span.1);
        let selected = select(line.as_slice(), ranges);
        emit_line(output, selected.as_slice(), line_delimiter);
        proof {
            lemma_emit_appended(before, done, Some(selected@), line_delimiter);
            done = done.push(Some(selected@));
        }
        k += 1;
    }
    assert(done =~= lines.map_values(|line: Seq<u8>| bytes_line(line, ranges@)));
    Ok(())
}

/// Cuts an input by characters and appends the result to `output`: of every
/// line the selected characters, each line followed by the terminator. Stops
/// and fails at the first line that is not valid UTF-8; what was cut before
/// it stays in `output`.
pub fn cut_characters(
    input: &[u8],
    output: &mut Vec<u8>,
    line_delimiter: u8,
    ranges: &Ranges,
) -> (r: Result<(), CutError>)
    requires
        ranges.wf(),
    ensures
        final(output)@ == old(output)@ + characters_output(input@, line_delimiter, ranges@),
        r is Ok <==> all_valid_utf8(lines_of(input@, line_delimiter)),
        r is Err ==> r->Err_0 == CutError::InvalidEncoding,
{
    let spans = split_lines(input, line_delimiter);
    let ghost lines = lines_of(input@, line_delimiter);
    let ghost before = output@;
    let ghost mut done: Seq<Option<Seq<u8>>> = Seq::empty();
    let mut k: usize = 0;
    assert(before + emit(done, line_delimiter) =~= before);
    while k < spans.len()
        invariant
            k <= spans@.len(),
            ranges.wf(),
            lines == lines_of(input@, line_delimiter),
            spans_match_lines(input@, spans@, lines),
            done.len() == k,
            forall|j: int| 0 <= j < k ==> valid_utf8(#[trigger] lines[j]),
            forall|j: int| 0 <= j < k ==> #[trigger] done[j] == characters_line(lines[j], ranges@),
            before == old(output)@,
            output@ == before + emit(done, line_delimiter),
        decreases spans@.len() - k,
    {
        let span = spans[k];
        assert(span == spans@[k as int]);
        let line = copy_span(input, span.0, span.1);
        match cut_characters_line(line, ranges) {
            Ok(cut) => {
                emit_line(output, cut.as_slice(), line_delimiter);
                proof {
                    lemma_emit_appended(before, done, Some(cut@), line_delimiter);
                    done = done.push(Some(cut@));
                }
            },
            Err(e) => {
                proof {
                    lemma_valid_prefix_is(lines, k as int);
                    lemma_valid_prefix(lines);
                    assert(done =~= lines.take(k as int).map_values(
                        |line: Seq<u8>| characters_line(line, ranges@),
                    ));
                }
                return Err(e);
            },
        }
        k += 1;
    }
    proof {
        lemma_valid_prefix_is(lines, k as int);
        lemma_valid_prefix(lines);
        assert(done =~= lines.take(k as int).map_values(
            |line: Seq<u8>| characters_line(line, ranges@),
        ));
    }
    Ok(())
}

/// Cuts an input by fields that a character delimits and appends the result
/// to `output`. Of a line with a delimiter the selected fields are joined by
/// `output_delimiter`; a line without one is dropped if `suppress` is set and
/// passes unchanged if not. Each line that is not dropped is followed by the
/// terminator. Stops and fails at the first line that is not valid UTF-8;
/// what was cut before it stays in `output`.
pub fn cut_fields_with_char(
    input: &[u8],
    output: &mut Vec<u8>,
    line_delimiter: u8,
    field_delimiter: char,
    output_delimiter: &str,
    suppress: bool,
    ranges: &Ranges,
) -> (r: Result<(), CutError>)
    requires
        ranges.wf(),
    ensures
        final(output)@ == old(output)@ + fields_char_output(
            input@,
            line_delimiter,
            field_delimiter,
            output_delimiter@,
            suppress,
            ranges@,
        ),
        r is Ok <==> all_valid_utf8(lines_of(input@, line_delimiter)),
        r is Err ==> r->Err_0 == CutError::InvalidEncoding,
{
    let spans = split_lines(input, line_delimiter);
    let ghost lines = lines_of(input@, line_delimiter);
    let ghost before = output@;
    let ghost mut done: Seq<Option<Seq<u8>>> = Seq::empty();
    let mut k: usize = 0;
    assert(before + emit(done, line_delimiter) =~= before);
    while k < spans.len()
        invariant
            k <= spans@.len(),
            ranges.wf(),
            lines == lines_of(input@, line_delimiter),
            spans_match_lines(input@, spans@, lines),
            done.len() == k,
            forall|j: int| 0 <= j < k ==> valid_utf8(#[trigger] lines[j]),
            forall|j: int| 0 <= j < k ==> #[trigger] done[j] == fields_char_line(
                    lines[j],
                    field_delimiter,
                    output_delimiter@,
                    suppress,
                    ranges@,
                ),
            before == old(output)@,
            output@ == before + emit(done, line_delimiter),
        decreases spans@.len() - k,
    {
        let span = spans[k];
        assert(span == spans@[k as int]);
        let line = copy_span(input, span.0, span.1);
        match cut_fields_with_char_line(line, field_delimiter, output_delimiter, suppress, ranges) {
            Ok(cut) => {
                emit_result(output, &cut, line_delimiter);
                proof {
                    lemma_emit_appended(before, done, opt_view(cut), line_delimiter);
                    done = done.push(opt_view(cut));
                }
            },
            Err(e) => {
                proof {
                    lemma_valid_prefix_is(lines, k as int);
                    lemma_valid_prefix(lines);
                    assert(done =~= lines.take(k as int).map_values(
                        |line: Seq<u8>| fields_char_line(
                    line,
                    field_delimiter,
                    output_delimiter@,
                    suppress,
                    ranges@,
                ),
                    ));
                }
                return Err(e);
            },
        }
        k += 1;
    }
    proof {
        lemma_valid_prefix_is(lines, k as int);
        lemma_valid_prefix(lines);
        assert(done =~= lines.take(k as int).map_values(
            |line: Seq<u8>| fields_char_line(
                    line,
                    field_delimiter,
                    output_delimiter@,
                    suppress,
                    ranges@,
                ),
        ));
    }
    Ok(())
}

/// Cuts an input by fields that the matches of a regular expression delimit
/// and appends the result to `output`. Of a line with a match the selected
/// fields are joined by `output_delimiter`; a line without one is dropped if
/// `suppress` is set and passes unchanged if not. Each line that is not
/// dropped is followed by the terminator. Stops and fails at the first line
/// that is not valid UTF-8; what was cut before it stays in `output`.
pub fn cut_fields_with_regex(
    input: &[u8],
    output: &mut Vec<u8>,
    line_delimiter: u8,
    field_delimiter: &Regex,
    output_delimiter: &str,
    suppress: bool,
    ranges: &Ranges,
) -> (r: Result<(), CutError>)
    requires
        ranges.wf(),
    ensures
        final(output)@ == old(output)@ + fields_regex_output(
            input@,
            line_delimiter,
            *field_delimiter,
            output_delimiter@,
            suppress,
            ranges@,
        ),
        r is Ok <==> all_valid_utf8(lines_of(input@, line_delimiter)),
        r is Err ==> r->Err_0 == CutError::InvalidEncoding,
{
    let spans = split_lines(input, line_delimiter);
    let ghost lines = lines_of(input@, line_delimiter);
    let ghost before = output@;
    let ghost mut done: Seq<Option<Seq<u8>>> = Seq::empty();
    let mut k: usize = 0;
    assert(before + emit(done, line_delimiter) =~= before);
    while k < spans.len()
        invariant
            k <= spans@.len(),
            ranges.wf(),
            lines == lines_of(input@, line_delimiter),
            spans_match_lines(input@, spans@, lines),
            done.len() == k,
            forall|j: int| 0 <= j < k ==> valid_utf8(#[trigger] lines[j]),
            forall|j: int| 0 <= j < k ==> #[trigger] done[j] == fields_regex_line(
                    lines[j],
                    *field_delimiter,
                    output_delimiter@,
                    suppress,
                    ranges@,
                ),
            before == old(output)@,
            output@ == before + emit(done, line_delimiter),
        decreases spans@.len() - k,
    {
        let span = spans[k];
        assert(span == spans@[k as int]);
        let line = copy_span(input, span.0, span.1);
        match cut_fields_with_regex_line(line, field_delimiter, output_delimiter, suppress, ranges) {
            Ok(cut) => {
                emit_result(output, &cut, line_delimiter);
                proof {
                    lemma_emit_appended(before, done, opt_view(cut), line_delimiter);
                    done = done.push(opt_view(cut));
                }
            },
            Err(e) => {
                proof {
                    lemma_valid_prefix_is(lines, k as int);
                    lemma_valid_prefix(lines);
                    assert(done =~= lines.take(k as int).map_values(
                        |line: Seq<u8>| fields_regex_line(
                    line,
                    *field_delimiter,
                    output_delimiter@,
                    suppress,
                    ranges@,
                ),
                    ));
                }
                return Err(e);
            },
        }
        k += 1;
    }
    proof {
        lemma_valid_prefix_is(lines, k as int);
        lemma_valid_prefix(lines);
        assert(done =~= lines.take(k as int).map_values(
            |line: Seq<u8>| fields_regex_line(
                    line,
                    *field_delimiter,
                    output_delimiter@,
                    suppress,
                    ranges@,
                ),
        ));
    }
    Ok(())
}

/// A line without the delimiter character passes through field mode
/// unchanged, byte for byte, when lines are not suppressed.
pub proof fn lemma_line_without_delimiter_passes(
    line: Seq<u8>,
    delimiter: char,
    joiner: Seq<char>,
    ranges: Seq<MergedRange>,
)
    requires
        valid_utf8(line),
        !decode_utf8(line).contains(delimiter),
    ensures
        fields_char_line(line, delimiter, joiner, false, ranges) == Some(line),
{
    broadcast use vstd::utf8::decode_utf8_encode_utf8;

    lemma_no_delimiter(decode_utf8(line), delimiter);
}

/// A line in which the regular expression has no match passes through field
/// mode unchanged when lines are not suppressed.
pub proof fn lemma_line_without_match_passes(
    line: Seq<u8>,
    delimiter: Regex,
    joiner: Seq<char>,
    ranges: Seq<MergedRange>,
)
    requires
        delimiter_matches(delimiter, decode_utf8(line)).len() == 0,
    ensures
        fields_regex_line(line, delimiter, joiner, false, ranges) == Some(line),
{
}

/// An input none of whose lines holds the delimiter character passes through
/// field mode unchanged when lines are not suppressed, but that a terminator
/// stands behind its last line afterwards.
pub proof fn lemma_input_without_delimiter_passes(
    input: Seq<u8>,
    terminator: u8,
    delimiter: char,
    joiner: Seq<char>,
    ranges: Seq<MergedRange>,
)
    requires
        all_valid_utf8(lines_of(input, terminator)),
        forall|k: int|
            0 <= k < lines_of(input, terminator).len() ==> !decode_utf8(
                #[trigger] lines_of(input, terminator)[k],
            ).contains(delimiter),
    ensures
        fields_char_output(input, terminator, delimiter, joiner, false, ranges) == normalized(
            input,
            terminator,
        ),
{
    let lines = lines_of(input, terminator);
    lemma_valid_prefix(lines);
    assert(text_lines(input, terminator) =~= lines);
    let cut = lines.map_values(
        |line: Seq<u8>| fields_char_line(line, delimiter, joiner, false, ranges),
    );
    assert forall|k: int| 0 <= k < lines.len() implies cut[k] == kept(lines)[k] by {
        assert(valid_utf8(lines[k]));
        lemma_line_without_delimiter_passes(lines[k], delimiter, joiner, ranges);
    }
    assert(cut =~= kept(lines));
    lemma_lines_pass(input, terminator);
}

} // verus!
