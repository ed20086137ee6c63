//! Splitting an input into lines at a terminator byte, and putting the
//! processed lines together again.

use vstd::prelude::*;

verus! {

/// The number of bytes in front of the first terminator, or the length of
/// the input if it holds none.
pub open spec fn first_line_len(input: Seq<u8>, terminator: u8) -> nat
    decreases input.len(),
{
    if input.len() > 0 && input[0] != terminator {
        1 + first_line_len(input.drop_first(), terminator)
    } else {
        0
    }
}

/// The lines of an input: the runs of bytes between terminators, without the
/// terminators. An input that does not end in a terminator ends in a line
/// all the same; an empty input has no line.
pub open spec fn lines_of(input: Seq<u8>, terminator: u8) -> Seq<Seq<u8>>
    decreases input.len(),
{
    let k = first_line_len(input, terminator) as int;
    if input.len() == 0 {
        Seq::empty()
    } else if k >= input.len() {
        seq![input]
    } else {
        seq![input.subrange(0, k)] + lines_of(input.subrange(k + 1, input.len() as int), terminator)
    }
}

/// The output for a sequence of processed lines: each line that was not
/// dropped, followed by the terminator.
pub open spec fn emit(results: Seq<Option<Seq<u8>>>, terminator: u8) -> Seq<u8>
    decreases results.len(),
{
    if results.len() == 0 {
        Seq::empty()
    } else {
        match results.last() {
            Some(line) => emit(results.drop_last(), terminator) + line + seq![terminator],
            None => emit(results.drop_last(), terminator),
        }
    }
}

/// The input with a terminator behind its last line: the input itself if it
/// is empty or ends in a terminator, and else the input and a terminator.
pub open spec fn normalized(input: Seq<u8>, terminator: u8) -> Seq<u8> {
    if input.len() == 0 || input.last() == terminator {
        input
    } else {
        input + seq![terminator]
    }
}

/// The lines, each kept as it is.
pub open spec fn kept(lines: Seq<Seq<u8>>) -> Seq<Option<Seq<u8>>> {
    lines.map_values(|line: Seq<u8>| Some(line))
}

/// A first line is no longer than the input, holds no terminator, and is
/// followed by one unless it reaches the end.
pub proof fn lemma_first_line(input: Seq<u8>, terminator: u8)
    ensures
        first_line_len(input, terminator) <= input.len(),
        first_line_len(input, terminator) < input.len() ==> input[first_line_len(
            input,
            terminator,
        ) as int] == terminator,
        forall|j: int|
            0 <= j < first_line_len(input, terminator) ==> #[trigger] input[j] != terminator,
    decreases input.len(),
{
    if input.len() > 0 && input[0] != terminator {
        let rest = input.drop_first();
        lemma_first_line(rest, terminator);
        assert forall|j: int| 0 <= j < first_line_len(input, terminator) implies #[trigger] input[j]
            != terminator by {
            if j > 0 {
                assert(rest[j - 1] != terminator);
            }
        }
    }
}

/// One more processed line adds itself and the terminator to the output, or
/// nothing if it was dropped.
pub proof fn lemma_emit_push(done: Seq<Option<Seq<u8>>>, result: Option<Seq<u8>>, terminator: u8)
    ensures
        emit(done.push(result), terminator) == match result {
            Some(line) => emit(done, terminator) + line + seq![terminator],
            None => emit(done, terminator),
        },
{
    assert(done.push(result).drop_last() =~= done);
}

/// The output for one kept line is the line and the terminator.
pub proof fn lemma_emit_one(line: Seq<u8>, terminator: u8)
    ensures
        emit(seq![Some(line)], terminator) == line + seq![terminator],
{
    let none = Seq::<Option<Seq<u8>>>::empty();
    lemma_emit_push(none, Some(line), terminator);
    assert(none.push(Some(line)) =~= seq![Some(line)]);
    assert(emit(none, terminator) + line + seq![terminator] =~= line + seq![terminator]);
}

/// The output for processed lines is that for the first, followed by that
/// for the others.
pub proof fn lemma_emit_front(
    first: Option<Seq<u8>>,
    rest: Seq<Option<Seq<u8>>>,
    terminator: u8,
)
    ensures
        emit(seq![first] + rest, terminator) == emit(seq![first], terminator) + emit(
            rest,
            terminator,
        ),
    decreases rest.len(),
{
    let all = seq![first] + rest;
    if rest.len() == 0 {
        assert(all =~= seq![first]);
        assert(emit(seq![first], terminator) + emit(rest, terminator) =~= emit(
            seq![first],
            terminator,
        ));
    } else {
        assert(all.drop_last() =~= seq![first] + rest.drop_last());
        assert(all.last() == rest.last());
        lemma_emit_front(first, rest.drop_last(), terminator);
        let head = emit(seq![first], terminator);
        let middle = emit(rest.drop_last(), terminator);
        match rest.last() {
            Some(line) => {
                assert((head + middle) + line + seq![terminator] =~= head + (middle + line
                    + seq![terminator]));
            },
            None => {},
        }
    }
}

/// Splitting an input into lines and putting the lines together unchanged
/// gives the input back, with a terminator behind its last line.
pub proof fn lemma_lines_pass(input: Seq<u8>, terminator: u8)
    ensures
        emit(kept(lines_of(input, terminator)), terminator) == normalized(input, terminator),
    decreases input.len(),
{
    let lines = lines_of(input, terminator);
    let k = first_line_len(input, terminator) as int;
    lemma_first_line(input, terminator);
    if input.len() == 0 {
        assert(kept(lines) =~= Seq::<Option<Seq<u8>>>::empty());
    } else if k >= input.len() {
        assert(kept(lines) =~= seq![Some(input)]);
        lemma_emit_one(input, terminator);
        assert(input[input.len() - 1] != terminator);
    } else {
        let line = input.subrange(0, k);
        let rest = input.subrange(k + 1, input.len() as int);
        lemma_lines_pass(rest, terminator);
        assert(kept(lines) =~= seq![Some(line)] + kept(lines_of(rest, terminator)));
        lemma_emit_front(Some(line), kept(lines_of(rest, terminator)), terminator);
        lemma_emit_one(line, terminator);
        if rest.len() > 0 {
            assert(rest.last() == input.last());
        }
        assert(line + seq![terminator] + rest =~= input);
        assert(emit(kept(lines), terminator) =~= normalized(input, terminator));
    }
}

/// Where each line of the input begins and ends: the spans match the lines
/// one for one.
pub open spec fn spans_match_lines(
    input: Seq<u8>,
    spans: Seq<(usize, usize)>,
    lines: Seq<Seq<u8>>,
) -> bool {
    &&& spans.len() == lines.len()
    &&& forall|k: int|
        0 <= k < spans.len() ==> {
            let span = #[trigger] spans[k];
            span.0 <= span.1 <= input.len() && input.subrange(span.0 as int, span.1 as int)
                == lines[k]
        }
}

/// Finds the lines of `input`: for each line, in order, the position of its
/// first byte and the position behind its last.
pub fn split_lines(input: &[u8], terminator: u8) -> (spans: Vec<(usize, usize)>)
    ensures
        spans_match_lines(input@, spans@, lines_of(input@, terminator)),
{
    let mut spans: Vec<(usize, usize)> = Vec::new();
    let ghost mut found: Seq<Seq<u8>> = Seq::empty();
    let mut pos: usize = 0;
    let len = input.len();
    proof {
        assert(input@.skip(0) =~= input@);
        assert(found + lines_of(input@, terminator) =~= lines_of(input@, terminator));
    }
    while pos < len
        invariant
            pos <= len,
            len == input@.len(),
            lines_of(input@, terminator) == found + lines_of(input@.skip(pos as int), terminator),
            spans_match_lines(input@, spans@, found),
        decreases len - pos,
    {
        let ghost rest = input@.skip(pos as int);
        let mut end: usize = pos;
        while end < len && input[end] != terminator
            invariant
                pos <= end <= len,
                len == input@.len(),
                first_line_len(rest, terminator) == (end - pos) + first_line_len(
                    input@.skip(end as int),
                    terminator,
                ),
            decreases len - end,
        {
            proof {
                assert(input@.skip(end as int)[0] == input@[end as int]);
                assert(input@.skip(end as int).drop_first() =~= input@.skip(end + 1));
            }
            end += 1;
        }
        proof {
            if end < len {
                assert(input@.skip(end as int)[0] == input@[end as int]);
            }
            let k = first_line_len(rest, terminator) as int;
            assert(k == end - pos);
            let line = input@.subrange(pos as int, end as int);
            assert(rest.subrange(0, k) =~= line);
            let old_spans = spans@;
            let new_spans = old_spans.push((pos, end));
            let new_found = found.push(line);
            assert forall|j: int| 0 <= j < new_spans.len() implies {
                let span = #[trigger] new_spans[j];
                span.0 <= span.1 <= input@.len() && input@.subrange(span.0 as int, span.1 as int)
                    == new_found[j]
            } by {
                if j < old_spans.len() {
                    assert(old_spans[j] == new_spans[j]);
                }
            }
            if end < len {
                assert(rest.subrange(k + 1, rest.len() as int) =~= input@.skip(end + 1));
                assert(found + (seq![line] + lines_of(input@.skip(end + 1), terminator))
                    =~= new_found + lines_of(input@.skip(end + 1), terminator));
            } else {
                assert(rest =~= line);
                assert(input@.skip(len as int) =~= Seq::<u8>::empty());
                assert(found + seq![line] =~= new_found + lines_of(
                    input@.skip(len as int),
                    terminator,
                ));
            }
            found = new_found;
        }
        spans.push((pos, end));
        if end < len {
            pos = end + 1;
        } else {
            pos = len;
        }
    }
    proof {
        assert(input@.skip(len as int) =~= Seq::<u8>::empty());
        assert(found + Seq::<Seq<u8>>::empty() =~= found);
    }
    spans
}

/// Copies the bytes of `input` from `start` up to `end`.
pub fn copy_span(input: &[u8], start: usize, end: usize) -> (line: Vec<u8>)
    requires
        start <= end <= input@.len(),
    ensures
        line@ == input@.subrange(start as int, end as int),
{
    let mut line: Vec<u8> = Vec::new();
    let mut j: usize = start;
    while j < end
        invariant
            start <= j <= end <= input@.len(),
            line@ == input@.subrange(start as int, j as int),
        decreases end - j,
    {
        line.push(input[j]);
        assert(input@.subrange(start as int, j + 1) =~= input@.subrange(
            start as int,
            j as int,
        ).push(input@[j as int]));
        j += 1;
    }
    line
}

/// Appends a processed line and the terminator to the output.
pub fn emit_line(out: &mut Vec<u8>, line: &[u8], terminator: u8)
    ensures
        final(out)@ == old(out)@ + line@ + seq![terminator],
{
    let ghost before = out@;
    let mut j: usize = 0;
    while j < line.len()
        invariant
            j <= line@.len(),
            out@ == before + line@.subrange(0, j as int),
        decreases line@.len() - j,
    {
        out.push(line[j]);
        assert(line@.subrange(0, j + 1) =~= line@.subrange(0, j as int).push(line@[j as int]));
        j += 1;
    }
    assert(line@.subrange(0, line@.len() as int) =~= line@);
    out.push(terminator);
}

} // verus!
