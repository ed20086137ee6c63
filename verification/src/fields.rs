//! Fields of a line: the parts between delimiters, their selection and
//! their joining.

use crate::range::{MergedRange, Ranges};
use crate::select::{lemma_select_by_positions, select, select_spec, selected_positions};
use vstd::prelude::*;

verus! {

/// The spans lie within `len` units, each ends no earlier than it begins,
/// and each begins no earlier than the one before it ends.
pub open spec fn spans_ordered(spans: Seq<(usize, usize)>, len: int) -> bool {
    &&& forall|k: int|
        0 <= k < spans.len() ==> (#[trigger] spans[k]).0 <= spans[k].1 && spans[k].1 <= len
    &&& forall|k: int| 0 <= k < spans.len() - 1 ==> (#[trigger] spans[k]).1 <= spans[k + 1].0
}

/// Every span is a valid slice of `len` units.
pub open spec fn spans_within(spans: Seq<(usize, usize)>, len: int) -> bool {
    forall|k: int|
        0 <= k < spans.len() ==> (#[trigger] spans[k]).0 <= spans[k].1 && spans[k].1 <= len
}

/// The fields of a line of `len` units: the spans between its delimiters,
/// from the start of the line to the first delimiter, from each delimiter to
/// the next, and from the last to the end. There is one field more than
/// there are delimiters, and a field may be empty.
pub open spec fn field_spans(len: usize, delims: Seq<(usize, usize)>) -> Seq<(usize, usize)> {
    Seq::new(
        delims.len() + 1,
        |k: int|
            (
                if k == 0 {
                    0usize
                } else {
                    delims[k - 1].1
                },
                if k == delims.len() {
                    len
                } else {
                    delims[k].0
                },
            ),
    )
}

/// The given parts of a line, with the joiner between each two.
pub open spec fn joined<T>(line: Seq<T>, parts: Seq<(usize, usize)>, joiner: Seq<T>) -> Seq<T>
    decreases parts.len(),
{
    if parts.len() == 0 {
        Seq::empty()
    } else if parts.len() == 1 {
        line.subrange(parts[0].0 as int, parts[0].1 as int)
    } else {
        joined(line, parts.drop_last(), joiner) + joiner + line.subrange(
            parts.last().0 as int,
            parts.last().1 as int,
        )
    }
}

/// What becomes of a line in field mode. A line without a delimiter is
/// dropped if `suppress` is set and passes unchanged if not; of any other
/// line the selected fields are joined.
pub open spec fn fields_line_spec<T>(
    line: Seq<T>,
    delims: Seq<(usize, usize)>,
    joiner: Seq<T>,
    suppress: bool,
    ranges: Seq<MergedRange>,
) -> Option<Seq<T>> {
    if delims.len() == 0 {
        if suppress {
            None
        } else {
            Some(line)
        }
    } else {
        Some(joined(line, select_spec(field_spans(line.len() as usize, delims), ranges), joiner))
    }
}

/// The mathematical value of an optional vector.
pub open spec fn opt_view<T>(r: Option<Vec<T>>) -> Option<Seq<T>> {
    match r {
        Some(v) => Some(v@),
        None => None,
    }
}

/// The positions of a delimiter character in a text, each as the span of one
/// character.
pub open spec fn literal_delims(text: Seq<char>, delimiter: char) -> Seq<(usize, usize)>
    decreases text.len(),
{
    if text.len() == 0 {
        Seq::empty()
    } else if text.last() == delimiter {
        literal_delims(text.drop_last(), delimiter).push(
            ((text.len() - 1) as usize, text.len() as usize),
        )
    } else {
        literal_delims(text.drop_last(), delimiter)
    }
}

/// A text has a delimiter span exactly if the delimiter occurs in it.
pub proof fn lemma_no_delimiter(text: Seq<char>, delimiter: char)
    ensures
        literal_delims(text, delimiter).len() == 0 <==> !text.contains(delimiter),
    decreases text.len(),
{
    if text.len() > 0 {
        let init = text.drop_last();
        lemma_no_delimiter(init, delimiter);
        if text.last() == delimiter {
            assert(text[text.len() - 1] == delimiter);
        } else if text.contains(delimiter) {
            let j = choose|j: int| 0 <= j < text.len() && text[j] == delimiter;
            assert(init[j] == delimiter);
        }
        if init.contains(delimiter) {
            let j = choose|j: int| 0 <= j < init.len() && init[j] == delimiter;
            assert(text[j] == delimiter);
        }
    }
}

/// The delimiter spans of a text are ordered and lie within the text.
pub proof fn lemma_literal_delims(text: Seq<char>, delimiter: char)
    requires
        text.len() <= usize::MAX,
    ensures
        spans_ordered(literal_delims(text, delimiter), text.len() as int),
    decreases text.len(),
{
    if text.len() > 0 {
        let init = text.drop_last();
        lemma_literal_delims(init, delimiter);
        let prev = literal_delims(init, delimiter);
        let all = literal_delims(text, delimiter);
        if text.last() == delimiter {
            assert forall|k: int| 0 <= k < all.len() - 1 implies (#[trigger] all[k]).1 <= all[k
                + 1].0 by {
                if k + 1 < prev.len() {
                    assert(prev[k].1 <= prev[k + 1].0);
                } else {
                    assert(prev[k].1 <= init.len());
                }
            }
        }
    }
}

/// Finds the occurrences of the delimiter character in a text.
pub fn find_literal_delimiters(text: &[char], delimiter: char) -> (spans: Vec<(usize, usize)>)
    ensures
        spans@ == literal_delims(text@, delimiter),
{
    let mut spans: Vec<(usize, usize)> = Vec::new();
    let mut j: usize = 0;
    assert(text@.subrange(0, 0) =~= Seq::<char>::empty());
    while j < text.len()
        invariant
            j <= text@.len(),
            spans@ == literal_delims(text@.subrange(0, j as int), delimiter),
        decreases text@.len() - j,
    {
        proof {
            let next = text@.subrange(0, j + 1);
            assert(next.drop_last() =~= text@.subrange(0, j as int));
            assert(next.last() == text@[j as int]);
        }
        if text[j] == delimiter {
            spans.push((j, j + 1));
        }
        j += 1;
    }
    assert(text@.subrange(0, text@.len() as int) =~= text@);
    spans
}

/// Computes the fields of a line of `len` units from its delimiters.
pub fn fields_between(len: usize, delims: &[(usize, usize)]) -> (fields: Vec<(usize, usize)>)
    requires
        spans_ordered(delims@, len as int),
    ensures
        fields@ == field_spans(len, delims@),
        spans_within(fields@, len as int),
{
    let mut fields: Vec<(usize, usize)> = Vec::new();
    let mut start: usize = 0;
    let mut k: usize = 0;
    while k < delims.len()
        invariant
            k <= delims@.len(),
            spans_ordered(delims@, len as int),
            fields@.len() == k,
            start == (if k == 0 {
                0usize
            } else {
                delims@[k - 1].1
            }),
            start <= len,
            forall|j: int| 0 <= j < k ==> #[trigger] fields@[j] == field_spans(len, delims@)[j],
            spans_within(fields@, len as int),
        decreases delims@.len() - k,
    {
        let delim = delims[k];
        proof {
            assert(delims@[k as int].0 <= delims@[k as int].1 && delims@[k as int].1 <= len);
            if k > 0 {
                assert(delims@[k - 1].1 <= delims@[k - 1 + 1].0);
            }
        }
        fields.push((start, delim.0));
        start = delim.1;
        k += 1;
    }
    fields.push((start, len));
    assert(fields@ =~= field_spans(len, delims@));
    fields
}

/// Joins the given parts of a line, with the joiner between each two.
pub fn join_fields<T: Copy>(line: &[T], parts: &[(usize, usize)], joiner: &[T]) -> (out: Vec<T>)
    requires
        spans_within(parts@, line@.len() as int),
    ensures
        out@ == joined(line@, parts@, joiner@),
{
    let mut out: Vec<T> = Vec::new();
    let mut k: usize = 0;
    assert(parts@.subrange(0, 0) =~= Seq::<(usize, usize)>::empty());
    while k < parts.len()
        invariant
            k <= parts@.len(),
            spans_within(parts@, line@.len() as int),
            out@ == joined(line@, parts@.subrange(0, k as int), joiner@),
        decreases parts@.len() - k,
    {
        let ghost before = out@;
        if k > 0 {
            append_units(&mut out, joiner, 0, joiner.len());
            assert(joiner@.subrange(0, joiner@.len() as int) =~= joiner@);
        }
        let part = parts[k];
        assert(parts@[k as int].0 <= parts@[k as int].1 && parts@[k as int].1 <= line@.len());
        append_units(&mut out, line, part.0, part.1);
        proof {
            let next = parts@.subrange(0, k + 1);
            assert(next.drop_last() =~= parts@.subrange(0, k as int));
            assert(next.last() == part);
            if k == 0 {
                assert(next[0] == part);
                assert(before + line@.subrange(part.0 as int, part.1 as int) =~= line@.subrange(
                    part.0 as int,
                    part.1 as int,
                ));
            }
        }
        k += 1;
    }
    assert(parts@.subrange(0, parts@.len() as int) =~= parts@);
    out
}

/// Appends the units of `source` from `start` up to `end`.
pub fn append_units<T: Copy>(out: &mut Vec<T>, source: &[T], start: usize, end: usize)
    requires
        start <= end <= source@.len(),
    ensures
        final(out)@ == old(out)@ + source@.subrange(start as int, end as int),
{
    let ghost before = out@;
    let mut j: usize = start;
    assert(before + source@.subrange(start as int, start as int) =~= before);
    while j < end
        invariant
            start <= j <= end <= source@.len(),
            out@ == before + source@.subrange(start as int, j as int),
        decreases end - j,
    {
        out.push(source[j]);
        assert(source@.subrange(start as int, j + 1) =~= source@.subrange(
            start as int,
            j as int,
        ).push(source@[j as int]));
        j += 1;
    }
}

/// Every selected span is one of the spans selected from.
pub proof fn lemma_selected_within(spans: Seq<(usize, usize)>, ranges: Seq<MergedRange>, len: int)
    requires
        spans_within(spans, len),
    ensures
        spans_within(select_spec(spans, ranges), len),
{
    lemma_select_by_positions(spans, ranges);
    let chosen = select_spec(spans, ranges);
    assert forall|k: int| 0 <= k < chosen.len() implies (#[trigger] chosen[k]).0 <= chosen[k].1
        && chosen[k].1 <= len by {
        let p = selected_positions(spans.len() as int, ranges)[k];
        assert(chosen[k] == spans[p]);
    }
}

/// Cuts one line in field mode, given where its delimiters are: drops the
/// line or passes it on unchanged if it has no delimiter, and otherwise
/// selects among its fields and joins them.
pub fn cut_fields_line<T: Copy>(
    line: &[T],
    delims: &[(usize, usize)],
    joiner: &[T],
    suppress: bool,
    ranges: &Ranges,
) -> (r: Option<Vec<T>>)
    requires
        ranges.wf(),
        spans_ordered(delims@, line@.len() as int),
    ensures
        opt_view(r) == fields_line_spec(line@, delims@, joiner@, suppress, ranges@),
{
    if delims.len() == 0 {
        if suppress {
            None
        } else {
            let mut copy: Vec<T> = Vec::new();
            append_units(&mut copy, line, 0, line.len());
            assert(line@.subrange(0, line@.len() as int) =~= line@);
            Some(copy)
        }
    } else {
        let fields = fields_between(line.len(), delims);
        let chosen = select(fields.as_slice(), ranges);
        proof {
            lemma_selected_within(fields@, ranges@, line@.len() as int);
        }
        Some(join_fields(line, chosen.as_slice(), joiner))
    }
}

} // verus!
