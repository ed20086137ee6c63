//! Selection of the elements of a sequence that a canonical list of ranges
//! covers.

use crate::range::{canonical, covers, lemma_canonical_gaps, MergedRange, Ranges};
use vstd::prelude::*;

verus! {

/// Where the part of `r` that lies within `len` elements begins.
pub open spec fn clip_lo(len: int, r: MergedRange) -> int {
    if r.lower() < len {
        r.lower()
    } else {
        len
    }
}

/// Where the part of `r` that lies within `len` elements ends (exclusive).
pub open spec fn clip_hi(len: int, r: MergedRange) -> int {
    match r {
        MergedRange::Closed(_, e) => if e + 1 <= clip_lo(len, r) {
            clip_lo(len, r)
        } else if e + 1 < len {
            e + 1
        } else {
            len
        },
        MergedRange::ToEnd(_) => len,
    }
}

/// The positions below `len` that the ranges select, range by range.
pub open spec fn selected_positions(len: int, ranges: Seq<MergedRange>) -> Seq<int>
    decreases ranges.len(),
{
    if ranges.len() == 0 {
        Seq::empty()
    } else {
        let lo = clip_lo(len, ranges.last());
        let hi = clip_hi(len, ranges.last());
        selected_positions(len, ranges.drop_last()) + Seq::new((hi - lo) as nat, |j: int| lo + j)
    }
}

/// The selection: for each range in turn, the elements of `input` at the
/// positions of the range, clipped to the length of `input`.
pub open spec fn select_spec<T>(input: Seq<T>, ranges: Seq<MergedRange>) -> Seq<T>
    decreases ranges.len(),
{
    if ranges.len() == 0 {
        Seq::empty()
    } else {
        select_spec(input, ranges.drop_last()) + input.subrange(
            clip_lo(input.len() as int, ranges.last()),
            clip_hi(input.len() as int, ranges.last()),
        )
    }
}

/// The sum of the lengths of the ranges after clipping to `len`.
pub open spec fn clipped_total(len: int, ranges: Seq<MergedRange>) -> int
    decreases ranges.len(),
{
    if ranges.len() == 0 {
        0
    } else {
        clipped_total(len, ranges.drop_last()) + clip_hi(len, ranges.last()) - clip_lo(
            len,
            ranges.last(),
        )
    }
}

/// The clipped part of a range is a valid slice of `len` elements.
pub proof fn lemma_clip_bounds(len: int, r: MergedRange)
    requires
        0 <= len,
    ensures
        0 <= clip_lo(len, r) <= clip_hi(len, r) <= len,
{
}

/// The selection consists of the elements at the selected positions, in the
/// order of the positions; and it is as long as the clipped ranges together.
pub proof fn lemma_select_by_positions<T>(input: Seq<T>, ranges: Seq<MergedRange>)
    ensures
        select_spec(input, ranges).len() == selected_positions(input.len() as int, ranges).len(),
        select_spec(input, ranges).len() == clipped_total(input.len() as int, ranges),
        forall|j: int|
            0 <= j < select_spec(input, ranges).len() ==> {
                let p = #[trigger] selected_positions(input.len() as int, ranges)[j];
                0 <= p < input.len() && select_spec(input, ranges)[j] == input[p]
            },
    decreases ranges.len(),
{
    if ranges.len() > 0 {
        lemma_select_by_positions(input, ranges.drop_last());
        lemma_clip_bounds(input.len() as int, ranges.last());
    }
}

/// Every selected position is covered by one of the ranges.
pub proof fn lemma_positions_covered(len: int, ranges: Seq<MergedRange>, j: int)
    requires
        0 <= len,
        0 <= j < selected_positions(len, ranges).len(),
    ensures
        covers(ranges, selected_positions(len, ranges)[j]),
        0 <= selected_positions(len, ranges)[j] < len,
    decreases ranges.len(),
{
    let init = ranges.drop_last();
    lemma_clip_bounds(len, ranges.last());
    if j < selected_positions(len, init).len() {
        lemma_positions_covered(len, init, j);
        let p = selected_positions(len, init)[j];
        let k = choose|k: int| 0 <= k < init.len() && #[trigger] init[k].covers(p);
        assert(ranges[k].covers(p));
    } else {
        let p = selected_positions(len, ranges)[j];
        assert(ranges[ranges.len() - 1].covers(p));
    }
}

/// Selection neither reorders nor repeats: under a canonical list of ranges
/// the selected positions ascend strictly.
pub proof fn lemma_positions_ascend(len: int, ranges: Seq<MergedRange>, a: int, b: int)
    requires
        canonical(ranges),
        0 <= len,
        0 <= a < b < selected_positions(len, ranges).len(),
    ensures
        selected_positions(len, ranges)[a] < selected_positions(len, ranges)[b],
    decreases ranges.len(),
{
    let init = ranges.drop_last();
    let n = selected_positions(len, init).len();
    lemma_clip_bounds(len, ranges.last());
    lemma_canonical_init(ranges);
    if b < n {
        lemma_positions_ascend(len, init, a, b);
    } else if a < n {
        lemma_positions_covered(len, init, a);
        let p = selected_positions(len, init)[a];
        let k = choose|k: int| 0 <= k < init.len() && #[trigger] init[k].covers(p);
        lemma_canonical_gaps(ranges, k, ranges.len() - 1);
    }
}

/// Selection omits nothing: under a canonical list of ranges every position
/// below `len` that some range covers is among the selected positions.
pub proof fn lemma_positions_complete(len: int, ranges: Seq<MergedRange>, p: int)
    requires
        canonical(ranges),
        0 <= p < len,
        covers(ranges, p),
    ensures
        selected_positions(len, ranges).contains(p),
    decreases ranges.len(),
{
    let init = ranges.drop_last();
    let lo = clip_lo(len, ranges.last());
    let hi = clip_hi(len, ranges.last());
    let all = selected_positions(len, ranges);
    lemma_clip_bounds(len, ranges.last());
    lemma_canonical_init(ranges);
    assert(ranges[ranges.len() - 1].inhabited());
    if ranges.last().covers(p) {
        let n = selected_positions(len, init).len();
        assert(all[n + (p - lo)] == p);
    } else {
        let k = choose|k: int| 0 <= k < ranges.len() && #[trigger] ranges[k].covers(p);
        assert(init[k].covers(p));
        lemma_positions_complete(len, init, p);
        let j = choose|j: int|
            0 <= j < selected_positions(len, init).len() && selected_positions(len, init)[j] == p;
        assert(all[j] == p);
    }
}

/// A canonical sequence without its last range is canonical.
pub proof fn lemma_canonical_init(rs: Seq<MergedRange>)
    requires
        canonical(rs),
        rs.len() > 0,
    ensures
        canonical(rs.drop_last()),
{
    let init = rs.drop_last();
    assert forall|k: int| 0 <= k < init.len() implies #[trigger] init[k].inhabited() by {
        assert(rs[k].inhabited());
    }
    assert forall|k: int| 0 <= k < init.len() - 1 implies #[trigger] init[k].apart_from(
        init[k + 1],
    ) by {
        lemma_canonical_gaps(rs, k, k + 1);
    }
}

/// Ranges of a canonical list that start at or behind the end of the input
/// contribute nothing: the selection is that of the ranges before them.
pub proof fn lemma_select_stops<T>(input: Seq<T>, ranges: Seq<MergedRange>, k: int)
    requires
        canonical(ranges),
        0 <= k <= ranges.len(),
        k < ranges.len() ==> ranges[k].lower() >= input.len(),
    ensures
        select_spec(input, ranges) == select_spec(input, ranges.subrange(0, k)),
    decreases ranges.len() - k,
{
    if k == ranges.len() {
        assert(ranges.subrange(0, k) =~= ranges);
    } else {
        let init = ranges.drop_last();
        lemma_canonical_init(ranges);
        if k < ranges.len() - 1 {
            lemma_canonical_gaps(ranges, k, ranges.len() - 1);
        }
        assert(clip_lo(input.len() as int, ranges.last()) == input.len());
        assert(clip_hi(input.len() as int, ranges.last()) == input.len());
        assert(select_spec(input, ranges) =~= select_spec(input, init));
        lemma_select_stops(input, init, k);
        assert(init.subrange(0, k) =~= ranges.subrange(0, k));
    }
}

/// Selects from `input` the elements at the positions that `ranges` covers,
/// in their order in `input`. Ranges that reach beyond the input are clipped.
pub fn select<T: Copy>(input: &[T], ranges: &Ranges) -> (out: Vec<T>)
    requires
        ranges.wf(),
    ensures
        out@ == select_spec(input@, ranges@),
{
    let mut out: Vec<T> = Vec::new();
    let n = ranges.ranges.len();
    let len = input.len();
    let mut k: usize = 0;
    let mut finished = false;
    assert(ranges@.subrange(0, 0) =~= Seq::<MergedRange>::empty());
    while k < n && !finished
        invariant
            n == ranges@.len(),
            len == input@.len(),
            k <= n,
            canonical(ranges@),
            !finished ==> out@ == select_spec(input@, ranges@.subrange(0, k as int)),
            finished ==> out@ == select_spec(input@, ranges@),
        decreases n - k + (if finished { 0int } else { 1int }),
    {
        let range = ranges.ranges[k];
        let start = match range {
            MergedRange::Closed(start, _) => start,
            MergedRange::ToEnd(start) => start,
        };
        if start >= len {
            proof {
                lemma_select_stops(input@, ranges@, k as int);
            }
            finished = true;
        } else {
            let stop = match range {
                MergedRange::Closed(_, end) => if end < len - 1 {
                    end + 1
                } else {
                    len
                },
                MergedRange::ToEnd(_) => len,
            };
            let ghost base = out@;
            proof {
                assert(ranges@[k as int].inhabited());
                assert(start == clip_lo(len as int, range));
                assert(stop == clip_hi(len as int, range));
            }
            let mut j: usize = start;
            while j < stop
                invariant
                    start <= j <= stop <= len,
                    len == input@.len(),
                    out@ == base + input@.subrange(start as int, j as int),
                decreases stop - j,
            {
                out.push(input[j]);
                assert(input@.subrange(start as int, j + 1) =~= input@.subrange(
                    start as int,
                    j as int,
                ).push(input@[j as int]));
                j += 1;
            }
            proof {
                let pre = ranges@.subrange(0, k + 1);
                assert(pre.drop_last() =~= ranges@.subrange(0, k as int));
                assert(pre.last() == range);
            }
            k += 1;
        }
    }
    assert(!finished ==> ranges@.subrange(0, k as int) =~= ranges@);
    out
}

} // verus!
