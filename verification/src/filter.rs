//! Selection one element at a time: an iterator-like walk over the elements
//! that a canonical list of ranges covers.

use crate::range::{canonical, lemma_canonical_gaps, MergedRange, Ranges};
use crate::select::{clip_hi, clip_lo, lemma_clip_bounds, lemma_select_stops, select_spec};
use vstd::prelude::*;

verus! {

/// Walks over the elements of a slice that the ranges cover, in order.
pub struct RangeFilterIterator<'a, T> {
    /// The elements to select from.
    pub inner: &'a [T],
    /// The position of the next element of `inner` to look at.
    pub next_index: usize,
    /// The ranges that select.
    pub ranges: &'a Ranges,
    /// The index of the range that is being served.
    pub current: usize,
}

/// What is still to come when range `current` is being served and the
/// elements before `next_index` are behind: the rest of that range, then
/// the selection of the ranges after it.
pub open spec fn upcoming_from<T>(
    inner: Seq<T>,
    ranges: Seq<MergedRange>,
    current: int,
    next_index: int,
) -> Seq<T> {
    if 0 <= current < ranges.len() {
        let len = inner.len() as int;
        let r = ranges[current];
        let from = if r.lower() < next_index {
            next_index
        } else {
            r.lower()
        };
        let lo = if from < len {
            from
        } else {
            len
        };
        let hi = if clip_hi(len, r) < lo {
            lo
        } else {
            clip_hi(len, r)
        };
        inner.subrange(lo, hi) + select_spec(inner, ranges.subrange(current + 1, ranges.len() as int))
    } else {
        Seq::empty()
    }
}

/// The selection is that of the first range, followed by that of the others.
pub proof fn lemma_select_front<T>(input: Seq<T>, ranges: Seq<MergedRange>)
    requires
        ranges.len() > 0,
    ensures
        select_spec(input, ranges) == input.subrange(
            clip_lo(input.len() as int, ranges[0]),
            clip_hi(input.len() as int, ranges[0]),
        ) + select_spec(input, ranges.drop_first()),
    decreases ranges.len(),
{
    let len = input.len() as int;
    let first = input.subrange(clip_lo(len, ranges[0]), clip_hi(len, ranges[0]));
    if ranges.len() == 1 {
        assert(ranges.drop_last() =~= Seq::<MergedRange>::empty());
        assert(ranges.drop_first() =~= Seq::<MergedRange>::empty());
        assert(ranges.last() == ranges[0]);
        assert(select_spec(input, ranges) =~= first + select_spec(input, ranges.drop_first()));
    } else {
        let init = ranges.drop_last();
        let last = input.subrange(clip_lo(len, ranges.last()), clip_hi(len, ranges.last()));
        lemma_select_front(input, init);
        assert(init[0] == ranges[0]);
        assert(init.drop_first() =~= ranges.drop_first().drop_last());
        assert(ranges.drop_first().last() == ranges.last());
        assert(select_spec(input, ranges) =~= first + (select_spec(input, init.drop_first())
            + last));
    }
}

/// Ranges of a canonical list behind one that reaches the end of the input
/// select nothing.
pub proof fn lemma_nothing_behind<T>(input: Seq<T>, ranges: Seq<MergedRange>, current: int)
    requires
        canonical(ranges),
        0 <= current < ranges.len(),
        ranges[current].past() >= input.len() || ranges[current] is ToEnd,
    ensures
        select_spec(input, ranges.subrange(current + 1, ranges.len() as int)).len() == 0,
{
    let rest = ranges.subrange(current + 1, ranges.len() as int);
    if rest.len() > 0 {
        lemma_canonical_gaps(ranges, current, current + 1);
        assert forall|k: int| 0 <= k < rest.len() implies #[trigger] rest[k].inhabited() by {
            assert(ranges[current + 1 + k].inhabited());
        }
        assert forall|k: int| 0 <= k < rest.len() - 1 implies #[trigger] rest[k].apart_from(
            rest[k + 1],
        ) by {
            lemma_canonical_gaps(ranges, current + 1 + k, current + 2 + k);
        }
        lemma_select_stops(input, rest, 0);
        assert(rest.subrange(0, 0) =~= Seq::<MergedRange>::empty());
    } else {
        assert(rest =~= Seq::<MergedRange>::empty());
    }
}

/// Moving on to the start of the current range changes nothing of what is
/// to come.
pub proof fn lemma_upcoming_advance<T>(
    inner: Seq<T>,
    ranges: Seq<MergedRange>,
    current: int,
    next_index: int,
)
    requires
        0 <= current < ranges.len(),
        next_index <= ranges[current].lower(),
    ensures
        upcoming_from(inner, ranges, current, ranges[current].lower()) == upcoming_from(
            inner,
            ranges,
            current,
            next_index,
        ),
{
}

/// Within the current range and the input, the next element is the first of
/// what is to come.
pub proof fn lemma_upcoming_yield<T>(
    inner: Seq<T>,
    ranges: Seq<MergedRange>,
    current: int,
    next_index: int,
)
    requires
        0 <= current < ranges.len(),
        ranges[current].covers(next_index),
        next_index < inner.len(),
    ensures
        upcoming_from(inner, ranges, current, next_index) == seq![inner[next_index]]
            + upcoming_from(inner, ranges, current, next_index + 1),
{
    let len = inner.len() as int;
    let r = ranges[current];
    lemma_clip_bounds(len, r);
    let hi = clip_hi(len, r);
    let rest = select_spec(inner, ranges.subrange(current + 1, ranges.len() as int));
    assert(inner.subrange(next_index, hi) =~= seq![inner[next_index]] + inner.subrange(
        next_index + 1,
        hi,
    ));
    assert(inner.subrange(next_index, hi) + rest =~= seq![inner[next_index]] + (inner.subrange(
        next_index + 1,
        hi,
    ) + rest));
}

/// Within the current range but behind the input, nothing is to come.
pub proof fn lemma_upcoming_exhausted<T>(
    inner: Seq<T>,
    ranges: Seq<MergedRange>,
    current: int,
    next_index: int,
)
    requires
        canonical(ranges),
        0 <= current < ranges.len(),
        ranges[current].covers(next_index),
        next_index >= inner.len(),
    ensures
        upcoming_from(inner, ranges, current, next_index).len() == 0,
{
    lemma_clip_bounds(inner.len() as int, ranges[current]);
    lemma_nothing_behind(inner, ranges, current);
}

/// Behind the current range, what is to come is what the next range and
/// those after it select.
pub proof fn lemma_upcoming_skip<T>(
    inner: Seq<T>,
    ranges: Seq<MergedRange>,
    current: int,
    next_index: int,
)
    requires
        canonical(ranges),
        0 <= current < ranges.len(),
        ranges[current].lower() <= next_index,
        ranges[current].past() <= next_index,
        ranges[current] is Closed,
        current + 1 < ranges.len() ==> next_index <= ranges[current + 1].lower(),
    ensures
        upcoming_from(inner, ranges, current, next_index) == upcoming_from(
            inner,
            ranges,
            current + 1,
            next_index,
        ),
{
    let len = inner.len() as int;
    let n = ranges.len() as int;
    let rest = ranges.subrange(current + 1, n);
    lemma_clip_bounds(len, ranges[current]);
    if current + 1 < n {
        lemma_select_front(inner, rest);
        lemma_clip_bounds(len, rest[0]);
        assert(rest[0] == ranges[current + 1]);
        assert(rest.drop_first() =~= ranges.subrange(current + 2, n));
        assert(upcoming_from(inner, ranges, current, next_index) =~= select_spec(inner, rest));
    } else {
        assert(rest =~= Seq::<MergedRange>::empty());
        assert(upcoming_from(inner, ranges, current, next_index) =~= Seq::<T>::empty());
    }
}

impl<'a, T: Copy> RangeFilterIterator<'a, T> {
    /// The invariant of the walk: the ranges are canonical, and the range
    /// behind the current one starts at or behind the next position.
    pub open spec fn wf(&self) -> bool {
        &&& self.ranges.wf()
        &&& self.current <= self.ranges@.len()
        &&& self.current + 1 < self.ranges@.len() ==> self.next_index <= self.ranges@[self.current
            + 1].lower()
    }

    /// The elements that the walk has still to yield.
    pub open spec fn upcoming(&self) -> Seq<T> {
        upcoming_from(self.inner@, self.ranges@, self.current as int, self.next_index as int)
    }

    /// Starts a walk that yields the selection of `ranges` from `inner`.
    pub fn new(inner: &'a [T], ranges: &'a Ranges) -> (it: Self)
        requires
            ranges.wf(),
        ensures
            it.wf(),
            it.inner == inner,
            it.ranges == ranges,
            it.upcoming() == select_spec(inner@, ranges@),
    {
        proof {
            if ranges@.len() > 0 {
                lemma_select_front(inner@, ranges@);
                lemma_clip_bounds(inner@.len() as int, ranges@[0]);
                assert(ranges@.drop_first() =~= ranges@.subrange(1, ranges@.len() as int));
            }
        }
        RangeFilterIterator { inner, next_index: 0, ranges, current: 0 }
    }

    /// Moves on to position `until`, unless the walk is there or beyond.
    pub fn advance_inner(&mut self, until: usize)
        ensures
            final(self).inner == old(self).inner,
            final(self).ranges == old(self).ranges,
            final(self).current == old(self).current,
            final(self).next_index == (if old(self).next_index < until {
                until
            } else {
                old(self).next_index
            }),
    {
        if self.next_index < until {
            self.next_index = until;
        }
    }

    /// Yields the next selected element, or `None` when none is left.
    pub fn next(&mut self) -> (r: Option<T>)
        requires
            old(self).wf(),
        ensures
            final(self).wf(),
            final(self).inner == old(self).inner,
            final(self).ranges == old(self).ranges,
            match r {
                Some(item) => old(self).upcoming() == seq![item] + final(self).upcoming(),
                None => old(self).upcoming().len() == 0 && final(self).upcoming().len() == 0,
            },
    {
        let len = self.inner.len();
        let n = self.ranges.ranges.len();
        loop
            invariant
                self.wf(),
                self.inner == old(self).inner,
                self.ranges == old(self).ranges,
                self.upcoming() == old(self).upcoming(),
                len == self.inner@.len(),
                n == self.ranges@.len(),
            decreases n - self.current,
        {
            if self.current >= n {
                return None;
            }
            let ghost index_before = self.next_index as int;
            let range = self.ranges.ranges[self.current];
            let start = match range {
                MergedRange::Closed(start, _) => start,
                MergedRange::ToEnd(start) => start,
            };
            let within = match range {
                MergedRange::Closed(_, end) => self.next_index <= end,
                MergedRange::ToEnd(_) => true,
            };
            if within {
                self.advance_inner(start);
                proof {
                    assert(self.ranges@[self.current as int].inhabited());
                    if index_before < start {
                        lemma_upcoming_advance(
                            self.inner@,
                            self.ranges@,
                            self.current as int,
                            index_before,
                        );
                    }
                    if self.current + 1 < n {
                        lemma_canonical_gaps(
                            self.ranges@,
                            self.current as int,
                            self.current + 1,
                        );
                    }
                }
                if self.next_index < len {
                    let item = self.inner[self.next_index];
                    proof {
                        lemma_upcoming_yield(
                            self.inner@,
                            self.ranges@,
                            self.current as int,
                            self.next_index as int,
                        );
                    }
                    self.next_index += 1;
                    return Some(item);
                } else {
                    proof {
                        lemma_upcoming_exhausted(
                            self.inner@,
                            self.ranges@,
                            self.current as int,
                            self.next_index as int,
                        );
                    }
                    return None;
                }
            } else {
                proof {
                    assert(self.ranges@[self.current as int].inhabited());
                    lemma_upcoming_skip(
                        self.inner@,
                        self.ranges@,
                        self.current as int,
                        self.next_index as int,
                    );
                    if self.current + 2 < n {
                        lemma_canonical_gaps(self.ranges@, self.current + 1, self.current + 2);
                        assert(self.ranges@[self.current + 1].inhabited());
                    }
                }
                self.current += 1;
            }
        }
    }

    /// Yields all that is left, in order.
    pub fn collect(self) -> (out: Vec<T>)
        requires
            self.wf(),
        ensures
            out@ == self.upcoming(),
    {
        let mut it = self;
        let mut out: Vec<T> = Vec::new();
        let ghost all = it.upcoming();
        assert(out@ + it.upcoming() =~= all);
        loop
            invariant
                it.wf(),
                out@ + it.upcoming() == all,
            ensures
                out@ == all,
            decreases it.upcoming().len(),
        {
            let ghost before = out@;
            let ghost left = it.upcoming();
            match it.next() {
                Some(item) => {
                    out.push(item);
                    assert(out@ + it.upcoming() =~= before + left);
                },
                None => {
                    assert(before + left =~= before);
                    break ;
                },
            }
        }
        out
    }
}

} // verus!
