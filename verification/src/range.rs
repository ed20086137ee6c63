//! Ranges of positions: the shapes a user writes, their merged form, and the
//! canonical list of merged ranges with its complement.

use vstd::prelude::*;
use vstd::seq_lib::*;

verus! {

/// A closed range whose start does not exceed its end.
#[derive(Debug, Clone, Copy, PartialEq, Eq)]
pub struct IncreasingRange {
    pub start: usize,
    pub end: usize,
}

impl IncreasingRange {
    /// Creates the range `[start, end]`.
    pub fn new(start: usize, end: usize) -> (r: IncreasingRange)
        requires
            start <= end,
        ensures
            r.start == start,
            r.end == end,
    {
        IncreasingRange { start, end }
    }
}

/// One range as written by the user, with 0-based positions.
#[derive(Debug, Clone, Copy, PartialEq, Eq)]
pub enum CutRange {
    /// A single element.
    Unit(usize),
    /// A closed range of elements.
    Closed(IncreasingRange),
    /// All elements from the start up to and including the given end.
    FromStart(usize),
    /// All elements from the given start on.
    ToEnd(usize),
}

impl CutRange {
    /// A closed range must be increasing; the other shapes are always valid.
    pub open spec fn wf(self) -> bool {
        match self {
            CutRange::Closed(r) => r.start <= r.end,
            _ => true,
        }
    }

    /// The positions that the range selects.
    pub open spec fn covers(self, i: int) -> bool {
        match self {
            CutRange::Unit(n) => i == n,
            CutRange::Closed(r) => r.start <= i <= r.end,
            CutRange::FromStart(e) => 0 <= i <= e,
            CutRange::ToEnd(s) => s <= i,
        }
    }

    /// The merged range that selects the same positions.
    pub open spec fn merged(self) -> MergedRange {
        match self {
            CutRange::Unit(n) => MergedRange::Closed(n, n),
            CutRange::Closed(r) => MergedRange::Closed(r.start, r.end),
            CutRange::FromStart(e) => MergedRange::Closed(0, e),
            CutRange::ToEnd(s) => MergedRange::ToEnd(s),
        }
    }

    /// The range can be written down: no position that it names is the
    /// largest representable one, so each has a 1-based number.
    pub open spec fn writable(self) -> bool {
        match self {
            CutRange::Unit(n) => n < usize::MAX,
            CutRange::Closed(r) => r.end < usize::MAX,
            CutRange::FromStart(e) => e < usize::MAX,
            CutRange::ToEnd(s) => s < usize::MAX,
        }
    }
}

/// A normalized interval of 0-based positions: closed, or unbounded above.
#[derive(Copy, Clone, Debug, PartialEq, Eq, Structural)]
pub enum MergedRange {
    Closed(usize, usize),
    ToEnd(usize),
}

impl MergedRange {
    /// The first position of the range.
    pub open spec fn lower(self) -> int {
        match self {
            MergedRange::Closed(s, _) => s as int,
            MergedRange::ToEnd(s) => s as int,
        }
    }

    /// The positions that the range selects.
    pub open spec fn covers(self, i: int) -> bool {
        match self {
            MergedRange::Closed(s, e) => s <= i <= e,
            MergedRange::ToEnd(s) => s <= i,
        }
    }

    /// A closed range ends below the largest representable position.
    pub open spec fn below_max(self) -> bool {
        match self {
            MergedRange::Closed(_, e) => e < usize::MAX,
            MergedRange::ToEnd(_) => true,
        }
    }

    /// The range can be written down: it is inhabited, and no position that
    /// it names is the largest representable one, so each has a 1-based
    /// number.
    pub open spec fn writable(self) -> bool {
        match self {
            MergedRange::Closed(s, e) => s <= e < usize::MAX,
            MergedRange::ToEnd(s) => s < usize::MAX,
        }
    }

    /// A closed range selects at least one position.
    pub open spec fn inhabited(self) -> bool {
        match self {
            MergedRange::Closed(s, e) => s <= e,
            MergedRange::ToEnd(_) => true,
        }
    }

    /// `self` is closed and `next` starts beyond the position that follows
    /// its end, so the two neither overlap nor touch.
    pub open spec fn apart_from(self, next: MergedRange) -> bool {
        self.ends_below(next.lower())
    }

    /// `self` is closed, and the position that follows its end is below
    /// `bound`.
    pub open spec fn ends_below(self, bound: int) -> bool {
        match self {
            MergedRange::Closed(_, e) => e + 1 < bound,
            MergedRange::ToEnd(_) => false,
        }
    }

    /// The position that follows the end of a closed range.
    pub open spec fn past(self) -> int {
        match self {
            MergedRange::Closed(_, e) => e + 1,
            MergedRange::ToEnd(s) => s as int,
        }
    }

    /// The total order on merged ranges: by start; for equal starts a closed
    /// range with the smaller end comes first, and an unbounded range comes
    /// after every closed one.
    pub open spec fn at_most(self, other: MergedRange) -> bool {
        match (self, other) {
            (MergedRange::ToEnd(s1), MergedRange::ToEnd(s2)) => s1 <= s2,
            (MergedRange::Closed(s1, e1), MergedRange::Closed(s2, e2)) => s1 < s2 || (s1 == s2
                && e1 <= e2),
            (MergedRange::ToEnd(s1), MergedRange::Closed(s2, _)) => s1 < s2,
            (MergedRange::Closed(s1, _), MergedRange::ToEnd(s2)) => s1 <= s2,
        }
    }

    /// Converts a user-written range to the merged range that selects the
    /// same positions.
    pub fn from_cut_range(range: &CutRange) -> (m: MergedRange)
        ensures
            m == range.merged(),
    {
        match *range {
            CutRange::FromStart(end) => MergedRange::Closed(0usize, end),
            CutRange::Unit(n) => MergedRange::Closed(n, n),
            CutRange::ToEnd(start) => MergedRange::ToEnd(start),
            CutRange::Closed(IncreasingRange { start, end }) => MergedRange::Closed(start, end),
        }
    }

    /// Decides the total order: `self` comes before `other` or equals it.
    pub fn le(&self, other: &MergedRange) -> (b: bool)
        ensures
            b == self.at_most(*other),
    {
        match (*self, *other) {
            (MergedRange::ToEnd(s1), MergedRange::ToEnd(s2)) => s1 <= s2,
            (MergedRange::Closed(s1, e1), MergedRange::Closed(s2, e2)) => s1 < s2 || (s1 == s2
                && e1 <= e2),
            (MergedRange::ToEnd(s1), MergedRange::Closed(s2, _)) => s1 < s2,
            (MergedRange::Closed(s1, _), MergedRange::ToEnd(s2)) => s1 <= s2,
        }
    }
}

impl From<&CutRange> for MergedRange {
    fn from(range: &CutRange) -> (m: MergedRange) {
        MergedRange::from_cut_range(range)
    }
}

impl vstd::std_specs::convert::FromSpecImpl<&CutRange> for MergedRange {
    open spec fn obeys_from_spec() -> bool {
        true
    }

    open spec fn from_spec(range: &CutRange) -> MergedRange {
        range.merged()
    }
}

/// Some range of the sequence selects position `i`.
pub open spec fn covers(rs: Seq<MergedRange>, i: int) -> bool {
    exists|k: int| 0 <= k < rs.len() && #[trigger] rs[k].covers(i)
}

/// Some range of the sequence selects position `i`.
pub open spec fn cut_covers(rs: Seq<CutRange>, i: int) -> bool {
    exists|k: int| 0 <= k < rs.len() && #[trigger] rs[k].covers(i)
}

/// The sequence is in canonical form: every closed range is inhabited, and
/// each range but the last is closed and ends at least two positions before
/// the next one starts. Hence the ranges are strictly ascending by start, no
/// two overlap or touch, and only the last can be unbounded.
pub open spec fn canonical(rs: Seq<MergedRange>) -> bool {
    &&& forall|k: int| 0 <= k < rs.len() ==> #[trigger] rs[k].inhabited()
    &&& forall|k: int| 0 <= k < rs.len() - 1 ==> #[trigger] rs[k].apart_from(rs[k + 1])
}

/// Every closed range ends below the largest representable position.
pub open spec fn below_max(rs: Seq<MergedRange>) -> bool {
    forall|k: int| 0 <= k < rs.len() ==> #[trigger] rs[k].below_max()
}

/// Every range is valid.
pub open spec fn cut_wf(rs: Seq<CutRange>) -> bool {
    forall|k: int| 0 <= k < rs.len() ==> #[trigger] rs[k].wf()
}

/// Every range can be written down.
pub open spec fn cut_writable(rs: Seq<CutRange>) -> bool {
    forall|k: int| 0 <= k < rs.len() ==> #[trigger] rs[k].writable()
}

/// Every range can be written down.
pub open spec fn writable(rs: Seq<MergedRange>) -> bool {
    forall|k: int| 0 <= k < rs.len() ==> #[trigger] rs[k].writable()
}

/// `b` selects exactly the positions, from 0 on, that `a` does not select.
pub open spec fn complements(a: Seq<MergedRange>, b: Seq<MergedRange>) -> bool {
    forall|i: int| covers(b, i) <==> (0 <= i && !covers(a, i))
}

/// The sequence ascends in the total order on merged ranges.
pub open spec fn ascending(rs: Seq<MergedRange>) -> bool {
    forall|i: int, j: int| 0 <= i < j < rs.len() ==> #[trigger] rs[i].at_most(rs[j])
}

/// In a canonical sequence every later range starts at least two positions
/// after an earlier range ends.
pub proof fn lemma_canonical_gaps(rs: Seq<MergedRange>, i: int, j: int)
    requires
        canonical(rs),
        0 <= i < j < rs.len(),
    ensures
        rs[i].apart_from(rs[j]),
        rs[i].lower() < rs[j].lower(),
    decreases j - i,
{
    assert(rs[i].inhabited());
    assert(rs[i].apart_from(rs[i + 1]));
    if i + 1 < j {
        lemma_canonical_gaps(rs, i + 1, j);
        assert(rs[i + 1].inhabited());
    }
}

/// Dropping the first range of a canonical sequence leaves a canonical
/// sequence, which selects what the whole selects beyond the first range.
pub proof fn lemma_canonical_tail(rs: Seq<MergedRange>)
    requires
        canonical(rs),
        rs.len() > 0,
    ensures
        canonical(rs.subrange(1, rs.len() as int)),
        forall|i: int|
            covers(rs.subrange(1, rs.len() as int), i) <==> (covers(rs, i) && !rs[0].covers(i)),
{
    let tail = rs.subrange(1, rs.len() as int);
    assert forall|k: int| 0 <= k < tail.len() implies #[trigger] tail[k].inhabited() by {
        assert(rs[k + 1].inhabited());
    }
    assert forall|k: int| 0 <= k < tail.len() - 1 implies #[trigger] tail[k].apart_from(
        tail[k + 1],
    ) by {
        lemma_canonical_gaps(rs, k + 1, k + 2);
    }
    assert forall|i: int| covers(tail, i) <==> (covers(rs, i) && !rs[0].covers(i)) by {
        if covers(tail, i) {
            let k = choose|k: int| 0 <= k < tail.len() && #[trigger] tail[k].covers(i);
            assert(rs[k + 1].covers(i));
            lemma_canonical_gaps(rs, 0, k + 1);
        }
        if covers(rs, i) && !rs[0].covers(i) {
            let k = choose|k: int| 0 <= k < rs.len() && #[trigger] rs[k].covers(i);
            assert(tail[k - 1].covers(i));
        }
    }
}

/// The canonical form is unique: two canonical sequences that select the
/// same positions are the same sequence.
pub proof fn lemma_canonical_unique(a: Seq<MergedRange>, b: Seq<MergedRange>)
    requires
        canonical(a),
        canonical(b),
        forall|i: int| covers(a, i) <==> covers(b, i),
    ensures
        a == b,
    decreases a.len(),
{
    if a.len() == 0 {
        if b.len() > 0 {
            assert(b[0].inhabited());
            assert(b[0].covers(b[0].lower()));
            assert(covers(b, b[0].lower()));
        }
        assert(a =~= b);
    } else if b.len() == 0 {
        assert(a[0].inhabited());
        assert(a[0].covers(a[0].lower()));
        assert(covers(a, a[0].lower()));
    } else {
        lemma_first_range_determined(a, b);
        lemma_canonical_tail(a);
        lemma_canonical_tail(b);
        let ta = a.subrange(1, a.len() as int);
        let tb = b.subrange(1, b.len() as int);
        assert forall|i: int| covers(ta, i) <==> covers(tb, i) by {
            assert(covers(a, i) <==> covers(b, i));
        }
        lemma_canonical_unique(ta, tb);
        assert(a =~= seq![a[0]] + ta);
        assert(b =~= seq![b[0]] + tb);
    }
}

/// The first position that a non-empty canonical sequence selects is the
/// start of its first range, and the first range selects it.
proof fn lemma_first_covered(rs: Seq<MergedRange>, i: int)
    requires
        canonical(rs),
        rs.len() > 0,
    ensures
        covers(rs, rs[0].lower()),
        covers(rs, i) ==> rs[0].lower() <= i,
        covers(rs, i) && !rs[0].covers(i) ==> (rs[0] matches MergedRange::Closed(_, e) && e + 1
            < i),
{
    assert(rs[0].inhabited());
    assert(rs[0].covers(rs[0].lower()));
    if covers(rs, i) {
        let k = choose|k: int| 0 <= k < rs.len() && #[trigger] rs[k].covers(i);
        if k > 0 {
            lemma_canonical_gaps(rs, 0, k);
        }
    }
}

/// Two canonical sequences that select the same positions start with the
/// same range.
proof fn lemma_first_range_determined(a: Seq<MergedRange>, b: Seq<MergedRange>)
    requires
        canonical(a),
        canonical(b),
        a.len() > 0,
        b.len() > 0,
        forall|i: int| covers(a, i) <==> covers(b, i),
    ensures
        a[0] == b[0],
{
    lemma_first_covered(a, b[0].lower());
    lemma_first_covered(b, a[0].lower());
    assert(a[0].lower() == b[0].lower());
    assert(a[0].inhabited());
    assert(b[0].inhabited());
    match (a[0], b[0]) {
        (MergedRange::Closed(s1, e1), MergedRange::Closed(s2, e2)) => {
            if e1 < e2 {
                assert(b[0].covers(e1 + 1));
                assert(covers(b, e1 + 1));
                lemma_first_covered(a, e1 + 1);
            } else if e2 < e1 {
                assert(a[0].covers(e2 + 1));
                assert(covers(a, e2 + 1));
                lemma_first_covered(b, e2 + 1);
            }
        },
        (MergedRange::Closed(s1, e1), MergedRange::ToEnd(s2)) => {
            assert(b[0].covers(e1 + 1));
            assert(covers(b, e1 + 1));
            lemma_first_covered(a, e1 + 1);
        },
        (MergedRange::ToEnd(s1), MergedRange::Closed(s2, e2)) => {
            assert(a[0].covers(e2 + 1));
            assert(covers(a, e2 + 1));
            lemma_first_covered(b, e2 + 1);
        },
        (MergedRange::ToEnd(s1), MergedRange::ToEnd(s2)) => {},
    }
}

/// The order on merged ranges is total.
pub proof fn lemma_order_total(a: MergedRange, b: MergedRange)
    ensures
        a.at_most(b) || b.at_most(a),
{
}

/// The order on merged ranges is transitive.
pub proof fn lemma_order_transitive(a: MergedRange, b: MergedRange, c: MergedRange)
    requires
        a.at_most(b),
        b.at_most(c),
    ensures
        a.at_most(c),
{
}

/// Two sequences with the same elements select the same positions.
pub proof fn lemma_same_elements_cover(a: Seq<MergedRange>, b: Seq<MergedRange>)
    requires
        a.to_multiset() == b.to_multiset(),
    ensures
        forall|i: int| covers(a, i) <==> covers(b, i),
        forall|r: MergedRange| a.contains(r) <==> b.contains(r),
{
    broadcast use to_multiset_contains;

    assert forall|r: MergedRange| a.contains(r) <==> b.contains(r) by {
        assert(a.contains(r) <==> a.to_multiset().count(r) > 0);
        assert(b.contains(r) <==> b.to_multiset().count(r) > 0);
    }
    assert forall|i: int| covers(a, i) <==> covers(b, i) by {
        if covers(a, i) {
            let k = choose|k: int| 0 <= k < a.len() && #[trigger] a[k].covers(i);
            assert(a.contains(a[k]));
            let j = choose|j: int| 0 <= j < b.len() && b[j] == a[k];
            assert(b[j].covers(i));
        }
        if covers(b, i) {
            let k = choose|k: int| 0 <= k < b.len() && #[trigger] b[k].covers(i);
            assert(b.contains(b[k]));
            let j = choose|j: int| 0 <= j < a.len() && a[j] == b[k];
            assert(a[j].covers(i));
        }
    }
}

/// Appending a range adds exactly the positions that it selects.
pub proof fn lemma_covers_push(rs: Seq<MergedRange>, r: MergedRange)
    ensures
        forall|i: int|
            #![trigger covers(rs.push(r), i)]
            covers(rs.push(r), i) <==> (covers(rs, i) || r.covers(i)),
{
    let ext = rs.push(r);
    assert forall|i: int|
        #![trigger covers(ext, i)]
        covers(ext, i) <==> (covers(rs, i) || r.covers(i)) by {
        if covers(rs, i) {
            let k = choose|k: int| 0 <= k < rs.len() && #[trigger] rs[k].covers(i);
            assert(ext[k].covers(i));
        }
        if r.covers(i) {
            assert(ext[rs.len() as int].covers(i));
        }
        if covers(ext, i) {
            let k = choose|k: int| 0 <= k < ext.len() && #[trigger] ext[k].covers(i);
            if k < rs.len() {
                assert(rs[k].covers(i));
            }
        }
    }
}

/// A prefix that is one range longer selects the positions of that range in
/// addition.
proof fn lemma_covers_prefix_step(rs: Seq<MergedRange>, n: int)
    requires
        0 <= n < rs.len(),
    ensures
        forall|i: int|
            #![trigger covers(rs.subrange(0, n + 1), i)]
            covers(rs.subrange(0, n + 1), i) <==> (covers(rs.subrange(0, n), i) || rs[n].covers(i)),
{
    lemma_covers_push(rs.subrange(0, n), rs[n]);
    assert(rs.subrange(0, n).push(rs[n]) =~= rs.subrange(0, n + 1));
    assert forall|i: int|
        #![trigger covers(rs.subrange(0, n + 1), i)]
        covers(rs.subrange(0, n + 1), i) <==> (covers(rs.subrange(0, n), i) || rs[n].covers(
            i,
        )) by {
        assert(covers(rs.subrange(0, n).push(rs[n]), i) <==> (covers(rs.subrange(0, n), i)
            || rs[n].covers(i)));
    }
}

/// What lies behind a prefix of an ascending sequence starts no earlier than
/// any bound that the ranges behind it respect.
proof fn lemma_covers_beyond_prefix(rs: Seq<MergedRange>, n: int, bound: int)
    requires
        0 <= n <= rs.len(),
        forall|j: int| n <= j < rs.len() ==> bound <= (#[trigger] rs[j]).lower(),
    ensures
        forall|i: int|
            #![trigger covers(rs.subrange(0, n), i)]
            covers(rs.subrange(0, n), i) ==> covers(rs, i),
        forall|i: int|
            #![trigger covers(rs, i)]
            covers(rs, i) ==> covers(rs.subrange(0, n), i) || bound <= i,
{
    let pre = rs.subrange(0, n);
    assert forall|i: int| covers(pre, i) implies covers(rs, i) by {
        let m = choose|m: int| 0 <= m < pre.len() && #[trigger] pre[m].covers(i);
        assert(rs[m].covers(i));
    }
    assert forall|i: int| covers(rs, i) implies covers(pre, i) || bound <= i by {
        let m = choose|m: int| 0 <= m < rs.len() && #[trigger] rs[m].covers(i);
        if m < n {
            assert(pre[m].covers(i));
        } else {
            assert(bound <= rs[m].lower());
        }
    }
}

/// A canonical sequence stays canonical when an inhabited range is appended
/// that lies apart from its last range.
proof fn lemma_canonical_push(rs: Seq<MergedRange>, r: MergedRange)
    requires
        canonical(rs),
        r.inhabited(),
        rs.len() > 0 ==> rs.last().apart_from(r),
    ensures
        canonical(rs.push(r)),
{
    let ext = rs.push(r);
    assert forall|k: int| 0 <= k < ext.len() implies #[trigger] ext[k].inhabited() by {
        if k < rs.len() {
            assert(rs[k].inhabited());
        }
    }
    assert forall|k: int| 0 <= k < ext.len() - 1 implies #[trigger] ext[k].apart_from(
        ext[k + 1],
    ) by {
        if k < rs.len() - 1 {
            assert(rs[k].apart_from(rs[k + 1]));
        }
    }
}

/// Ranges that can be written down end below the largest position.
pub proof fn lemma_writable_below_max(rs: Seq<MergedRange>)
    requires
        writable(rs),
    ensures
        below_max(rs),
{
    assert forall|k: int| 0 <= k < rs.len() implies #[trigger] rs[k].below_max() by {
        assert(rs[k].writable());
    }
}

/// Appending a range that can be written down keeps that property of the
/// sequence.
proof fn lemma_writable_push(rs: Seq<MergedRange>, r: MergedRange)
    requires
        writable(rs),
        r.writable(),
    ensures
        writable(rs.push(r)),
{
    let ext = rs.push(r);
    assert forall|k: int| 0 <= k < ext.len() implies #[trigger] ext[k].writable() by {
        if k < rs.len() {
            assert(rs[k].writable());
        }
    }
}

/// Appending a range that ends below the largest position keeps that
/// property of the sequence.
proof fn lemma_below_max_push(rs: Seq<MergedRange>, r: MergedRange)
    requires
        below_max(rs),
        r.below_max(),
    ensures
        below_max(rs.push(r)),
{
    let ext = rs.push(r);
    assert forall|k: int| 0 <= k < ext.len() implies #[trigger] ext[k].below_max() by {
        if k < rs.len() {
            assert(rs[k].below_max());
        }
    }
}

/// A canonical sequence selects no position below the start of its range
/// `k` that lies at or behind the end of the range before it.
proof fn lemma_gap_uncovered(rs: Seq<MergedRange>, k: int, p: int)
    requires
        canonical(rs),
        0 <= k <= rs.len(),
        k > 0 ==> rs[k - 1].ends_below(p + 1),
        k < rs.len() ==> p < rs[k].lower(),
    ensures
        !covers(rs, p),
{
    if covers(rs, p) {
        let m = choose|m: int| 0 <= m < rs.len() && #[trigger] rs[m].covers(p);
        if m < k - 1 {
            lemma_canonical_gaps(rs, m, k - 1);
            assert(rs[k - 1].inhabited());
        } else if m > k {
            lemma_canonical_gaps(rs, k, m);
        }
    }
}

/// One step of taking the complement: with everything below `from` settled in
/// `acc`, appending the gap in front of range `k`, if there is one, settles
/// everything up to the end of that range.
proof fn lemma_complement_step(
    rs: Seq<MergedRange>,
    k: int,
    acc: Seq<MergedRange>,
    from: usize,
    ext: Seq<MergedRange>,
)
    requires
        canonical(rs),
        0 <= k < rs.len(),
        k == 0 ==> from == 0,
        k > 0 ==> rs[k - 1] is Closed && from == rs[k - 1].past(),
        forall|p: int| #![trigger covers(acc, p)] covers(acc, p) <==> (0 <= p < from && !covers(rs, p)),
        rs[k].lower() == 0 ==> ext == acc,
        rs[k].lower() != 0 ==> ext == acc.push(
            MergedRange::Closed(from, (rs[k].lower() - 1) as usize),
        ),
    ensures
        from <= rs[k].lower(),
        rs[k].lower() != 0 ==> from < rs[k].lower(),
        forall|p: int|
            #![trigger covers(ext, p)]
            covers(ext, p) <==> (0 <= p && (rs[k] is ToEnd || p < rs[k].past()) && !covers(rs, p)),
{
    let start = rs[k].lower();
    assert(rs[k].inhabited());
    if k > 0 {
        lemma_canonical_gaps(rs, k - 1, k);
    }
    if start != 0 {
        lemma_covers_push(acc, MergedRange::Closed(from, (start - 1) as usize));
    }
    assert forall|p: int|
        #![trigger covers(ext, p)]
        covers(ext, p) <==> (0 <= p && (rs[k] is ToEnd || p < rs[k].past()) && !covers(
            rs,
            p,
        )) by {
        assert(covers(acc, p) <==> (0 <= p < from && !covers(rs, p)));
        if from <= p < start {
            lemma_gap_uncovered(rs, k, p);
        }
        if start <= p && (rs[k] is ToEnd || p < rs[k].past()) {
            assert(rs[k].covers(p));
        }
    }
}

/// Sorts merged ranges into ascending order by insertion. The result holds
/// the same ranges, each as often as the input does.
pub fn sort_ranges(v: Vec<MergedRange>) -> (out: Vec<MergedRange>)
    ensures
        ascending(out@),
        out@.to_multiset() == v@.to_multiset(),
        out@.len() == v@.len(),
{
    let mut out: Vec<MergedRange> = Vec::new();
    let mut i: usize = 0;
    assert(v@.subrange(0, 0) =~= out@);
    while i < v.len()
        invariant
            i <= v.len(),
            ascending(out@),
            out@.to_multiset() == v@.subrange(0, i as int).to_multiset(),
            out@.len() == i,
        decreases v.len() - i,
    {
        let x = v[i];
        let mut p: usize = 0;
        while p < out.len() && out[p].le(&x)
            invariant
                p <= out.len(),
                forall|j: int| 0 <= j < p ==> (#[trigger] out@[j]).at_most(x),
            decreases out.len() - p,
        {
            p += 1;
        }
        let ghost before = out@;
        proof {
            assert forall|j: int| p <= j < before.len() implies x.at_most(#[trigger] before[j]) by {
                lemma_order_total(before[p as int], x);
                if p < j {
                    assert(before[p as int].at_most(before[j]));
                }
                lemma_order_transitive(x, before[p as int], before[j]);
            }
        }
        out.insert(p, x);
        proof {
            let after = before.insert(p as int, x);
            to_multiset_insert(before, p as int, x);
            to_multiset_build(v@.subrange(0, i as int), x);
            assert forall|a: int, b: int| 0 <= a < b < after.len() implies #[trigger] after[a].at_most(
                after[b],
            ) by {
                if a < p && b > p {
                    assert(before[a].at_most(before[b - 1]));
                } else if a < p && b < p {
                    assert(before[a].at_most(before[b]));
                } else if a > p {
                    assert(before[a - 1].at_most(before[b - 1]));
                }
            }
            assert(v@.subrange(0, i + 1) =~= v@.subrange(0, i as int).push(x));
        }
        i += 1;
    }
    assert(v@.subrange(0, v@.len() as int) =~= v@);
    out
}

/// A canonical list of merged ranges.
#[derive(Debug, Clone, PartialEq, Eq)]
pub struct Ranges {
    pub ranges: Vec<MergedRange>,
}

impl View for Ranges {
    type V = Seq<MergedRange>;

    open spec fn view(&self) -> Seq<MergedRange> {
        self.ranges@
    }
}

impl Ranges {
    /// The invariant of the type: the list is in canonical form.
    pub open spec fn wf(&self) -> bool {
        canonical(self@)
    }

    /// The list selects position `i`.
    pub open spec fn contains(&self, i: int) -> bool {
        covers(self@, i)
    }

    /// Decides whether the list is in canonical form.
    pub fn is_canonical(&self) -> (b: bool)
        ensures
            b == self.wf(),
    {
        let n = self.ranges.len();
        let mut k: usize = 0;
        while k < n
            invariant
                n == self@.len(),
                k <= n,
                forall|j: int| 0 <= j < k ==> #[trigger] self@[j].inhabited(),
                forall|j: int| 0 <= j < k && j < n - 1 ==> #[trigger] self@[j].apart_from(self@[j + 1]),
            decreases n - k,
        {
            let fits = match self.ranges[k] {
                MergedRange::Closed(s, e) => {
                    if k + 1 < n {
                        let next_start = match self.ranges[k + 1] {
                            MergedRange::Closed(s2, _) => s2,
                            MergedRange::ToEnd(s2) => s2,
                        };
                        s <= e && next_start > 0 && e < next_start - 1
                    } else {
                        s <= e
                    }
                },
                MergedRange::ToEnd(_) => k + 1 == n,
            };
            if !fits {
                proof {
                    if self@[k as int].inhabited() {
                        assert(k < n - 1 && !self@[k as int].apart_from(self@[k + 1]));
                    }
                }
                return false;
            }
            k += 1;
        }
        true
    }

    /// Builds the canonical list that selects exactly the positions that the
    /// given ranges select together: converts each range, sorts them, and
    /// merges those that overlap or touch.
    pub fn from_ranges(ranges: &[CutRange]) -> (r: Ranges)
        requires
            cut_wf(ranges@),
        ensures
            r.wf(),
            forall|i: int|
                #![trigger r.contains(i)]
                #![trigger cut_covers(ranges@, i)]
                r.contains(i) <==> cut_covers(ranges@, i),
            cut_writable(ranges@) ==> writable(r@) && below_max(r@),
            ranges@.len() == 0 <==> r@.len() == 0,
    {
        if ranges.len() == 0 {
            return Ranges { ranges: Vec::new() };
        }
        let mut converted: Vec<MergedRange> = Vec::new();
        let mut k: usize = 0;
        while k < ranges.len()
            invariant
                k <= ranges.len(),
                converted@.len() == k,
                forall|j: int| 0 <= j < k ==> #[trigger] converted@[j] == ranges@[j].merged(),
            decreases ranges.len() - k,
        {
            converted.push(MergedRange::from_cut_range(&ranges[k]));
            k += 1;
        }
        let ghost unsorted = converted@;
        let sorted = sort_ranges(converted);
        proof {
            lemma_same_elements_cover(sorted@, unsorted);
            assert forall|j: int| 0 <= j < sorted@.len() implies (#[trigger] sorted@[j].inhabited())
                && (cut_writable(ranges@) ==> sorted@[j].writable()) by {
                assert(sorted@.contains(sorted@[j]));
                let m = choose|m: int| 0 <= m < unsorted.len() && unsorted[m] == sorted@[j];
                assert(unsorted[m] == ranges@[m].merged());
                assert(ranges@[m].wf());
                if cut_writable(ranges@) {
                    assert(ranges@[m].writable());
                }
            }
            if cut_writable(ranges@) {
                assert forall|j: int|
                    0 <= j < sorted@.len() implies #[trigger] sorted@[j].writable() by {
                    assert(sorted@[j].inhabited());
                }
            }
            assert forall|i: int| covers(unsorted, i) <==> cut_covers(ranges@, i) by {
                if covers(unsorted, i) {
                    let m = choose|m: int| 0 <= m < unsorted.len() && #[trigger] unsorted[m].covers(i);
                    assert(unsorted[m] == ranges@[m].merged());
                    assert(ranges@[m].covers(i));
                }
                if cut_covers(ranges@, i) {
                    let m = choose|m: int| 0 <= m < ranges@.len() && #[trigger] ranges@[m].covers(i);
                    assert(unsorted[m] == ranges@[m].merged());
                    assert(unsorted[m].covers(i));
                }
            }
        }
        let ghost bounded = cut_writable(ranges@);
        let mut result: Vec<MergedRange> = Vec::new();
        let mut chain = sorted[0];
        let mut i: usize = 1;
        let mut absorbing = false;
        proof {
            lemma_covers_prefix_step(sorted@, 0);
            assert forall|p: int|
                #![trigger covers(sorted@.subrange(0, 1), p)]
                covers(sorted@.subrange(0, 1), p) <==> (covers(result@, p) || chain.covers(p)) by {
                assert(covers(sorted@.subrange(0, 0int + 1), p) <==> (covers(
                    sorted@.subrange(0, 0),
                    p,
                ) || sorted@[0].covers(p)));
            }
            assert(sorted@[0].inhabited());
            assert(bounded ==> sorted@[0].writable());
            assert forall|j: int| 1 <= j < sorted@.len() implies chain.lower() <= (
            #[trigger] sorted@[j]).lower() by {
                assert(sorted@[0].at_most(sorted@[j]));
            }
        }
        while i < sorted.len() && !absorbing
            invariant
                1 <= i <= sorted.len(),
                ascending(sorted@),
                forall|j: int| 0 <= j < sorted@.len() ==> #[trigger] sorted@[j].inhabited(),
                bounded ==> writable(sorted@),
                canonical(result@),
                chain.inhabited(),
                result@.len() > 0 ==> result@.last().apart_from(chain),
                bounded ==> writable(result@) && chain.writable(),
                forall|p: int|
                    #![trigger covers(sorted@.subrange(0, i as int), p)]
                    covers(sorted@.subrange(0, i as int), p) <==> (covers(result@, p)
                        || chain.covers(p)),
                forall|j: int|
                    i <= j < sorted@.len() ==> chain.lower() <= (#[trigger] sorted@[j]).lower(),
                absorbing ==> chain is ToEnd,
            decreases sorted.len() - i + (if absorbing { 0int } else { 1int }),
        {
            let next = sorted[i];
            let ghost old_result = result@;
            let ghost old_chain = chain;
            proof {
                assert(sorted@[i as int].inhabited());
                assert(bounded ==> sorted@[i as int].writable());
                assert(chain.lower() <= sorted@[i as int].lower());
            }
            match chain {
                MergedRange::ToEnd(_) => {
                    absorbing = true;
                },
                MergedRange::Closed(s1, e1) => {
                    let touches = match next {
                        MergedRange::ToEnd(s2) => s2 == 0 || s2 - 1 <= e1,
                        MergedRange::Closed(s2, _) => s2 == 0 || s2 - 1 <= e1,
                    };
                    if touches {
                        match next {
                            MergedRange::ToEnd(_) => {
                                chain = MergedRange::ToEnd(s1);
                            },
                            MergedRange::Closed(_, e2) => {
                                chain = MergedRange::Closed(s1, if e1 < e2 { e2 } else { e1 });
                            },
                        }
                    } else {
                        result.push(chain);
                        chain = next;
                        proof {
                            lemma_canonical_push(old_result, old_chain);
                            lemma_covers_push(old_result, old_chain);
                            if bounded {
                                lemma_writable_push(old_result, old_chain);
                            }
                        }
                    }
                    proof {
                        lemma_covers_prefix_step(sorted@, i as int);
                        assert forall|p: int|
                            #![trigger covers(sorted@.subrange(0, i + 1), p)]
                            covers(sorted@.subrange(0, i + 1), p) <==> (covers(result@, p)
                                || chain.covers(p)) by {
                            assert(covers(sorted@.subrange(0, i as int), p) <==> (covers(
                                old_result,
                                p,
                            ) || old_chain.covers(p)));
                        }
                        assert forall|j: int| i + 1 <= j < sorted@.len() implies chain.lower() <= (
                        #[trigger] sorted@[j]).lower() by {
                            assert(sorted@[i as int].at_most(sorted@[j]));
                        }
                    }
                    i += 1;
                },
            }
        }
        proof {
            if i < sorted.len() {
                lemma_covers_beyond_prefix(sorted@, i as int, chain.lower());
            } else {
                assert(sorted@.subrange(0, i as int) =~= sorted@);
            }
            lemma_canonical_push(result@, chain);
            lemma_covers_push(result@, chain);
            if bounded {
                lemma_writable_push(result@, chain);
                lemma_writable_below_max(result@.push(chain));
            }
            assert forall|p: int| covers(result@.push(chain), p) <==> cut_covers(ranges@, p) by {
                assert(covers(sorted@.subrange(0, i as int), p) <==> (covers(result@, p)
                    || chain.covers(p)));
                assert(covers(sorted@, p) <==> covers(unsorted, p));
            }
        }
        result.push(chain);
        Ranges { ranges: result }
    }

    /// Builds the canonical list that selects exactly the positions, from 0
    /// on, that `self` does not select.
    pub fn complement(self) -> (r: Ranges)
        requires
            self.wf(),
            below_max(self@),
        ensures
            r.wf(),
            below_max(r@),
            complements(self@, r@),
    {
        let mut next: usize = 0;
        let mut open = false;
        let mut ranges: Vec<MergedRange> = Vec::new();
        let n = self.ranges.len();
        let mut k: usize = 0;
        while k < n
            invariant
                n == self@.len(),
                k <= n,
                canonical(self@),
                below_max(self@),
                canonical(ranges@),
                below_max(ranges@),
                open ==> k == n,
                k == 0 ==> next == 0,
                k > 0 && !open ==> self@[k - 1] is Closed && next == self@[k - 1].past(),
                !open && ranges@.len() > 0 ==> ranges@.last().ends_below(next as int),
                forall|p: int|
                    #![trigger covers(ranges@, p)]
                    covers(ranges@, p) <==> (0 <= p && (open || p < next) && !covers(self@, p)),
            decreases n - k,
        {
            let range = self.ranges[k];
            let ghost before = ranges@;
            let ghost old_next = next;
            proof {
                assert(self@[k as int].inhabited());
                assert(self@[k as int].below_max());
                if k > 0 {
                    lemma_canonical_gaps(self@, k - 1, k as int);
                }
                if k + 1 < n {
                    lemma_canonical_gaps(self@, k as int, k + 1);
                }
            }
            match range {
                MergedRange::Closed(start, end) => {
                    if start != 0 {
                        ranges.push(MergedRange::Closed(next, start - 1));
                    }
                    next = end + 1;
                },
                MergedRange::ToEnd(start) => {
                    if start != 0 {
                        ranges.push(MergedRange::Closed(next, start - 1));
                    }
                    open = true;
                },
            }
            proof {
                let start = range.lower();
                if start != 0 {
                    let gap = MergedRange::Closed(old_next, (start - 1) as usize);
                    lemma_canonical_push(before, gap);
                    lemma_below_max_push(before, gap);
                    assert(ranges@ == before.push(gap));
                } else {
                    assert(ranges@ == before);
                }
                lemma_complement_step(self@, k as int, before, old_next, ranges@);
                assert forall|p: int|
                    #![trigger covers(ranges@, p)]
                    covers(ranges@, p) <==> (0 <= p && (open || p < next) && !covers(
                        self@,
                        p,
                    )) by {}
            }
            k += 1;
        }
        if !open {
            proof {
                let tail = MergedRange::ToEnd(next);
                lemma_canonical_push(ranges@, tail);
                lemma_below_max_push(ranges@, tail);
                lemma_covers_push(ranges@, tail);
                assert forall|p: int|
                    #![trigger covers(ranges@.push(tail), p)]
                    covers(ranges@.push(tail), p) <==> (0 <= p && !covers(self@, p)) by {
                    assert(covers(ranges@, p) <==> (0 <= p && p < next && !covers(self@, p)));
                    if next <= p {
                        lemma_gap_uncovered(self@, n as int, p);
                    }
                }
            }
            ranges.push(MergedRange::ToEnd(next));
        }
        Ranges { ranges }
    }
}

/// Taking the complement twice gives the list back: if `c` is the canonical
/// complement of the canonical list `r`, and `cc` that of `c`, then `cc` is
/// `r`.
pub proof fn lemma_complement_involution(
    r: Seq<MergedRange>,
    c: Seq<MergedRange>,
    cc: Seq<MergedRange>,
)
    requires
        canonical(r),
        canonical(cc),
        complements(r, c),
        complements(c, cc),
    ensures
        cc == r,
{
    assert forall|i: int| covers(r, i) <==> covers(cc, i) by {
        if covers(r, i) {
            let k = choose|k: int| 0 <= k < r.len() && #[trigger] r[k].covers(i);
            assert(r[k].inhabited());
            assert(0 <= i);
        }
        assert(covers(c, i) <==> (0 <= i && !covers(r, i)));
        assert(covers(cc, i) <==> (0 <= i && !covers(c, i)));
    }
    lemma_canonical_unique(cc, r);
}

} // verus!
