//! The total order on merged ranges, as a comparison.

use crate::range::MergedRange;
use std::cmp::Ordering;
use vstd::prelude::*;
use vstd::std_specs::cmp::PartialOrdSpecImpl;

verus! {

/// How `a` compares to `b` in the total order on merged ranges.
pub open spec fn ordering_of(a: MergedRange, b: MergedRange) -> Ordering {
    if a == b {
        Ordering::Equal
    } else if a.at_most(b) {
        Ordering::Less
    } else {
        Ordering::Greater
    }
}

/// Compares two merged ranges: by start; for equal starts a closed range
/// with the smaller end comes first, and an unbounded range comes after
/// every closed one.
pub fn compare(a: &MergedRange, b: &MergedRange) -> (r: Ordering)
    ensures
        r == ordering_of(*a, *b),
{
    if a.le(b) {
        if b.le(a) {
            Ordering::Equal
        } else {
            Ordering::Less
        }
    } else {
        Ordering::Greater
    }
}

impl PartialOrd for MergedRange {
    fn partial_cmp(&self, other: &MergedRange) -> (r: Option<Ordering>) {
        Some(compare(self, other))
    }
}

impl PartialOrdSpecImpl for MergedRange {
    open spec fn obeys_partial_cmp_spec() -> bool {
        true
    }

    open spec fn partial_cmp_spec(&self, other: &MergedRange) -> Option<Ordering> {
        Some(ordering_of(*self, *other))
    }
}

} // verus!
