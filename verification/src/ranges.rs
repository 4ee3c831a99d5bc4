//! Small facts about byte ranges.
use std::ops::Range;
use vstd::prelude::*;

verus! {

/// The length of a range, as `Range::len` gives it: zero when it is empty
/// or reversed.
pub open spec fn range_len(r: Range<usize>) -> int {
    if r.start < r.end {
        r.end - r.start
    } else {
        0
    }
}

/// `Range::len`.
pub fn len_of(r: &Range<usize>) -> (n: usize)
    ensures
        n == range_len(*r),
{
    if r.start < r.end {
        r.end - r.start
    } else {
        0
    }
}

} // verus!
