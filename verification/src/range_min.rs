//! Static range-minimum queries, answered by a segment tree.

use segment_tree::SegmentPoint;
use segment_tree::ops::Min;
use vstd::prelude::*;

verus! {

/// A segment tree of minima over a fixed sequence of values: a
/// `segment_tree::SegmentPoint` with the operation `Min`. What it holds is
/// known through `index_values` alone.
#[verifier::external_body]
pub struct RangeMinimumIndex {
    tree: SegmentPoint<u32, Min>,
}

/// The values that an index was built over, in their order.
pub uninterp spec fn index_values(index: RangeMinimumIndex) -> Seq<u32>;

/// The smallest of `s[l], .., s[r - 1]`, and `u32::MAX` for an empty range.
pub open spec fn range_min(s: Seq<u32>, l: int, r: int) -> u32
    decreases r - l,
{
    if l >= r {
        u32::MAX
    } else {
        let rest = range_min(s, l + 1, r);
        if s[l] < rest {
            s[l]
        } else {
            rest
        }
    }
}

/// The range minimum is a lower bound of the range.
pub proof fn lemma_range_min_le(s: Seq<u32>, l: int, r: int, k: int)
    requires
        l <= k < r,
    ensures
        range_min(s, l, r) <= s[k],
    decreases r - l,
{
    if l < k {
        lemma_range_min_le(s, l + 1, r, k);
    }
}

/// The range minimum is at least any lower bound of the range.
pub proof fn lemma_range_min_ge(s: Seq<u32>, l: int, r: int, v: u32)
    requires
        forall|k: int| l <= k < r ==> #[trigger] s[k] >= v,
    ensures
        range_min(s, l, r) >= v,
    decreases r - l,
{
    if l < r {
        lemma_range_min_ge(s, l + 1, r, v);
    }
}

/// The minimum of a range that is not empty is one of its values.
pub proof fn lemma_range_min_attained(s: Seq<u32>, l: int, r: int) -> (k: int)
    requires
        l < r,
    ensures
        l <= k < r,
        s[k] == range_min(s, l, r),
    decreases r - l,
{
    if l + 1 == r {
        assert(range_min(s, l + 1, r) == u32::MAX);
        l
    } else {
        let k = lemma_range_min_attained(s, l + 1, r);
        if s[l] < range_min(s, l + 1, r) {
            l
        } else {
            k
        }
    }
}

/// `SegmentPoint::build` with the operation `Min`: a tree over the given
/// values, in their order.
#[verifier::external_body]
fn build_min_tree(values: Vec<u32>) -> (index: RangeMinimumIndex)
    requires
        values.len() <= usize::MAX / 16,
    ensures
        index_values(index) == values@,
{
    RangeMinimumIndex { tree: SegmentPoint::build(values, Min) }
}

/// `SegmentPoint::query` on a `Min` tree: the smallest value in the half-open
/// range `[l, r)`; for an empty range the identity of `Min`, `u32::MAX`.
#[verifier::external_body]
fn query_min_tree(index: &RangeMinimumIndex, l: usize, r: usize) -> (m: u32)
    requires
        l <= index_values(*index).len(),
        r <= index_values(*index).len(),
    ensures
        m == range_min(index_values(*index), l as int, r as int),
{
    index.tree.query(l, r)
}

impl RangeMinimumIndex {
    /// The values that the index answers queries about.
    pub open spec fn view(&self) -> Seq<u32> {
        index_values(*self)
    }

    /// Builds the index over `values`.
    pub fn build(values: Vec<u32>) -> (index: RangeMinimumIndex)
        requires
            values.len() <= usize::MAX / 16,
        ensures
            index@ == values@,
    {
        build_min_tree(values)
    }

    /// The smallest value at the indices `l, .., r - 1`; `u32::MAX` where
    /// there is none.
    pub fn query(&self, l: usize, r: usize) -> (m: u32)
        requires
            r <= self@.len(),
        ensures
            m == range_min(self@, l as int, r as int),
    {
        if l >= r {
            u32::MAX
        } else {
            query_min_tree(self, l, r)
        }
    }
}

} // verus!
