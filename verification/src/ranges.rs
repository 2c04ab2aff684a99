//! Sets of chunks, or of bytes, as sorted boundaries.
//!
//! A set is the union of the ranges from each boundary at an even place to the
//! next boundary; without a next boundary the range has no end.
use range_collections::{RangeSet2, RangeSetRef};
use vstd::prelude::*;

use crate::num::ChunkNum;

verus! {

/// A borrowed set of the crate `range_collections`.
#[verifier::external_type_specification]
#[verifier::external_body]
#[verifier::reject_recursive_types(T)]
pub struct ExRangeSetRef<T>(RangeSetRef<T>);

/// The boundaries of a borrowed set.
pub uninterp spec fn boundaries_of(ranges: &RangeSetRef<u64>) -> Seq<u64>;

/// The boundaries grow from each to the next.
pub open spec fn strictly_sorted(b: Seq<u64>) -> bool {
    forall|i: int, j: int| 0 <= i < j < b.len() ==> b[i] < b[j]
}

/// Whether a number is in the set with the given boundaries.
pub open spec fn in_ranges(b: Seq<u64>, x: int) -> bool {
    exists|i: int|
        0 <= i < b.len() && i % 2 == 0 && #[trigger] b[i] <= x && (i + 1 < b.len() ==> x < b[i + 1])
}

/// Whether some number from `lo` on and below `hi` is in the set.
pub open spec fn meets(b: Seq<u64>, lo: int, hi: int) -> bool {
    exists|x: int| lo <= x < hi && in_ranges(b, x)
}

/// Whether a set of chunks is in canonical form for a blob of `end` chunks: no
/// boundary lies past the last chunk. An empty blob counts as one empty chunk.
pub open spec fn ranges_canonical(b: Seq<u64>, end: nat) -> bool {
    forall|i: int| 0 <= i < b.len() ==> #[trigger] b[i] < end || b[i] == 0
}

/// `RangeSetRef::boundaries`: a slice of the boundaries, which the crate keeps
/// strictly sorted.
#[verifier::external_body]
pub(crate) fn boundaries(ranges: &RangeSetRef<u64>) -> (r: &[u64])
    ensures
        r@ == boundaries_of(ranges),
        strictly_sorted(r@),
{
    ranges.boundaries()
}

/// A set of chunks that owns its boundaries.
#[verifier::external_body]
pub struct ChunkRanges {
    inner: RangeSet2<u64>,
}

/// The boundaries of a set of chunks.
pub uninterp spec fn chunk_boundaries(ranges: ChunkRanges) -> Seq<u64>;

/// `RangeSet::empty`: a set without boundaries.
#[verifier::external_body]
pub(crate) fn ranges_empty() -> (r: ChunkRanges)
    ensures
        chunk_boundaries(r) == Seq::<u64>::empty(),
{
    ChunkRanges { inner: RangeSet2::empty() }
}

/// `RangeSet::from` on a range: the two ends as boundaries, or none where the
/// range is empty.
#[verifier::external_body]
pub(crate) fn ranges_from(start: u64, end: u64) -> (r: ChunkRanges)
    ensures
        chunk_boundaries(r) == (if start < end {
            seq![start, end]
        } else {
            Seq::<u64>::empty()
        }),
{
    ChunkRanges { inner: RangeSet2::from(start..end) }
}

/// `RangeSet::bitor_assign`: the union of two sets. The boundaries stay strictly
/// sorted; a number is in the new set if it was in one of the two.
#[verifier::external_body]
pub(crate) fn ranges_union(ranges: &mut ChunkRanges, that: ChunkRanges)
    requires
        strictly_sorted(chunk_boundaries(*old(ranges))),
        strictly_sorted(chunk_boundaries(that)),
    ensures
        strictly_sorted(chunk_boundaries(*final(ranges))),
        forall|x: int| #[trigger]
            in_ranges(chunk_boundaries(*final(ranges)), x) <==> in_ranges(
                chunk_boundaries(*old(ranges)),
                x,
            ) || in_ranges(chunk_boundaries(that), x),
{
    ranges.inner |= that.inner
}

/// `RangeSet::as_ref`: the same boundaries, borrowed.
#[verifier::external_body]
pub(crate) fn ranges_as_ref(ranges: &ChunkRanges) -> (r: &RangeSetRef<u64>)
    ensures
        boundaries_of(r) == chunk_boundaries(*ranges),
{
    ranges.inner.as_ref()
}

impl ChunkRanges {
    /// The chunks in the set.
    pub open spec fn chunks(self) -> Set<int> {
        Set::new(|x: int| in_ranges(chunk_boundaries(self), x))
    }

    /// The boundaries are in order.
    pub open spec fn valid(self) -> bool {
        strictly_sorted(chunk_boundaries(self))
    }

    /// The set without chunks.
    pub fn empty() -> (r: ChunkRanges)
        ensures
            r.valid(),
            r.chunks() == Set::<int>::empty(),
    {
        let r = ranges_empty();
        assert(r.chunks() =~= Set::<int>::empty());
        r
    }

    /// Adds the chunks from `start` on and below `end`.
    pub fn insert(&mut self, start: ChunkNum, end: ChunkNum)
        requires
            old(self).valid(),
        ensures
            final(self).valid(),
            final(self).chunks() == old(self).chunks().union(
                Set::new(|x: int| start.0 <= x < end.0),
            ),
    {
        let that = ranges_from(start.0, end.0);
        let ghost b = chunk_boundaries(that);
        assert forall|x: int| #[trigger] in_ranges(b, x) <==> start.0 <= x < end.0 by {
            if start.0 <= x < end.0 {
                assert(b[0] == start.0);
            }
        }
        ranges_union(self, that);
        assert(self.chunks() =~= old(self).chunks().union(
            Set::new(|x: int| start.0 <= x < end.0),
        ));
    }

    /// The set, borrowed.
    pub fn as_ranges(&self) -> (r: &RangeSetRef<u64>)
        ensures
            boundaries_of(r) == chunk_boundaries(*self),
    {
        ranges_as_ref(self)
    }
}

/// How many boundaries are at most `x`.
fn count_up_to(b: &[u64], x: u64) -> (r: usize)
    requires
        strictly_sorted(b@),
    ensures
        r <= b@.len(),
        forall|i: int| 0 <= i < r ==> b@[i] <= x,
        forall|i: int| r <= i < b@.len() ==> b@[i] > x,
{
    let mut lo: usize = 0;
    let mut hi: usize = b.len();
    while lo < hi
        invariant
            strictly_sorted(b@),
            lo <= hi <= b@.len(),
            forall|i: int| 0 <= i < lo ==> b@[i] <= x,
            forall|i: int| hi <= i < b@.len() ==> b@[i] > x,
        decreases hi - lo,
    {
        let mid: usize = lo + (hi - lo) / 2;
        if b[mid] <= x {
            lo = mid + 1;
        } else {
            hi = mid;
        }
    }
    lo
}

/// Whether some number from `lo` on and below `hi` is in the set.
pub(crate) fn boundaries_meet(b: &[u64], lo: u64, hi: u64) -> (r: bool)
    requires
        strictly_sorted(b@),
    ensures
        r == meets(b@, lo as int, hi as int),
{
    if lo >= hi {
        return false;
    }
    let n: usize = count_up_to(b, lo);
    if n % 2 == 1 {
        proof {
            let i = n - 1;
            assert(b@[i] <= lo);
            assert(in_ranges(b@, lo as int));
        }
        true
    } else if n < b.len() && b[n] < hi {
        proof {
            let x = b@[n as int] as int;
            assert(in_ranges(b@, x));
        }
        true
    } else {
        proof {
            assert forall|x: int| lo <= x < hi implies !in_ranges(b@, x) by {
                if in_ranges(b@, x) {
                    let i = choose|i: int|
                        0 <= i < b@.len() && i % 2 == 0 && #[trigger] b@[i] <= x && (i + 1
                            < b@.len() ==> x < b@[i + 1]);
                    if i < n {
                        assert(i + 1 < n);
                        assert(b@[i + 1] <= lo);
                    } else if i > n {
                        assert(b@[n as int] < b@[i]);
                    }
                }
            }
        }
        false
    }
}

/// Whether a set of chunks is in canonical form for a blob of `end` chunks.
pub fn range_ok(ranges: &RangeSetRef<u64>, end: ChunkNum) -> (r: bool)
    ensures
        r == ranges_canonical(boundaries_of(ranges), end.0 as nat),
        r == (forall|i: int|
            0 <= i < boundaries_of(ranges).len() ==> #[trigger] boundaries_of(ranges)[i] < end.0
                || boundaries_of(ranges)[i] == 0),
{
    let b = boundaries(ranges);
    if b.len() == 0 {
        return true;
    }
    let last: u64 = b[b.len() - 1];
    proof {
        assert(b@[b@.len() - 1] == last);
    }
    last < end.0 || last == 0
}

} // verus!
