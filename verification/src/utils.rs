use std::cmp::Ordering;
use std::ops::Range;
use vstd::prelude::*;
use vstd::std_specs::cmp::PartialOrdSpec;

use crate::address::DmxAddress;

verus! {

/// Intersection of ranges.
pub trait RangeExt: Sized {
    /// Whether the bounds of this range are of a type whose comparisons
    /// are known.
    spec fn obeys_intersect_spec() -> bool;

    /// The intersection of two ranges: from the greater start to the lesser
    /// end, where that start is not beyond that end.
    spec fn intersect_spec(self, rhs: Self) -> Option<Self>;

    /// Intersects two ranges. Gives the range from the greater of the two
    /// starts to the lesser of the two ends, which is empty where the two
    /// meet at a point, and nothing where that start lies beyond that end.
    fn intersect(self, rhs: Self) -> (r: Option<Self>)
        ensures
            Self::obeys_intersect_spec() ==> r == self.intersect_spec(rhs),
    ;
}

impl<Idx> RangeExt for Range<Idx> where Idx: Ord {
    open spec fn obeys_intersect_spec() -> bool {
        Idx::obeys_partial_cmp_spec()
    }

    open spec fn intersect_spec(self, rhs: Self) -> Option<Self> {
        let start = if self.start.partial_cmp_spec(&rhs.start) == Some(Ordering::Greater) {
            self.start
        } else {
            rhs.start
        };
        let end = if self.end.partial_cmp_spec(&rhs.end) == Some(Ordering::Less)
            || self.end.partial_cmp_spec(&rhs.end) == Some(Ordering::Equal) {
            self.end
        } else {
            rhs.end
        };
        if start.partial_cmp_spec(&end) == Some(Ordering::Less) || start.partial_cmp_spec(&end)
            == Some(Ordering::Equal) {
            Some(Range { start, end })
        } else {
            None
        }
    }

    fn intersect(self, rhs: Self) -> (r: Option<Self>) {
        let start = if self.start > rhs.start {
            self.start
        } else {
            rhs.start
        };
        let end = if self.end <= rhs.end {
            self.end
        } else {
            rhs.end
        };
        if start <= end {
            Some(start..end)
        } else {
            None
        }
    }
}

/// Of two ranges of `usize`, the intersection holds the numbers that lie in
/// both, and there is none exactly where one of the two starts lies beyond
/// one of the two ends.
pub proof fn lemma_intersect_usize(a: Range<usize>, b: Range<usize>, x: usize)
    ensures
        Range::<usize>::obeys_intersect_spec(),
        a.intersect_spec(b) is None <==> a.start > a.end || a.start > b.end || b.start > a.end
            || b.start > b.end,
        a.intersect_spec(b) matches Some(both) ==> {
            &&& both.start == if a.start >= b.start {
                a.start
            } else {
                b.start
            }
            &&& both.end == if a.end <= b.end {
                a.end
            } else {
                b.end
            }
            &&& (both.start <= x < both.end <==> a.start <= x < a.end && b.start <= x < b.end)
        },
        a.intersect_spec(b) is None ==> !(a.start <= x < a.end && b.start <= x < b.end),
{
}

/// Of two ranges of addresses, the intersection holds the addresses that
/// lie in both, and there is none exactly where one of the two starts lies
/// beyond one of the two ends.
pub proof fn lemma_intersect_addresses(
    a: Range<DmxAddress>,
    b: Range<DmxAddress>,
    x: DmxAddress,
)
    ensures
        Range::<DmxAddress>::obeys_intersect_spec(),
        a.intersect_spec(b) is None <==> a.start.0 > a.end.0 || a.start.0 > b.end.0 || b.start.0
            > a.end.0 || b.start.0 > b.end.0,
        a.intersect_spec(b) matches Some(both) ==> {
            &&& both.start == if a.start.0 >= b.start.0 {
                a.start
            } else {
                b.start
            }
            &&& both.end == if a.end.0 <= b.end.0 {
                a.end
            } else {
                b.end
            }
            &&& (both.start.0 <= x.0 < both.end.0 <==> a.start.0 <= x.0 < a.end.0 && b.start.0
                <= x.0 < b.end.0)
        },
        a.intersect_spec(b) is None ==> !(a.start.0 <= x.0 < a.end.0 && b.start.0 <= x.0
            < b.end.0),
{
}

} // verus!
