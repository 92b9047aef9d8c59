use crate::index::{index_le, OrderedIndex};
use core::ops::Range;
use vstd::prelude::*;

verus! {

/// One end of a requested range.
#[derive(Debug, PartialEq, Eq)]
pub enum Bound<Idx> {
    /// The range reaches up to and including the index.
    Included(Idx),
    /// The range reaches up to the index and leaves it out.
    Excluded(Idx),
    /// The range reaches to the end of the domain.
    Unbounded,
}

/// The first point of a range that starts at `start`.
pub open spec fn start_point<Idx: OrderedIndex>(start: Bound<Idx>) -> int {
    match start {
        Bound::Included(n) => n.to_int(),
        Bound::Excluded(n) => n.to_int() + 1,
        Bound::Unbounded => Idx::min_int(),
    }
}

/// The first point past a range that ends at `end`.
pub open spec fn end_point<Idx: OrderedIndex>(end: Bound<Idx>) -> int {
    match end {
        Bound::Included(n) => n.to_int() + 1,
        Bound::Excluded(n) => n.to_int(),
        Bound::Unbounded => Idx::max_int(),
    }
}

/// Turns a pair of bounds into the half-open range `[start, end)` that holds
/// the same points, or `None` where no point lies between them.
///
/// An excluded start and an included end are stepped up by one; neither may
/// be the largest index, which has no successor.
pub fn bounds_to_range<Idx: OrderedIndex>(start: Bound<Idx>, end: Bound<Idx>) -> (r: Option<
    Range<Idx>,
>)
    requires
        start_point(start) <= Idx::max_int(),
        end_point(end) <= Idx::max_int(),
    ensures
        r is None <==> end_point(end) <= start_point(start),
        r matches Some(range) ==> range.start.to_int() == start_point(start) && range.end.to_int()
            == end_point(end),
{
    let s = match start {
        Bound::Included(n) => n,
        Bound::Excluded(n) => {
            proof {
                Idx::lemma_domain(n);
            }
            n.checked_add(Idx::one()).unwrap()
        },
        Bound::Unbounded => Idx::min_value(),
    };
    let e = match end {
        Bound::Included(n) => {
            proof {
                Idx::lemma_domain(n);
            }
            n.checked_add(Idx::one()).unwrap()
        },
        Bound::Excluded(n) => n,
        Bound::Unbounded => Idx::max_value(),
    };
    if index_le(e, s) {
        None
    } else {
        Some(s..e)
    }
}

/// The half-open range itself where it holds a point, `None` where it is
/// empty or reversed.
pub fn non_empty<Idx: OrderedIndex>(range: Range<Idx>) -> (r: Option<Range<Idx>>)
    ensures
        r == (if range.start.to_int() < range.end.to_int() {
            Some(range)
        } else {
            None
        }),
{
    proof {
        Idx::lemma_domain(range.start);
        Idx::lemma_domain(range.end);
    }
    let r = bounds_to_range(Bound::Included(range.start), Bound::Excluded(range.end));
    proof {
        if r is Some {
            Idx::lemma_injective(r.unwrap().start, range.start);
            Idx::lemma_injective(r.unwrap().end, range.end);
        }
    }
    r
}

} // verus!
