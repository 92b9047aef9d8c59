use crate::index::OrderedIndex;
use crate::list::reshape::is_collapse_of;
use crate::list::InversionList;
use crate::map::add::add_spec;
use crate::map::algebra::{
    common, has_range, holds_all_points, holds_common_points, is_piece, is_union_chain, larger,
    made_of, overlap, smaller,
};
use crate::map::insert::insert_spec;
use crate::map::model::is_clone_of;
use crate::map::Entry;
use core::ops::Range;
use vstd::prelude::*;

verus! {

/// `e` spans the points that some entry of `base` and some entry of `driver`
/// share.
pub open spec fn meet_of<Idx: OrderedIndex>(
    base: Seq<Entry<Idx, ()>>,
    driver: Seq<Entry<Idx, ()>>,
    e: Entry<Idx, ()>,
) -> bool {
    exists|i: int, j: int|
        0 <= i < base.len() && 0 <= j < driver.len() && #[trigger] overlap(base[i], driver[j])
            && e.range == common(base[i], driver[j])
}

/// `out` is the intersection of the sets `base` and `driver`: each of its
/// ranges spans the points that a range of `base` and a range of `driver`
/// share, and every such pair of ranges has its range in `out`.
pub open spec fn is_meet<Idx: OrderedIndex>(
    base: Seq<Entry<Idx, ()>>,
    driver: Seq<Entry<Idx, ()>>,
    out: Seq<Entry<Idx, ()>>,
) -> bool {
    &&& forall|k: int| 0 <= k < out.len() ==> meet_of(base, driver, #[trigger] out[k])
    &&& forall|i: int, j: int|
        0 <= i < base.len() && 0 <= j < driver.len() && #[trigger] overlap(base[i], driver[j])
            ==> has_range(out, common(base[i], driver[j]))
}

/// The ranges after the ranges of `small` have been added to `acc`, one
/// after the other from the first to the last.
pub open spec fn union_spec<Idx: OrderedIndex>(
    acc: Seq<Entry<Idx, ()>>,
    small: Seq<Entry<Idx, ()>>,
) -> Seq<Entry<Idx, ()>>
    decreases small.len(),
{
    if small.len() == 0 {
        acc
    } else {
        add_spec(union_spec(acc, small.drop_last()), small.last().range, ())
    }
}

/// The ranges after each range of `ranges` that holds a point has been
/// written to `acc`, one after the other from the first to the last.
pub open spec fn insert_all<Idx: OrderedIndex>(
    acc: Seq<Entry<Idx, ()>>,
    ranges: Seq<Range<Idx>>,
) -> Seq<Entry<Idx, ()>>
    decreases ranges.len(),
{
    if ranges.len() == 0 {
        acc
    } else {
        let before = insert_all(acc, ranges.drop_last());
        let range = ranges.last();
        if range.start.to_int() < range.end.to_int() {
            insert_spec(before, range, ())
        } else {
            before
        }
    }
}

/// The states that a union of sets passes through are those of `union_spec`.
proof fn lemma_union_chain<Idx: OrderedIndex, F: Fn(&(), &()) -> ()>(
    or: F,
    acc: Seq<Entry<Idx, ()>>,
    small: Seq<Entry<Idx, ()>>,
    states: Seq<Seq<Entry<Idx, ()>>>,
)
    requires
        is_union_chain(or, acc, small, states),
    ensures
        states.last() == union_spec(acc, small),
    decreases small.len(),
{
    if small.len() > 0 {
        let less = small.drop_last();
        let before = states.drop_last();
        assert forall|k: int| 0 <= k < less.len() implies crate::map::algebra::union_step(
            or,
            before[k],
            #[trigger] less[k],
            before[k + 1],
        ) by {
            assert(less[k] == small[k]);
        }
        lemma_union_chain(or, acc, less, before);
        let k = small.len() - 1;
        assert(crate::map::algebra::union_step(or, states[k], small[k], states[k + 1]));
        assert(before.last() == states[k]);
    }
}

impl<Idx: OrderedIndex> InversionList<Idx> {
    /// The intersection of two sets: for every range of the one and every
    /// range of the other that share a point, the range of the points they
    /// share.
    pub fn bitand(&self, rhs: &Self) -> (r: Self)
        requires
            self.wf(),
            rhs.wf(),
        ensures
            r.wf(),
            is_meet(larger(self@, rhs@), smaller(self@, rhs@), r@),
            holds_common_points(r@, self@, rhs@),
    {
        let and = |a: &(), b: &()| -> (u: ()) { () };
        let inner = self.0.bitand(&rhs.0, and);
        proof {
            let base = larger(self@, rhs@);
            let driver = smaller(self@, rhs@);
            assert forall|k: int| 0 <= k < inner@.len() implies meet_of(
                base,
                driver,
                #[trigger] inner@[k],
            ) by {
                assert(made_of(and, base, driver, inner@[k]));
                let (i, j) = choose|i: int, j: int|
                    0 <= i < base.len() && 0 <= j < driver.len() && #[trigger] is_piece(
                        and,
                        base[i],
                        driver[j],
                        inner@[k],
                    );
                assert(overlap(base[i], driver[j]));
            }
        }
        InversionList(inner)
    }

    /// The union of two sets: the set that holds the points of both, in
    /// ranges of which none ends where the next begins. It is built from the
    /// set with more ranges, from `self` if both have the same number: the
    /// ranges of the other are added to it one after the other, each becoming
    /// one range with the ranges it shares a point with, and ranges that
    /// touch are merged at the end.
    pub fn bitor(&self, rhs: &Self) -> (r: Self)
        requires
            self.wf(),
            rhs.wf(),
        ensures
            r.wf(),
            is_collapse_of(r@, union_spec(larger(self@, rhs@), smaller(self@, rhs@))),
            holds_all_points(r@, self@, rhs@),
    {
        let or = |a: &(), b: &()| -> (u: ()) { () };
        let inner = self.0.bitor(&rhs.0, or);
        proof {
            let big = larger(self@, rhs@);
            let small = smaller(self@, rhs@);
            let start = choose|start: Seq<Entry<Idx, ()>>|
                is_clone_of(start, big) && #[trigger] crate::map::algebra::union_folded(
                    or,
                    start,
                    small,
                    inner@,
                );
            assert forall|i: int| 0 <= i < big.len() implies start[i] == big[i] by {
                assert(start[i].range == big[i].range);
            }
            assert(start =~= big);
            let states = choose|states: Seq<Seq<Entry<Idx, ()>>>| #[trigger]
                is_union_chain(or, start, small, states) && states.last() == inner@;
            lemma_union_chain(or, start, small, states);
        }
        let mut r = InversionList(inner);
        r.collapse();
        r
    }

    /// The set in which the ranges of `ranges` have been written one after
    /// the other, as `insert_range` writes them.
    pub fn from_ranges(ranges: Vec<Range<Idx>>) -> (r: Self)
        ensures
            r.wf(),
            r@ == insert_all(Seq::<Entry<Idx, ()>>::empty(), ranges@),
    {
        let mut res: InversionList<Idx> = InversionList::new();
        let n = ranges.len();
        let mut i: usize = 0;
        proof {
            assert(ranges@.take(0).len() == 0);
        }
        while i < n
            invariant
                n == ranges@.len(),
                i <= n,
                res.wf(),
                res@ == insert_all(Seq::<Entry<Idx, ()>>::empty(), ranges@.take(i as int)),
            decreases n - i,
        {
            let range = ranges[i].start..ranges[i].end;
            proof {
                let grown = ranges@.take(i + 1);
                assert(grown.drop_last() =~= ranges@.take(i as int));
                assert(grown.last() == range);
            }
            res.insert_range(range);
            i += 1;
        }
        proof {
            assert(ranges@.take(n as int) =~= ranges@);
        }
        res
    }
}

} // verus!
