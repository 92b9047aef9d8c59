use crate::index::OrderedIndex;
use crate::list::relate::covers_range;
use crate::list::InversionList;
use crate::map::iter;
use crate::map::Entry;
use core::ops::Range;
use vstd::prelude::*;

verus! {

/// Whether `range` holds a point and the entries `t` hold all its points.
pub open spec fn held_by<Idx: OrderedIndex>(t: Seq<Entry<Idx, ()>>, range: Range<Idx>) -> bool {
    range.start.to_int() < range.end.to_int() && covers_range(t, range)
}

/// Entries whose range `t` holds.
pub open spec fn inside<Idx: OrderedIndex>(t: Seq<Entry<Idx, ()>>) -> spec_fn(Entry<Idx, ()>) -> bool {
    |e: Entry<Idx, ()>| held_by(t, e.range)
}

/// Entries whose range `t` does not hold.
pub open spec fn outside<Idx: OrderedIndex>(t: Seq<Entry<Idx, ()>>) -> spec_fn(
    Entry<Idx, ()>,
) -> bool {
    |e: Entry<Idx, ()>| !held_by(t, e.range)
}

/// `t` is what is left of `s` behind some of its first elements.
pub open spec fn is_rest_of<A>(t: Seq<A>, s: Seq<A>) -> bool {
    t.len() <= s.len() && t == s.skip(s.len() - t.len())
}

/// What is left behind the first element of the rest of a sequence is a
/// rest of that sequence too.
proof fn lemma_rest_shrinks<A>(t: Seq<A>, s: Seq<A>)
    requires
        is_rest_of(t, s),
        t.len() > 0,
    ensures
        is_rest_of(t.drop_first(), s),
{
    assert(t.drop_first() =~= s.skip(s.len() - t.len() + 1));
}

/// Selecting from a sequence selects its first element, if the predicate
/// holds of it, and then from the rest.
pub proof fn lemma_filter_first<A>(s: Seq<A>, p: spec_fn(A) -> bool)
    requires
        s.len() > 0,
    ensures
        s.filter(p) == if p(s.first()) {
            seq![s.first()] + s.drop_first().filter(p)
        } else {
            s.drop_first().filter(p)
        },
{
    let head = seq![s.first()];
    assert(s =~= head + s.drop_first());
    Seq::filter_distributes_over_add(head, s.drop_first(), p);
    reveal_with_fuel(Seq::filter, 2);
    assert(head.drop_last() =~= Seq::<A>::empty());
    if p(s.first()) {
        assert(head.filter(p) =~= head);
    } else {
        assert(head.filter(p) =~= Seq::<A>::empty());
        assert(Seq::<A>::empty() + s.drop_first().filter(p) =~= s.drop_first().filter(p));
    }
}

/// A cursor over the ranges of a set, from the first to the last.
pub struct Iter<'a, Idx> {
    iter: iter::Iter<'a, Idx, ()>,
}

impl<'a, Idx: OrderedIndex> Iter<'a, Idx> {
    /// The ranges that the cursor has yet to yield, in order.
    pub closed spec fn remaining(&self) -> Seq<Entry<Idx, ()>> {
        self.iter.remaining()
    }

    /// Yields the next range, or `None` when all have been yielded.
    pub fn next(&mut self) -> (r: Option<Range<Idx>>)
        ensures
            r is None <==> old(self).remaining().len() == 0,
            r is None ==> final(self).remaining() == old(self).remaining(),
            r matches Some(range) ==> range == old(self).remaining().first().range && final(self).remaining() == old(self).remaining().drop_first(),
    {
        match self.iter.next() {
            Some((range, _)) => Some(range),
            None => None,
        }
    }

    /// The number of ranges yet to be yielded.
    pub fn len(&self) -> (n: usize)
        ensures
            n == self.remaining().len(),
    {
        self.iter.len()
    }

    /// The least and the greatest number of ranges yet to be yielded, which
    /// are the same.
    pub fn size_hint(&self) -> (r: (usize, Option<usize>))
        ensures
            r.0 == self.remaining().len(),
            r.1 == Some(r.0),
    {
        self.iter.size_hint()
    }
}

/// A cursor over the ranges of a set that it owns, from the first to the
/// last.
pub struct IntoIter<Idx> {
    iter: iter::IntoIter<Idx, ()>,
}

impl<Idx: OrderedIndex> IntoIter<Idx> {
    /// The ranges that the cursor has yet to yield, in order.
    pub closed spec fn remaining(&self) -> Seq<Entry<Idx, ()>> {
        self.iter.remaining()
    }

    /// Yields the next range, or `None` when all have been yielded.
    pub fn next(&mut self) -> (r: Option<Range<Idx>>)
        ensures
            r is None <==> old(self).remaining().len() == 0,
            r is None ==> final(self).remaining() == old(self).remaining(),
            r matches Some(range) ==> range == old(self).remaining().first().range && final(self).remaining() == old(self).remaining().drop_first(),
    {
        match self.iter.next() {
            Some((range, _)) => Some(range),
            None => None,
        }
    }

    /// The number of ranges yet to be yielded.
    pub fn len(&self) -> (n: usize)
        ensures
            n == self.remaining().len(),
    {
        self.iter.len()
    }

    /// The least and the greatest number of ranges yet to be yielded, which
    /// are the same.
    pub fn size_hint(&self) -> (r: (usize, Option<usize>))
        ensures
            r.0 == self.remaining().len(),
            r.1 == Some(r.0),
    {
        self.iter.size_hint()
    }
}

/// A cursor over the ranges of one set that another set does not hold.
pub struct Difference<'a, Idx> {
    pub(crate) iter: Iter<'a, Idx>,
    pub(crate) other: &'a InversionList<Idx>,
}

impl<'a, Idx: OrderedIndex> Difference<'a, Idx> {
    /// The invariant of the cursor: the set it tests against is well-formed.
    pub closed spec fn wf(&self) -> bool {
        self.other.wf()
    }

    /// The ranges that the cursor has yet to yield, in order.
    pub closed spec fn remaining(&self) -> Seq<Entry<Idx, ()>> {
        self.iter.remaining().filter(outside(self.other@))
    }

    /// The ranges that the cursor has yet to look at, in order: those among
    /// which it finds the ranges it yields.
    pub closed spec fn pending(&self) -> Seq<Entry<Idx, ()>> {
        self.iter.remaining()
    }

    /// Yields the next range, or `None` when all have been yielded.
    pub fn next(&mut self) -> (r: Option<Range<Idx>>)
        requires
            old(self).wf(),
        ensures
            final(self).wf(),
            r is None <==> old(self).remaining().len() == 0,
            r is None ==> final(self).remaining() == old(self).remaining(),
            r matches Some(range) ==> range == old(self).remaining().first().range && final(self).remaining() == old(self).remaining().drop_first(),
            is_rest_of(final(self).pending(), old(self).pending()),
            r is None ==> final(self).pending().len() == 0,
            r is Some ==> final(self).pending().len() < old(self).pending().len(),
    {
        proof {
            assert(self.iter.remaining() =~= self.iter.remaining().skip(0));
        }
        loop
            invariant
                self.other == old(self).other,
                self.other.wf(),
                self.iter.remaining().filter(outside(self.other@)) == old(self).iter.remaining().filter(outside(self.other@)),
                is_rest_of(self.iter.remaining(), old(self).iter.remaining()),
            decreases self.iter.remaining().len(),
        {
            let ghost before = self.iter.remaining();
            match self.iter.next() {
                None => {
                    proof {
                        reveal_with_fuel(Seq::filter, 1);
                        assert(before.filter(outside(self.other@)).len() == 0);
                    }
                    return None;
                },
                Some(range) => {
                    proof {
                        lemma_filter_first(before, outside(self.other@));
                        lemma_rest_shrinks(before, old(self).iter.remaining());
                    }
                    if !self.other.contains_range(range.start..range.end) {
                        proof {
                            let kept = seq![before.first()] + before.drop_first().filter(
                                outside(self.other@),
                            );
                            assert(kept.first() == before.first());
                            assert(kept.drop_first() =~= before.drop_first().filter(
                                outside(self.other@),
                            ));
                        }
                        return Some(range);
                    }
                },
            }
        }
    }

    /// The least and the greatest number of ranges yet to be yielded: none,
    /// and as many as the cursor has yet to look at.
    pub fn size_hint(&self) -> (r: (usize, Option<usize>))
        ensures
            r.0 == 0,
            r.1 matches Some(most) && most == self.pending().len() && self.remaining().len()
                <= most,
    {
        proof {
            self.iter.remaining().lemma_filter_len(outside(self.other@));
        }
        (0, Some(self.iter.len()))
    }
}

/// A cursor over the ranges of one set that another set holds.
pub struct Intersection<'a, Idx> {
    pub(crate) iter: Iter<'a, Idx>,
    pub(crate) other: &'a InversionList<Idx>,
}

impl<'a, Idx: OrderedIndex> Intersection<'a, Idx> {
    /// The invariant of the cursor: the set it tests against is well-formed.
    pub closed spec fn wf(&self) -> bool {
        self.other.wf()
    }

    /// The ranges that the cursor has yet to yield, in order.
    pub closed spec fn remaining(&self) -> Seq<Entry<Idx, ()>> {
        self.iter.remaining().filter(inside(self.other@))
    }

    /// The ranges that the cursor has yet to look at, in order: those among
    /// which it finds the ranges it yields.
    pub closed spec fn pending(&self) -> Seq<Entry<Idx, ()>> {
        self.iter.remaining()
    }

    /// Yields the next range, or `None` when all have been yielded.
    pub fn next(&mut self) -> (r: Option<Range<Idx>>)
        requires
            old(self).wf(),
        ensures
            final(self).wf(),
            r is None <==> old(self).remaining().len() == 0,
            r is None ==> final(self).remaining() == old(self).remaining(),
            r matches Some(range) ==> range == old(self).remaining().first().range && final(self).remaining() == old(self).remaining().drop_first(),
            is_rest_of(final(self).pending(), old(self).pending()),
            r is None ==> final(self).pending().len() == 0,
            r is Some ==> final(self).pending().len() < old(self).pending().len(),
    {
        proof {
            assert(self.iter.remaining() =~= self.iter.remaining().skip(0));
        }
        loop
            invariant
                self.other == old(self).other,
                self.other.wf(),
                self.iter.remaining().filter(inside(self.other@)) == old(self).iter.remaining().filter(inside(self.other@)),
                is_rest_of(self.iter.remaining(), old(self).iter.remaining()),
            decreases self.iter.remaining().len(),
        {
            let ghost before = self.iter.remaining();
            match self.iter.next() {
                None => {
                    proof {
                        reveal_with_fuel(Seq::filter, 1);
                        assert(before.filter(inside(self.other@)).len() == 0);
                    }
                    return None;
                },
                Some(range) => {
                    proof {
                        lemma_filter_first(before, inside(self.other@));
                        lemma_rest_shrinks(before, old(self).iter.remaining());
                    }
                    if self.other.contains_range(range.start..range.end) {
                        proof {
                            let kept = seq![before.first()] + before.drop_first().filter(
                                inside(self.other@),
                            );
                            assert(kept.first() == before.first());
                            assert(kept.drop_first() =~= before.drop_first().filter(
                                inside(self.other@),
                            ));
                        }
                        return Some(range);
                    }
                },
            }
        }
    }

    /// The least and the greatest number of ranges yet to be yielded: none,
    /// and as many as the cursor has yet to look at.
    pub fn size_hint(&self) -> (r: (usize, Option<usize>))
        ensures
            r.0 == 0,
            r.1 matches Some(most) && most == self.pending().len() && self.remaining().len()
                <= most,
    {
        proof {
            self.iter.remaining().lemma_filter_len(inside(self.other@));
        }
        (0, Some(self.iter.len()))
    }
}

/// A cursor over the ranges of one set that a second does not hold, and
/// then over the ranges of the second that the first does not hold.
pub struct SymmetricDifference<'a, Idx> {
    pub(crate) first: Difference<'a, Idx>,
    pub(crate) second: Difference<'a, Idx>,
}

impl<'a, Idx: OrderedIndex> SymmetricDifference<'a, Idx> {
    /// The invariant of the cursor: both sets are well-formed.
    pub closed spec fn wf(&self) -> bool {
        self.first.wf() && self.second.wf()
    }

    /// The ranges that the cursor has yet to yield, in order.
    pub closed spec fn remaining(&self) -> Seq<Entry<Idx, ()>> {
        self.first.remaining() + self.second.remaining()
    }

    /// The ranges that the cursor has yet to look at, in order: those of the
    /// first set, then those of the second.
    pub closed spec fn pending(&self) -> Seq<Entry<Idx, ()>> {
        self.first.pending() + self.second.pending()
    }

    /// Yields the next range, or `None` when all have been yielded.
    pub fn next(&mut self) -> (r: Option<Range<Idx>>)
        requires
            old(self).wf(),
        ensures
            final(self).wf(),
            r is None <==> old(self).remaining().len() == 0,
            r is None ==> final(self).remaining() == old(self).remaining(),
            r matches Some(range) ==> range == old(self).remaining().first().range && final(self).remaining() == old(self).remaining().drop_first(),
            is_rest_of(final(self).pending(), old(self).pending()),
            r is None ==> final(self).pending().len() == 0,
            r is Some ==> final(self).pending().len() < old(self).pending().len(),
    {
        let ghost a = self.first.remaining();
        let ghost b = self.second.remaining();
        let ghost pa = self.first.pending();
        let ghost pb = self.second.pending();
        match self.first.next() {
            Some(range) => {
                proof {
                    assert((a + b).drop_first() =~= a.drop_first() + b);
                    let left = self.first.pending();
                    assert(left + pb =~= (pa + pb).skip(pa.len() - left.len()));
                }
                Some(range)
            },
            None => {
                proof {
                    assert(a + b =~= b);
                }
                let r = self.second.next();
                proof {
                    assert(a + self.second.remaining() =~= self.second.remaining());
                    let left = self.first.pending();
                    let right = self.second.pending();
                    assert(left + right =~= (pa + pb).skip(pa.len() + pb.len() - right.len()));
                }
                r
            },
        }
    }

    /// The least and the greatest number of ranges yet to be yielded: none,
    /// and as many as the cursor has yet to look at, or `None` where that
    /// number is no `usize`.
    pub fn size_hint(&self) -> (r: (usize, Option<usize>))
        ensures
            r.0 == 0,
            r.1 == (if self.pending().len() <= usize::MAX {
                Some(self.pending().len() as usize)
            } else {
                None
            }),
            r.1 matches Some(most) ==> self.remaining().len() <= most,
    {
        let (_, a) = self.first.size_hint();
        let (_, b) = self.second.size_hint();
        let most = match (a, b) {
            (Some(x), Some(y)) => x.checked_add(y),
            _ => None,
        };
        (0, most)
    }
}

/// A cursor over the ranges of one set, and then over the ranges of a second
/// that the first does not hold.
pub struct Union<'a, Idx> {
    pub(crate) first: Iter<'a, Idx>,
    pub(crate) second: Difference<'a, Idx>,
}

impl<'a, Idx: OrderedIndex> Union<'a, Idx> {
    /// The invariant of the cursor: the set it tests against is well-formed.
    pub closed spec fn wf(&self) -> bool {
        self.second.wf()
    }

    /// The ranges that the cursor has yet to yield, in order.
    pub closed spec fn remaining(&self) -> Seq<Entry<Idx, ()>> {
        self.first.remaining() + self.second.remaining()
    }

    /// The ranges of the first set that the cursor has yet to yield, in
    /// order. It yields them all.
    pub closed spec fn leading(&self) -> Seq<Entry<Idx, ()>> {
        self.first.remaining()
    }

    /// The ranges of the second set that the cursor has yet to look at, in
    /// order: those among which it finds the ranges it yields after the
    /// leading ones.
    pub closed spec fn pending(&self) -> Seq<Entry<Idx, ()>> {
        self.second.pending()
    }

    /// Yields the next range, or `None` when all have been yielded.
    pub fn next(&mut self) -> (r: Option<Range<Idx>>)
        requires
            old(self).wf(),
        ensures
            final(self).wf(),
            r is None <==> old(self).remaining().len() == 0,
            r is None ==> final(self).remaining() == old(self).remaining(),
            r matches Some(range) ==> range == old(self).remaining().first().range && final(self).remaining() == old(self).remaining().drop_first(),
            old(self).leading().len() > 0 ==> final(self).leading() == old(self).leading().drop_first()
                && final(self).pending() == old(self).pending(),
            old(self).leading().len() == 0 ==> final(self).leading() == old(self).leading()
                && is_rest_of(final(self).pending(), old(self).pending()),
            r is None ==> final(self).pending().len() == 0,
            r is Some && old(self).leading().len() == 0 ==> final(self).pending().len() < old(self).pending().len(),
    {
        let ghost a = self.first.remaining();
        let ghost b = self.second.remaining();
        match self.first.next() {
            Some(range) => {
                proof {
                    assert((a + b).drop_first() =~= a.drop_first() + b);
                }
                Some(range)
            },
            None => {
                proof {
                    assert(a + b =~= b);
                }
                let r = self.second.next();
                proof {
                    assert(a + self.second.remaining() =~= self.second.remaining());
                }
                r
            },
        }
    }

    /// The least and the greatest number of ranges yet to be yielded: as
    /// many as are left of the first set, and as many more as the cursor has
    /// yet to look at in the second, or `None` where that number is no
    /// `usize`.
    pub fn size_hint(&self) -> (r: (usize, Option<usize>))
        ensures
            r.0 == self.leading().len(),
            r.1 == (if self.leading().len() + self.pending().len() <= usize::MAX {
                Some((self.leading().len() + self.pending().len()) as usize)
            } else {
                None
            }),
            r.0 <= self.remaining().len(),
            r.1 matches Some(most) ==> self.remaining().len() <= most,
    {
        let (least, _) = self.first.size_hint();
        let (_, b) = self.second.size_hint();
        let most = match b {
            Some(y) => least.checked_add(y),
            None => None,
        };
        (least, most)
    }
}

impl<Idx: OrderedIndex> InversionList<Idx> {
    /// A cursor over the ranges of the set, in ascending order.
    pub fn iter(&self) -> (it: Iter<'_, Idx>)
        ensures
            it.remaining() == self@,
    {
        Iter { iter: self.0.iter() }
    }

    /// Turns the set into a cursor over its ranges, in ascending order.
    pub fn into_iter(self) -> (it: IntoIter<Idx>)
        ensures
            it.remaining() == self@,
    {
        IntoIter { iter: self.0.into_iter() }
    }

    /// A cursor over the ranges of this set that `other` does not hold
    /// wholly, in ascending order.
    pub fn difference<'a>(&'a self, other: &'a Self) -> (it: Difference<'a, Idx>)
        requires
            other.wf(),
        ensures
            it.wf(),
            it.remaining() == self@.filter(outside(other@)),
            it.pending() == self@,
    {
        Difference { iter: self.iter(), other }
    }

    /// A cursor over the ranges of this set that `other` does not hold
    /// wholly, and then over the ranges of `other` that this set does not
    /// hold wholly.
    pub fn symmetric_difference<'a>(&'a self, other: &'a Self) -> (it: SymmetricDifference<
        'a,
        Idx,
    >)
        requires
            self.wf(),
            other.wf(),
        ensures
            it.wf(),
            it.remaining() == self@.filter(outside(other@)) + other@.filter(outside(self@)),
            it.pending() == self@ + other@,
    {
        SymmetricDifference { first: self.difference(other), second: other.difference(self) }
    }

    /// A cursor over the ranges that the other set holds wholly, taken from
    /// the set with fewer ranges, from this set if both have the same number.
    pub fn intersection<'a>(&'a self, other: &'a Self) -> (it: Intersection<'a, Idx>)
        requires
            self.wf(),
            other.wf(),
        ensures
            it.wf(),
            it.remaining() == (if self@.len() <= other@.len() {
                self@.filter(inside(other@))
            } else {
                other@.filter(inside(self@))
            }),
            it.pending() == (if self@.len() <= other@.len() {
                self@
            } else {
                other@
            }),
    {
        if self.len() <= other.len() {
            Intersection { iter: self.iter(), other }
        } else {
            Intersection { iter: other.iter(), other: self }
        }
    }

    /// A cursor over the ranges of the set with more ranges, of this set if
    /// both have the same number, and then over the ranges of the other set
    /// that the first does not hold wholly.
    pub fn union<'a>(&'a self, other: &'a Self) -> (it: Union<'a, Idx>)
        requires
            self.wf(),
            other.wf(),
        ensures
            it.wf(),
            it.remaining() == (if self@.len() >= other@.len() {
                self@ + other@.filter(outside(self@))
            } else {
                other@ + self@.filter(outside(other@))
            }),
            it.leading() == (if self@.len() >= other@.len() {
                self@
            } else {
                other@
            }),
            it.pending() == (if self@.len() >= other@.len() {
                other@
            } else {
                self@
            }),
    {
        if self.len() >= other.len() {
            Union { first: self.iter(), second: other.difference(self) }
        } else {
            Union { first: other.iter(), second: self.difference(other) }
        }
    }
}

} // verus!
