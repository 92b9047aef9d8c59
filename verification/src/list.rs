use crate::index::OrderedIndex;
use crate::map::add::{add_spec, unit_range};
use crate::map::entries::EntriesRef;
use crate::map::insert::insert_spec;
use crate::map::model::{count_ended, overlapped};
use crate::map::query::meets_any;
use crate::map::remove::remove_spec;
use crate::map::split::parted_at;
use crate::map::{covers, entries_wf, index_of, Entry, InversionMap};
use core::ops::Range;
use vstd::prelude::*;

pub mod algebra;
pub mod iter;
pub mod relate;
pub mod reshape;

verus! {

/// A set of points, kept as disjoint half-open ranges in ascending order.
#[derive(Debug, PartialEq, Eq)]
pub struct InversionList<Idx = usize>(pub(crate) InversionMap<Idx, ()>);

impl<Idx> View for InversionList<Idx> {
    type V = Seq<Entry<Idx, ()>>;

    /// The stored ranges, in order, each as an entry without a value.
    closed spec fn view(&self) -> Seq<Entry<Idx, ()>> {
        self.0@
    }
}

/// The entry that stands for `range` in a set.
pub open spec fn member<Idx>(range: Range<Idx>) -> Entry<Idx, ()> {
    Entry { range, value: () }
}

impl<Idx: OrderedIndex> Clone for InversionList<Idx> {
    fn clone(&self) -> (r: Self)
        ensures
            r@ == self@,
    {
        let inner = self.0.clone();
        proof {
            assert forall|i: int| 0 <= i < self.0@.len() implies inner@[i] == self.0@[i] by {
                assert(inner@[i].range == self.0@[i].range);
            }
            assert(inner@ =~= self.0@);
        }
        InversionList(inner)
    }
}

impl<Idx: OrderedIndex> Default for InversionList<Idx> {
    /// An empty set.
    fn default() -> (l: Self)
        ensures
            l.wf(),
            l@ == Seq::<Entry<Idx, ()>>::empty(),
    {
        InversionList(InversionMap::new())
    }
}

impl<Idx: OrderedIndex> InversionList<Idx> {
    /// The invariant of the set: its ranges are non-empty, ascending and
    /// free of overlap.
    pub open spec fn wf(&self) -> bool {
        entries_wf(self@)
    }

    /// An empty set.
    pub fn new() -> (l: Self)
        ensures
            l.wf(),
            l@ == Seq::<Entry<Idx, ()>>::empty(),
    {
        InversionList(InversionMap::new())
    }

    /// An empty set with room for `capacity` ranges.
    pub fn with_capacity(capacity: usize) -> (l: Self)
        ensures
            l.wf(),
            l@ == Seq::<Entry<Idx, ()>>::empty(),
    {
        InversionList(InversionMap::with_capacity(capacity))
    }

    /// The number of ranges the set can hold without allocating anew.
    pub fn capacity(&self) -> (c: usize)
        ensures
            c >= self@.len(),
    {
        self.0.capacity()
    }

    /// Removes every range.
    pub fn clear(&mut self)
        ensures
            final(self).wf(),
            final(self)@ == Seq::<Entry<Idx, ()>>::empty(),
    {
        self.0.clear();
    }

    /// The number of ranges.
    pub fn len(&self) -> (n: usize)
        ensures
            n == self@.len(),
    {
        self.0.len()
    }

    /// Whether the set has no range.
    pub fn is_empty(&self) -> (b: bool)
        ensures
            b == (self@.len() == 0),
    {
        self.0.is_empty()
    }

    /// The end of the last range.
    pub fn end(&self) -> (r: Option<Idx>)
        ensures
            r == (if self@.len() == 0 {
                None
            } else {
                Some(self@.last().range.end)
            }),
    {
        self.0.end()
    }

    /// The start of the first range.
    pub fn start(&self) -> (r: Option<Idx>)
        ensures
            r == (if self@.len() == 0 {
                None
            } else {
                Some(self@.first().range.start)
            }),
    {
        self.0.start()
    }

    /// The range from the start of the first range to the end of the last.
    pub fn span(&self) -> (r: Option<Range<Idx>>)
        ensures
            r == (if self@.len() == 0 {
                None
            } else {
                Some(Range { start: self@.first().range.start, end: self@.last().range.end })
            }),
    {
        self.0.span()
    }

    /// The first range.
    pub fn first(&self) -> (r: Option<Range<Idx>>)
        ensures
            r == (if self@.len() == 0 {
                None
            } else {
                Some(self@.first().range)
            }),
    {
        match self.0.first() {
            Some((range, _)) => Some(range),
            None => None,
        }
    }

    /// The last range.
    pub fn last(&self) -> (r: Option<Range<Idx>>)
        ensures
            r == (if self@.len() == 0 {
                None
            } else {
                Some(self@.last().range)
            }),
    {
        match self.0.last() {
            Some((range, _)) => Some(range),
            None => None,
        }
    }

    /// Whether the point `value` is in the set.
    pub fn contains(&self, value: Idx) -> (b: bool)
        requires
            self.wf(),
        ensures
            b == covers(self@, value.to_int()),
    {
        self.0.contains(value)
    }

    /// The range of the set that holds the point `index`.
    pub fn lookup(&self, index: Idx) -> (r: Option<Range<Idx>>)
        requires
            self.wf(),
        ensures
            r is Some <==> covers(self@, index.to_int()),
            r matches Some(range) ==> range == self@[index_of(self@, index.to_int())].range,
    {
        match self.0.lookup(index) {
            Some((range, _)) => Some(range),
            None => None,
        }
    }

    /// The ranges of the set that share a point with `range`, or `None`
    /// where there is none.
    pub fn lookup_range(&self, range: Range<Idx>) -> (r: Option<EntriesRef<'_, Idx, ()>>)
        requires
            self.wf(),
        ensures
            r is Some <==> meets_any(self@, range),
            r matches Some(es) ==> es@ == overlapped(self@, range),
    {
        self.0.lookup_range(range)
    }

    /// Whether `range` shares a point with the set.
    pub fn intersects(&self, range: Range<Idx>) -> (b: bool)
        requires
            self.wf(),
        ensures
            b == meets_any(self@, range),
    {
        self.0.intersects(range)
    }

    /// Makes `index` the start of a range. Where the point is not in the
    /// set, it is added as a range of its own, and the result is `true`.
    /// Where it is, the range that holds it is parted at `index`, and the
    /// result is `false`.
    ///
    /// A point that is not in the set must not be the largest index.
    pub fn insert_unit(&mut self, index: Idx) -> (added: bool)
        requires
            old(self).wf(),
            !covers(old(self)@, index.to_int()) ==> index.to_int() < Idx::max_int(),
        ensures
            final(self).wf(),
            added == !covers(old(self)@, index.to_int()),
            added ==> final(self)@ == old(self)@.insert(
                count_ended(old(self)@, index),
                member(unit_range(index)),
            ),
            !added ==> parted_at(
                old(self)@,
                index_of(old(self)@, index.to_int()),
                index,
                final(self)@,
            ),
    {
        self.0.insert_unit(index, ())
    }

    /// Makes `range` one range of the set: ranges that reach into it are cut
    /// at its ends, ranges inside it are dropped. An empty range changes
    /// nothing.
    pub fn insert_range(&mut self, range: Range<Idx>)
        requires
            old(self).wf(),
        ensures
            final(self).wf(),
            range.start.to_int() >= range.end.to_int() ==> final(self)@ == old(self)@,
            range.start.to_int() < range.end.to_int() ==> final(self)@ == insert_spec(
                old(self)@,
                range,
                (),
            ),
    {
        let ghost s = self@;
        self.0.insert_range(range, ());
        proof {
            if range.start.to_int() < range.end.to_int() {
                assert(self@ =~= insert_spec(s, range, ()));
            }
        }
    }

    /// Adds the point `index` to the set. The result is `true` where it was
    /// not in the set, in which case it becomes a range of its own; nothing
    /// changes where it was.
    ///
    /// A point that is not in the set must not be the largest index.
    pub fn add_unit(&mut self, index: Idx) -> (added: bool)
        requires
            old(self).wf(),
            !covers(old(self)@, index.to_int()) ==> index.to_int() < Idx::max_int(),
        ensures
            final(self).wf(),
            added == !covers(old(self)@, index.to_int()),
            !added ==> final(self)@ == old(self)@,
            added ==> final(self)@ == old(self)@.insert(
                count_ended(old(self)@, index),
                member(unit_range(index)),
            ),
    {
        let ghost s = self@;
        let added = self.0.add_unit(index, ());
        proof {
            if !added {
                let k = index_of(s, index.to_int());
                assert(s[k].value == ());
                assert(self@ =~= s);
            }
        }
        added
    }

    /// Adds `range` to the set: the range and every range it shares a point
    /// with become one range, which spans them all. An empty range changes
    /// nothing.
    pub fn add_range(&mut self, range: Range<Idx>)
        requires
            old(self).wf(),
        ensures
            final(self).wf(),
            range.start.to_int() >= range.end.to_int() ==> final(self)@ == old(self)@,
            range.start.to_int() < range.end.to_int() ==> final(self)@ == add_spec(
                old(self)@,
                range,
                (),
            ),
    {
        self.0.add_range(range, ());
    }

    /// Removes the points of `range` from the set: ranges inside it are
    /// dropped, ranges that reach into it are cut at its ends. An empty range
    /// changes nothing.
    pub fn remove_range(&mut self, range: Range<Idx>)
        requires
            old(self).wf(),
        ensures
            final(self).wf(),
            range.start.to_int() >= range.end.to_int() ==> final(self)@ == old(self)@,
            range.start.to_int() < range.end.to_int() ==> final(self)@ == remove_spec(
                old(self)@,
                range,
                (),
                (),
            ),
    {
        let left = |r: Range<Idx>, v: &()| -> (u: ()) { () };
        let right = |r: Range<Idx>, v: &()| -> (u: ()) { () };
        self.0.remove_range(range, left, right);
    }

    /// Parts the range that holds `at` in two at `at`, unless no range holds
    /// it or one begins there.
    pub fn split(&mut self, at: Idx)
        requires
            old(self).wf(),
        ensures
            final(self).wf(),
            !covers(old(self)@, at.to_int()) ==> final(self)@ == old(self)@,
            covers(old(self)@, at.to_int()) ==> parted_at(
                old(self)@,
                index_of(old(self)@, at.to_int()),
                at,
                final(self)@,
            ),
    {
        let _ = self.0.split(at);
    }
}

} // verus!
