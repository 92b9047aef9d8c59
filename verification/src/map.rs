use crate::index::OrderedIndex;
use core::ops::Range;
use vstd::prelude::*;

pub mod add;
pub mod algebra;
pub mod entries;
pub mod insert;
pub mod iter;
pub mod model;
pub mod query;
pub mod remove;
pub mod search;
pub mod split;
pub mod union;

pub use entries::{Entries, EntriesRef};
pub use iter::{IntoIter, Iter};

verus! {

/// One stored interval `[range.start, range.end)` with the value it carries.
#[derive(Debug, PartialEq, Eq)]
pub struct Entry<Idx, V> {
    pub range: Range<Idx>,
    pub value: V,
}

impl<Idx: OrderedIndex, V> Entry<Idx, V> {
    /// The first point of the entry.
    pub open spec fn lo(self) -> int {
        self.range.start.to_int()
    }

    /// The first point past the entry.
    pub open spec fn hi(self) -> int {
        self.range.end.to_int()
    }

    /// Whether the point `p` lies in the entry.
    pub open spec fn holds(self, p: int) -> bool {
        self.lo() <= p < self.hi()
    }
}

impl<Idx: Copy, V: Clone> Clone for Entry<Idx, V> {
    fn clone(&self) -> (r: Self)
        ensures
            r.range == self.range,
            cloned(self.value, r.value),
    {
        Entry { range: self.range.start..self.range.end, value: self.value.clone() }
    }
}

impl<Idx, V> From<Entry<Idx, V>> for (Range<Idx>, V) {
    fn from(e: Entry<Idx, V>) -> (r: Self) {
        (e.range, e.value)
    }
}

impl<Idx, V> vstd::std_specs::convert::FromSpecImpl<Entry<Idx, V>> for (Range<Idx>, V) {
    open spec fn obeys_from_spec() -> bool {
        true
    }

    open spec fn from_spec(e: Entry<Idx, V>) -> Self {
        (e.range, e.value)
    }
}

/// A map from disjoint half-open ranges to values, kept as a sequence of
/// entries in ascending order.
#[derive(Debug, PartialEq, Eq)]
pub struct InversionMap<Idx, V> {
    pub(crate) ranges: Vec<Entry<Idx, V>>,
}

impl<Idx, V> View for InversionMap<Idx, V> {
    type V = Seq<Entry<Idx, V>>;

    /// The stored entries, in order.
    closed spec fn view(&self) -> Seq<Entry<Idx, V>> {
        self.ranges@
    }
}

impl<Idx: OrderedIndex, V> Default for InversionMap<Idx, V> {
    /// An empty map.
    fn default() -> (m: Self)
        ensures
            m.wf(),
            m@ == Seq::<Entry<Idx, V>>::empty(),
    {
        InversionMap { ranges: Vec::new() }
    }
}

/// No entry is empty, and every entry ends at or before the start of each
/// later one.
pub open spec fn entries_wf<Idx: OrderedIndex, V>(s: Seq<Entry<Idx, V>>) -> bool {
    &&& forall|i: int| 0 <= i < s.len() ==> (#[trigger] s[i]).lo() < s[i].hi()
    &&& forall|i: int, j: int|
        0 <= i < j < s.len() ==> (#[trigger] s[i]).hi() <= (#[trigger] s[j]).lo()
}

/// Whether some entry of `s` holds the point `p`.
pub open spec fn covers<Idx: OrderedIndex, V>(s: Seq<Entry<Idx, V>>, p: int) -> bool {
    exists|i: int| 0 <= i < s.len() && (#[trigger] s[i]).holds(p)
}

/// The position of an entry of `s` that holds `p`.
pub open spec fn index_of<Idx: OrderedIndex, V>(s: Seq<Entry<Idx, V>>, p: int) -> int {
    choose|i: int| 0 <= i < s.len() && (#[trigger] s[i]).holds(p)
}

/// The value stored for the point `p`.
pub open spec fn value_at<Idx: OrderedIndex, V>(s: Seq<Entry<Idx, V>>, p: int) -> V {
    s[index_of(s, p)].value
}

/// Puts `e` in the place of the elements of `v` at `lo..hi`.
pub(crate) fn replace_run<T>(v: &mut Vec<T>, lo: usize, hi: usize, e: T)
    requires
        lo <= hi <= old(v)@.len(),
    ensures
        final(v)@ == old(v)@.subrange(0, lo as int).push(e) + old(v)@.subrange(
            hi as int,
            old(v)@.len() as int,
        ),
{
    if lo == hi {
        v.insert(lo, e);
        assert(v@ =~= old(v)@.subrange(0, lo as int).push(e) + old(v)@.subrange(
            hi as int,
            old(v)@.len() as int,
        ));
    } else {
        let mut tail = v.split_off(hi);
        v.truncate(lo);
        v.push(e);
        v.append(&mut tail);
    }
}

/// Takes the elements at `lo..hi` out of `v`.
pub(crate) fn remove_run<T>(v: &mut Vec<T>, lo: usize, hi: usize)
    requires
        lo <= hi <= old(v)@.len(),
    ensures
        final(v)@ == old(v)@.subrange(0, lo as int) + old(v)@.subrange(
            hi as int,
            old(v)@.len() as int,
        ),
{
    if lo == hi {
        assert(v@ =~= old(v)@.subrange(0, lo as int) + old(v)@.subrange(
            hi as int,
            old(v)@.len() as int,
        ));
    } else {
        let mut tail = v.split_off(hi);
        v.truncate(lo);
        v.append(&mut tail);
    }
}

/// `Vec::capacity`: the number of elements that the vector can hold without
/// allocating anew, which is never less than the number it holds.
#[verifier::external_body]
fn vec_capacity<T>(v: &Vec<T>) -> (c: usize)
    ensures
        c >= v@.len(),
{
    v.capacity()
}

impl<Idx: OrderedIndex, V> InversionMap<Idx, V> {
    /// The invariant of the map: its entries are non-empty, ascending and
    /// free of overlap.
    pub open spec fn wf(&self) -> bool {
        entries_wf(self@)
    }

    /// The entry at `i`.
    pub(crate) fn entry(&self, i: usize) -> (e: &Entry<Idx, V>)
        requires
            i < self@.len(),
        ensures
            *e == self@[i as int],
    {
        &self.ranges[i]
    }

    /// Takes the entries out of the map, which is left empty.
    pub(crate) fn take_entries(&mut self) -> (v: Vec<Entry<Idx, V>>)
        ensures
            v@ == old(self)@,
            final(self)@ == Seq::<Entry<Idx, V>>::empty(),
    {
        let mut v: Vec<Entry<Idx, V>> = Vec::new();
        core::mem::swap(&mut self.ranges, &mut v);
        v
    }

    /// A map of the entries of `v`, which are well-formed.
    pub(crate) fn from_wf(v: Vec<Entry<Idx, V>>) -> (m: Self)
        requires
            entries_wf(v@),
        ensures
            m.wf(),
            m@ == v@,
    {
        InversionMap { ranges: v }
    }

    /// The number of entries the map can hold without allocating anew.
    pub fn capacity(&self) -> (c: usize)
        ensures
            c >= self@.len(),
    {
        vec_capacity(&self.ranges)
    }

    /// An empty map.
    pub fn new() -> (m: Self)
        ensures
            m.wf(),
            m@ == Seq::<Entry<Idx, V>>::empty(),
    {
        InversionMap { ranges: Vec::new() }
    }

    /// An empty map with room for `capacity` entries.
    pub fn with_capacity(capacity: usize) -> (m: Self)
        ensures
            m.wf(),
            m@ == Seq::<Entry<Idx, V>>::empty(),
    {
        InversionMap { ranges: Vec::with_capacity(capacity) }
    }

    /// Removes every entry.
    pub fn clear(&mut self)
        ensures
            final(self).wf(),
            final(self)@ == Seq::<Entry<Idx, V>>::empty(),
    {
        self.ranges.clear();
    }

    /// The number of entries.
    pub fn len(&self) -> (n: usize)
        ensures
            n == self@.len(),
    {
        self.ranges.len()
    }

    /// Whether the map has no entry.
    pub fn is_empty(&self) -> (b: bool)
        ensures
            b == (self@.len() == 0),
    {
        self.ranges.is_empty()
    }

    /// The start of the first entry.
    pub fn start(&self) -> (r: Option<Idx>)
        ensures
            r == (if self@.len() == 0 {
                None
            } else {
                Some(self@.first().range.start)
            }),
    {
        if self.ranges.len() == 0 {
            None
        } else {
            Some(self.ranges[0].range.start)
        }
    }

    /// The end of the last entry.
    pub fn end(&self) -> (r: Option<Idx>)
        ensures
            r == (if self@.len() == 0 {
                None
            } else {
                Some(self@.last().range.end)
            }),
    {
        let n = self.ranges.len();
        if n == 0 {
            None
        } else {
            Some(self.ranges[n - 1].range.end)
        }
    }

    /// The first entry.
    pub fn first(&self) -> (r: Option<(Range<Idx>, &V)>)
        ensures
            r == (if self@.len() == 0 {
                None
            } else {
                Some((self@.first().range, &self@.first().value))
            }),
    {
        if self.ranges.len() == 0 {
            None
        } else {
            let e = &self.ranges[0];
            Some((e.range.start..e.range.end, &e.value))
        }
    }

    /// The last entry.
    pub fn last(&self) -> (r: Option<(Range<Idx>, &V)>)
        ensures
            r == (if self@.len() == 0 {
                None
            } else {
                Some((self@.last().range, &self@.last().value))
            }),
    {
        let n = self.ranges.len();
        if n == 0 {
            None
        } else {
            let e = &self.ranges[n - 1];
            Some((e.range.start..e.range.end, &e.value))
        }
    }

    /// The range from the start of the first entry to the end of the last.
    pub fn span(&self) -> (r: Option<Range<Idx>>)
        ensures
            r == (if self@.len() == 0 {
                None
            } else {
                Some(Range { start: self@.first().range.start, end: self@.last().range.end })
            }),
    {
        let n = self.ranges.len();
        if n == 0 {
            None
        } else {
            Some(self.ranges[0].range.start..self.ranges[n - 1].range.end)
        }
    }
}

impl<Idx: OrderedIndex, V: Clone> Clone for InversionMap<Idx, V> {
    fn clone(&self) -> (r: Self)
        ensures
            self.wf() ==> r.wf(),
            model::is_clone_of(r@, self@),
    {
        let mut out: Vec<Entry<Idx, V>> = Vec::new();
        let mut i: usize = 0;
        while i < self.ranges.len()
            invariant
                i <= self.ranges.len(),
                out@.len() == i,
                forall|j: int|
                    0 <= j < i ==> (#[trigger] out@[j]).range == self.ranges@[j].range && cloned(
                        self.ranges@[j].value,
                        out@[j].value,
                    ),
            decreases self.ranges.len() - i,
        {
            out.push(self.ranges[i].clone());
            i += 1;
        }
        InversionMap { ranges: out }
    }
}

} // verus!
