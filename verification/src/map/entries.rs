use crate::index::OrderedIndex;
use crate::map::Entry;
use core::ops::Range;
use vstd::prelude::*;
use vstd::slice::slice_subrange;

verus! {

/// Entries handed over to a combinator, which owns them.
pub struct Entries<Idx, V> {
    pub(crate) it: Vec<Entry<Idx, V>>,
}

impl<Idx, V> View for Entries<Idx, V> {
    type V = Seq<Entry<Idx, V>>;

    /// The entries, in ascending order.
    closed spec fn view(&self) -> Seq<Entry<Idx, V>> {
        self.it@
    }
}

impl<Idx, V> Entries<Idx, V> {
    /// The entries of `it`.
    pub(crate) fn from_vec(it: Vec<Entry<Idx, V>>) -> (r: Self)
        ensures
            r@ == it@,
    {
        Entries { it }
    }

    /// Whether there is no entry.
    pub fn is_empty(&self) -> (b: bool)
        ensures
            b == (self@.len() == 0),
    {
        self.it.is_empty()
    }

    /// The number of entries.
    pub fn len(&self) -> (n: usize)
        ensures
            n == self@.len(),
    {
        self.it.len()
    }

    /// Gives the entries up as a vector.
    pub fn into_vec(self) -> (v: Vec<Entry<Idx, V>>)
        ensures
            v@ == self@,
    {
        self.it
    }
}

/// A borrowed run of the entries of a map.
pub struct EntriesRef<'im, Idx, V> {
    pub(crate) slice: &'im [Entry<Idx, V>],
}

impl<'im, Idx, V> View for EntriesRef<'im, Idx, V> {
    type V = Seq<Entry<Idx, V>>;

    /// The entries, in ascending order.
    closed spec fn view(&self) -> Seq<Entry<Idx, V>> {
        self.slice@
    }
}

impl<'im, Idx: OrderedIndex, V> EntriesRef<'im, Idx, V> {
    /// The entries of `v` at `lo..hi`.
    pub(crate) fn of(v: &'im Vec<Entry<Idx, V>>, lo: usize, hi: usize) -> (r: Self)
        requires
            lo <= hi <= v@.len(),
        ensures
            r@ == v@.subrange(lo as int, hi as int),
    {
        EntriesRef { slice: slice_subrange(v.as_slice(), lo, hi) }
    }

    /// The entries as a slice.
    pub(crate) fn as_slice(&self) -> (r: &'im [Entry<Idx, V>])
        ensures
            r@ == self@,
    {
        self.slice
    }

    /// Whether there is no entry.
    pub fn is_empty(&self) -> (b: bool)
        ensures
            b == (self@.len() == 0),
    {
        self.slice.len() == 0
    }

    /// The number of entries.
    pub fn len(&self) -> (n: usize)
        ensures
            n == self@.len(),
    {
        self.slice.len()
    }

    /// The range and the value of the entry at `i`.
    pub fn get(&self, i: usize) -> (r: (Range<Idx>, &'im V))
        requires
            i < self@.len(),
        ensures
            r.0 == self@[i as int].range,
            *r.1 == self@[i as int].value,
    {
        let e = &self.slice[i];
        (e.range.start..e.range.end, &e.value)
    }
}

} // verus!
