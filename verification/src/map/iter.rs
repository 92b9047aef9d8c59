use crate::index::OrderedIndex;
use crate::map::entries::EntriesRef;
use crate::map::{Entry, InversionMap};
use core::ops::Range;
use vstd::prelude::*;

verus! {

/// A cursor over borrowed entries, from the first to the last.
pub struct Iter<'a, Idx, V> {
    entries: &'a [Entry<Idx, V>],
    pos: usize,
}

impl<'a, Idx: OrderedIndex, V> Iter<'a, Idx, V> {
    /// The entries that the cursor has yet to yield, in order.
    pub closed spec fn remaining(&self) -> Seq<Entry<Idx, V>> {
        if self.pos <= self.entries@.len() {
            self.entries@.skip(self.pos as int)
        } else {
            Seq::empty()
        }
    }

    /// A cursor before the first of `entries`.
    pub(crate) fn over(entries: &'a [Entry<Idx, V>]) -> (it: Self)
        ensures
            it.remaining() == entries@,
    {
        assert(entries@.skip(0) =~= entries@);
        Iter { entries, pos: 0 }
    }

    /// Yields the range and the value of the next entry, or `None` when all
    /// entries have been yielded.
    pub fn next(&mut self) -> (r: Option<(Range<Idx>, &'a V)>)
        ensures
            r is None <==> old(self).remaining().len() == 0,
            r is None ==> final(self).remaining() == old(self).remaining(),
            r matches Some(item) ==> item.0 == old(self).remaining().first().range && *item.1 == old(
                self,
            ).remaining().first().value && final(self).remaining() == old(
                self,
            ).remaining().drop_first(),
    {
        if self.pos < self.entries.len() {
            let e = &self.entries[self.pos];
            proof {
                assert(self.entries@.skip(self.pos as int).drop_first() =~= self.entries@.skip(
                    self.pos + 1,
                ));
            }
            self.pos += 1;
            Some((e.range.start..e.range.end, &e.value))
        } else {
            None
        }
    }

    /// The number of entries yet to be yielded.
    pub fn len(&self) -> (n: usize)
        ensures
            n == self.remaining().len(),
    {
        if self.pos <= self.entries.len() {
            self.entries.len() - self.pos
        } else {
            0
        }
    }

    /// The least and the greatest number of entries yet to be yielded, which
    /// are the same.
    pub fn size_hint(&self) -> (r: (usize, Option<usize>))
        ensures
            r.0 == self.remaining().len(),
            r.1 == Some(r.0),
    {
        let n = self.len();
        (n, Some(n))
    }
}

/// A cursor over entries that it owns, from the first to the last.
pub struct IntoIter<Idx, V> {
    rest: Vec<Entry<Idx, V>>,
}

impl<Idx: OrderedIndex, V> IntoIter<Idx, V> {
    /// The entries that the cursor has yet to yield, in order.
    pub closed spec fn remaining(&self) -> Seq<Entry<Idx, V>> {
        self.rest@.reverse()
    }

    /// Yields the range and the value of the next entry, or `None` when all
    /// entries have been yielded.
    pub fn next(&mut self) -> (r: Option<(Range<Idx>, V)>)
        ensures
            r is None <==> old(self).remaining().len() == 0,
            r is None ==> final(self).remaining() == old(self).remaining(),
            r matches Some(item) ==> item.0 == old(self).remaining().first().range && item.1 == old(
                self,
            ).remaining().first().value && final(self).remaining() == old(
                self,
            ).remaining().drop_first(),
    {
        let ghost before = self.rest@;
        match self.rest.pop() {
            Some(e) => {
                proof {
                    assert(self.rest@.reverse() =~= before.reverse().drop_first());
                }
                Some((e.range, e.value))
            },
            None => None,
        }
    }

    /// The number of entries yet to be yielded.
    pub fn len(&self) -> (n: usize)
        ensures
            n == self.remaining().len(),
    {
        self.rest.len()
    }

    /// The least and the greatest number of entries yet to be yielded, which
    /// are the same.
    pub fn size_hint(&self) -> (r: (usize, Option<usize>))
        ensures
            r.0 == self.remaining().len(),
            r.1 == Some(r.0),
    {
        let n = self.len();
        (n, Some(n))
    }
}

impl<Idx: OrderedIndex, V> InversionMap<Idx, V> {
    /// A cursor over the entries of the map, in ascending order.
    pub fn iter(&self) -> (it: Iter<'_, Idx, V>)
        ensures
            it.remaining() == self@,
    {
        Iter::over(self.ranges.as_slice())
    }

    /// Turns the map into a cursor over its entries, in ascending order.
    pub fn into_iter(self) -> (it: IntoIter<Idx, V>)
        ensures
            it.remaining() == self@,
    {
        let ghost s = self@;
        let mut v = self.ranges;
        let mut rest: Vec<Entry<Idx, V>> = Vec::new();
        while v.len() > 0
            invariant
                v@.len() <= s.len(),
                v@ == s.take(v@.len() as int),
                rest@ =~= s.skip(v@.len() as int).reverse(),
            decreases v@.len(),
        {
            let ghost m = v@.len() as int;
            let e = v.pop().unwrap();
            rest.push(e);
            proof {
                assert(v@ =~= s.take(m - 1));
                assert(rest@ =~= s.skip(m - 1).reverse());
            }
        }
        proof {
            assert(s.skip(0) =~= s);
            assert(rest@.reverse() =~= s);
        }
        IntoIter { rest }
    }
}

impl<'im, Idx: OrderedIndex, V> EntriesRef<'im, Idx, V> {
    /// A cursor over the entries, in ascending order.
    pub fn iter(&self) -> (it: Iter<'im, Idx, V>)
        ensures
            it.remaining() == self@,
    {
        Iter::over(self.as_slice())
    }
}

} // verus!
