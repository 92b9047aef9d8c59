use crate::index::{index_le, index_lt, OrderedIndex};
use crate::map::add::{lemma_gap_index, lemma_hit_index};
use crate::map::entries::EntriesRef;
use crate::map::model::{lemma_meets, overlapped};
use crate::map::{covers, entries_wf, index_of, Entry, InversionMap};
use crate::util::non_empty;
use core::ops::Range;
use vstd::prelude::*;

verus! {

/// Whether `range` shares a point with an entry of `s`.
pub open spec fn meets_any<Idx: OrderedIndex, V>(s: Seq<Entry<Idx, V>>, range: Range<Idx>) -> bool {
    &&& range.start.to_int() < range.end.to_int()
    &&& exists|i: int|
        0 <= i < s.len() && (#[trigger] s[i]).lo() < range.end.to_int() && range.start.to_int()
            < s[i].hi()
}

/// The entries at `lo..hi` being those that share a point with `range`, some
/// entry shares a point with it just if the run is not empty.
proof fn lemma_meets_any<Idx: OrderedIndex, V>(
    s: Seq<Entry<Idx, V>>,
    range: Range<Idx>,
    lo: int,
    hi: int,
)
    requires
        entries_wf(s),
        range.start.to_int() < range.end.to_int(),
        0 <= lo <= hi <= s.len(),
        lo > 0 ==> s[lo - 1].hi() <= range.start.to_int(),
        lo < s.len() ==> s[lo].hi() > range.start.to_int(),
        hi > 0 ==> s[hi - 1].lo() < range.end.to_int(),
        hi < s.len() ==> s[hi].lo() >= range.end.to_int(),
    ensures
        overlapped(s, range) == s.subrange(lo, hi),
        meets_any(s, range) <==> lo < hi,
{
    let a = range.start.to_int();
    let b = range.end.to_int();
    lemma_meets(s, a, b, lo, hi);
    if lo < hi {
        if lo < hi - 1 {
            assert(s[lo].hi() <= s[hi - 1].lo());
        }
        assert(s[lo].lo() < s[lo].hi());
        assert(s[lo].lo() < b && a < s[lo].hi());
    }
    if meets_any(s, range) {
        let i = choose|i: int| 0 <= i < s.len() && (#[trigger] s[i]).lo() < b && a < s[i].hi();
        if i < lo - 1 {
            assert(s[i].hi() <= s[lo - 1].lo());
            assert(s[lo - 1].lo() < s[lo - 1].hi());
        }
        if i > hi {
            assert(s[hi].hi() <= s[i].lo());
            assert(s[hi].lo() < s[hi].hi());
        }
    }
}

impl<Idx: OrderedIndex, V> InversionMap<Idx, V> {
    /// A map with the given entries, or `None` where they are not non-empty,
    /// ascending and free of overlap.
    pub fn from_entries(entries: Vec<Entry<Idx, V>>) -> (r: Option<Self>)
        ensures
            r is Some <==> entries_wf(entries@),
            r matches Some(m) ==> m.wf() && m@ == entries@,
    {
        let n = entries.len();
        let mut i: usize = 0;
        while i < n
            invariant
                n == entries@.len(),
                i <= n,
                entries_wf(entries@.take(i as int)),
            decreases n - i,
        {
            let e = &entries[i];
            if !index_lt(e.range.start, e.range.end) {
                return None;
            }
            if i > 0 && !index_le(entries[i - 1].range.end, e.range.start) {
                return None;
            }
            proof {
                let s = entries@;
                let t = s.take(i + 1);
                assert forall|x: int, y: int| 0 <= x < y < t.len() implies (#[trigger] t[x]).hi() <= (
                #[trigger] t[y]).lo() by {
                    if y < i {
                        assert(s.take(i as int)[x].hi() <= s.take(i as int)[y].lo());
                    } else if x < i - 1 {
                        assert(s.take(i as int)[x].hi() <= s.take(i as int)[i - 1].lo());
                        assert(s.take(i as int)[i - 1].lo() < s.take(i as int)[i - 1].hi());
                    }
                }
                assert forall|x: int| 0 <= x < t.len() implies (#[trigger] t[x]).lo()
                    < t[x].hi() by {
                    if x < i {
                        assert(s.take(i as int)[x].lo() < s.take(i as int)[x].hi());
                    }
                }
            }
            i += 1;
        }
        assert(entries@.take(n as int) =~= entries@);
        Some(InversionMap { ranges: entries })
    }

    /// Gives the entries up as a vector, in ascending order.
    pub fn into_entries(self) -> (v: Vec<Entry<Idx, V>>)
        ensures
            v@ == self@,
    {
        self.ranges
    }

    /// Whether an entry holds the point `index`.
    pub fn contains(&self, index: Idx) -> (b: bool)
        requires
            self.wf(),
        ensures
            b == covers(self@, index.to_int()),
    {
        match self.binary_search(index) {
            Ok(i) => {
                proof {
                    lemma_hit_index(self@, index.to_int(), i as int);
                }
                true
            },
            Err(i) => {
                proof {
                    lemma_gap_index(self@, index.to_int(), i as int);
                }
                false
            },
        }
    }

    /// The range and the value of the entry that holds the point `index`.
    pub fn lookup(&self, index: Idx) -> (r: Option<(Range<Idx>, &V)>)
        requires
            self.wf(),
        ensures
            r is Some <==> covers(self@, index.to_int()),
            r matches Some(found) ==> found.0 == self@[index_of(self@, index.to_int())].range
                && *found.1 == self@[index_of(self@, index.to_int())].value,
    {
        match self.binary_search(index) {
            Ok(i) => {
                proof {
                    lemma_hit_index(self@, index.to_int(), i as int);
                }
                let e = &self.ranges[i];
                Some((e.range.start..e.range.end, &e.value))
            },
            Err(i) => {
                proof {
                    lemma_gap_index(self@, index.to_int(), i as int);
                }
                None
            },
        }
    }

    /// The entries that share a point with `range`, or `None` where there is
    /// none; an empty range shares no point with any entry.
    pub fn lookup_range(&self, range: Range<Idx>) -> (r: Option<EntriesRef<'_, Idx, V>>)
        requires
            self.wf(),
        ensures
            r is Some <==> meets_any(self@, range),
            r matches Some(es) ==> es@ == overlapped(self@, range),
    {
        match non_empty(range) {
            None => {
                None
            },
            Some(range) => {
                let (lo, hi) = self.touch_points(&range);
                proof {
                    lemma_meets_any(self@, range, lo as int, hi as int);
                }
                if lo < hi {
                    Some(EntriesRef::of(&self.ranges, lo, hi))
                } else {
                    None
                }
            },
        }
    }

    /// Whether `range` shares a point with an entry.
    pub fn intersects(&self, range: Range<Idx>) -> (b: bool)
        requires
            self.wf(),
        ensures
            b == meets_any(self@, range),
    {
        match non_empty(range) {
            None => {
                false
            },
            Some(range) => {
                let (lo, hi) = self.touch_points(&range);
                proof {
                    lemma_meets_any(self@, range, lo as int, hi as int);
                }
                lo < hi
            },
        }
    }
}

} // verus!
