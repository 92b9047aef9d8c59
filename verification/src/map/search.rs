use crate::index::{index_le, index_lt, OrderedIndex};
use crate::map::{Entry, InversionMap};
use core::ops::Range;
use vstd::prelude::*;

verus! {

/// The entry at `i` holds the point `key`.
pub open spec fn is_hit<Idx: OrderedIndex, V>(s: Seq<Entry<Idx, V>>, key: int, i: int) -> bool {
    0 <= i < s.len() && s[i].holds(key)
}

/// No entry holds `key`, and `i` is where an entry for it would stand: every
/// entry before `i` ends at or before `key`, every entry from `i` on begins
/// after it.
pub open spec fn is_gap<Idx: OrderedIndex, V>(s: Seq<Entry<Idx, V>>, key: int, i: int) -> bool {
    &&& 0 <= i <= s.len()
    &&& forall|j: int| 0 <= j < i ==> (#[trigger] s[j]).hi() <= key
    &&& forall|j: int| i <= j < s.len() ==> key < (#[trigger] s[j]).lo()
}

/// What a search for `key` in `s` may answer with `r`.
pub open spec fn locates<Idx: OrderedIndex, V>(
    s: Seq<Entry<Idx, V>>,
    key: int,
    r: Result<usize, usize>,
) -> bool {
    match r {
        Ok(i) => is_hit(s, key, i as int),
        Err(i) => is_gap(s, key, i as int),
    }
}

impl<Idx: OrderedIndex, V> InversionMap<Idx, V> {
    /// Binary search for `key` among the entries from `from` on, all earlier
    /// entries being known to end at or before `key`.
    fn search_from(&self, from: usize, key: Idx) -> (r: Result<usize, usize>)
        requires
            self.wf(),
            from <= self@.len(),
            forall|j: int| 0 <= j < from ==> (#[trigger] self@[j]).hi() <= key.to_int(),
        ensures
            locates(self@, key.to_int(), r),
    {
        let mut lo: usize = from;
        let mut hi: usize = self.ranges.len();
        while lo < hi
            invariant
                self.wf(),
                lo <= hi <= self@.len(),
                forall|j: int| 0 <= j < lo ==> (#[trigger] self@[j]).hi() <= key.to_int(),
                forall|j: int| hi <= j < self@.len() ==> key.to_int() < (#[trigger] self@[j]).lo(),
            decreases hi - lo,
        {
            let mid: usize = lo + (hi - lo) / 2;
            let e = &self.ranges[mid];
            if index_lt(key, e.range.start) {
                assert forall|j: int| mid <= j < self@.len() implies key.to_int() < (
                #[trigger] self@[j]).lo() by {
                    if mid < j {
                        assert(self@[mid as int].hi() <= self@[j].lo());
                    }
                }
                hi = mid;
            } else if index_le(e.range.end, key) {
                assert forall|j: int| 0 <= j < mid + 1 implies (#[trigger] self@[j]).hi()
                    <= key.to_int() by {
                    if j < mid {
                        assert(self@[j].hi() <= self@[mid as int].lo());
                    }
                }
                lo = mid + 1;
            } else {
                return Ok(mid);
            }
        }
        Err(lo)
    }

    /// Finds the entry that holds `key`: `Ok` with its position, or `Err`
    /// with the position at which an entry for `key` would be inserted.
    pub fn binary_search(&self, key: Idx) -> (r: Result<usize, usize>)
        requires
            self.wf(),
        ensures
            locates(self@, key.to_int(), r),
    {
        self.search_from(0, key)
    }

    /// Searches for both ends of a non-empty `range`: for its first point
    /// `range.start`, and for its last point `range.end - 1`.
    pub fn range_binary_search(&self, range: Range<Idx>) -> (r: (
        Result<usize, usize>,
        Result<usize, usize>,
    ))
        requires
            self.wf(),
            range.start.to_int() < range.end.to_int(),
        ensures
            locates(self@, range.start.to_int(), r.0),
            locates(self@, range.end.to_int() - 1, r.1),
    {
        let start = self.binary_search(range.start);
        let idx = match start {
            Ok(i) => i,
            Err(i) => i,
        };
        proof {
            Idx::lemma_domain(range.start);
            Idx::lemma_domain(range.end);
        }
        let last = range.end.checked_sub(Idx::one()).unwrap();
        assert forall|j: int| 0 <= j < idx implies (#[trigger] self@[j]).hi() <= last.to_int() by {
            assert(self@[j].hi() <= self@[idx as int].lo() || self@[j].hi() <= range.start.to_int());
        }
        let end = self.search_from(idx, last);
        (start, end)
    }

    /// The two positions between which an exact write of the non-empty
    /// `range` replaces entries: the number of entries that begin before the
    /// range, and the first position whose entry ends after it.
    pub(crate) fn cut_points(&self, range: &Range<Idx>) -> (r: (usize, usize))
        requires
            self.wf(),
            range.start.to_int() < range.end.to_int(),
        ensures
            r.0 <= self@.len(),
            r.1 <= self@.len(),
            r.0 <= r.1 + 1,
            r.0 > 0 ==> self@[r.0 - 1].lo() < range.start.to_int(),
            r.0 < self@.len() ==> self@[r.0 as int].lo() >= range.start.to_int(),
            r.1 > 0 ==> self@[r.1 - 1].hi() <= range.end.to_int(),
            r.1 < self@.len() ==> self@[r.1 as int].hi() > range.end.to_int(),
    {
        assert(self@.len() == self.ranges.len());
        let (start, end) = self.range_binary_search(range.start..range.end);
        let left = match start {
            Ok(i) => if index_lt(self.ranges[i].range.start, range.start) {
                i + 1
            } else {
                i
            },
            Err(i) => i,
        };
        let right = match end {
            Ok(j) => if index_lt(range.end, self.ranges[j].range.end) {
                j
            } else {
                j + 1
            },
            Err(j) => j,
        };
        proof {
            let s = self@;
            if left > 0 && right + 1 < left {
                assert(s[right as int].hi() <= s[left - 1].lo());
            }
            if left > 0 {
                assert(s[left - 1].lo() < range.start.to_int()) by {
                    match start {
                        Ok(i) => {
                            if left == i && i > 0 {
                                assert(s[i - 1].hi() <= s[i as int].lo());
                            }
                        },
                        Err(i) => {},
                    }
                }
            }
            if right > 0 {
                assert(s[right - 1].hi() <= range.end.to_int()) by {
                    match end {
                        Ok(j) => {
                            if right == j && j > 0 {
                                assert(s[j - 1].hi() <= s[j as int].lo());
                            }
                        },
                        Err(j) => {},
                    }
                }
            }
            if right < s.len() {
                assert(s[right as int].hi() > range.end.to_int()) by {
                    match end {
                        Ok(j) => {
                            if right == j + 1 {
                                assert(s[j as int].hi() <= s[right as int].lo());
                            }
                        },
                        Err(j) => {},
                    }
                }
            }
        }
        (left, right)
    }

    /// The positions `lo..hi` of the entries that share a point with the
    /// non-empty `range`.
    pub(crate) fn touch_points(&self, range: &Range<Idx>) -> (r: (usize, usize))
        requires
            self.wf(),
            range.start.to_int() < range.end.to_int(),
        ensures
            r.0 <= r.1 <= self@.len(),
            r.0 > 0 ==> self@[r.0 - 1].hi() <= range.start.to_int(),
            r.0 < self@.len() ==> self@[r.0 as int].hi() > range.start.to_int(),
            r.1 > 0 ==> self@[r.1 - 1].lo() < range.end.to_int(),
            r.1 < self@.len() ==> self@[r.1 as int].lo() >= range.end.to_int(),
    {
        assert(self@.len() == self.ranges.len());
        let (start, end) = self.range_binary_search(range.start..range.end);
        let lo = match start {
            Ok(i) => i,
            Err(i) => i,
        };
        let hi = match end {
            Ok(j) => j + 1,
            Err(j) => j,
        };
        proof {
            let s = self@;
            if hi < lo {
                assert(s[hi as int].hi() <= s[lo - 1].lo() || hi + 1 == lo);
            }
        }
        (lo, hi)
    }
}

} // verus!
