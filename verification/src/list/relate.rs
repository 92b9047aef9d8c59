use crate::index::{index_eq, index_le, OrderedIndex};
use crate::list::InversionList;
use crate::map::add::lemma_gap_index;
use crate::map::query::meets_any;
use crate::map::search::is_gap;
use crate::map::{covers, entries_wf, Entry};
use crate::util::non_empty;
use core::ops::Range;
use vstd::prelude::*;

verus! {

/// Every point of `range` is held by an entry of `s`.
pub open spec fn covers_range<Idx: OrderedIndex, V>(s: Seq<Entry<Idx, V>>, range: Range<Idx>) -> bool {
    forall|p: int| range.start.to_int() <= p < range.end.to_int() ==> covers(s, p)
}

/// Every point that `s` holds, `t` holds too.
pub open spec fn subset_of<Idx: OrderedIndex, V, W>(
    s: Seq<Entry<Idx, V>>,
    t: Seq<Entry<Idx, W>>,
) -> bool {
    forall|p: int| covers(s, p) ==> covers(t, p)
}

/// No point is held by both `s` and `t`.
pub open spec fn disjoint_from<Idx: OrderedIndex, V, W>(
    s: Seq<Entry<Idx, V>>,
    t: Seq<Entry<Idx, W>>,
) -> bool {
    forall|p: int| !(covers(s, p) && covers(t, p))
}

/// A range that shares a point with an entry of `t` holds a point that `t`
/// holds, and the other way round.
proof fn lemma_meets_point<Idx: OrderedIndex, V>(t: Seq<Entry<Idx, V>>, range: Range<Idx>)
    requires
        entries_wf(t),
    ensures
        meets_any(t, range) <==> exists|p: int|
            range.start.to_int() <= p < range.end.to_int() && #[trigger] covers(t, p),
{
    let a = range.start.to_int();
    let b = range.end.to_int();
    if meets_any(t, range) {
        let i = choose|i: int| 0 <= i < t.len() && (#[trigger] t[i]).lo() < b && a < t[i].hi();
        let p = if t[i].lo() < a {
            a
        } else {
            t[i].lo()
        };
        assert(t[i].lo() < t[i].hi());
        assert(t[i].holds(p));
        assert(a <= p < b && covers(t, p));
    }
    if exists|p: int| a <= p < b && #[trigger] covers(t, p) {
        let p = choose|p: int| a <= p < b && #[trigger] covers(t, p);
        let i = choose|i: int| 0 <= i < t.len() && (#[trigger] t[i]).holds(p);
        assert(t[i].lo() < b && a < t[i].hi());
    }
}

impl<Idx: OrderedIndex> InversionList<Idx> {
    /// Whether every point of `range` is in the set. An empty range is held
    /// by no set.
    pub fn contains_range(&self, range: Range<Idx>) -> (b: bool)
        requires
            self.wf(),
        ensures
            b == (range.start.to_int() < range.end.to_int() && covers_range(self@, range)),
    {
        let ghost s = self@;
        let ghost a = range.start.to_int();
        let ghost b = range.end.to_int();
        let start = range.start;
        let end = range.end;
        if non_empty(range).is_none() {
            return false;
        }
        let n = self.0.len();
        let mut i = match self.0.binary_search(start) {
            Ok(i) => i,
            Err(i) => {
                proof {
                    lemma_gap_index(s, a, i as int);
                }
                return false;
            },
        };
        while !index_le(end, self.0.entry(i).range.end)
            invariant
                self.wf(),
                s == self@,
                n == s.len(),
                a == range.start.to_int(),
                b == range.end.to_int(),
                b == end.to_int(),
                a < b,
                i < n,
                s[i as int].lo() <= a || (i > 0 && s[i as int].lo() <= b),
                a < s[i as int].hi(),
                forall|p: int| a <= p < s[i as int].hi() ==> covers(s, p),
            decreases n - i,
        {
            let reached = self.0.entry(i).range.end;
            if i + 1 < n && index_eq(self.0.entry(i + 1).range.start, reached) {
                proof {
                    assert forall|p: int| a <= p < s[i + 1].hi() implies covers(s, p) by {
                        if p >= s[i as int].hi() {
                            assert(s[i + 1].holds(p));
                        }
                    }
                    assert(s[i + 1].lo() < s[i + 1].hi());
                }
                i += 1;
            } else {
                proof {
                    let p = s[i as int].hi();
                    assert(is_gap(s, p, i + 1)) by {
                        assert forall|j: int| 0 <= j < i + 1 implies (#[trigger] s[j]).hi()
                            <= p by {
                            if j < i {
                                assert(s[j].hi() <= s[i as int].lo());
                                assert(s[i as int].lo() < s[i as int].hi());
                            }
                        }
                        assert forall|j: int| i + 1 <= j < s.len() implies p < (#[trigger] s[j]).lo() by {
                            assert(s[i as int].hi() <= s[i + 1].lo());
                            if i + 1 < j {
                                assert(s[i + 1].hi() <= s[j].lo());
                                assert(s[i + 1].lo() < s[i + 1].hi());
                            }
                        }
                    }
                    lemma_gap_index(s, p, i + 1);
                    assert(a <= p < b && !covers(s, p));
                }
                return false;
            }
        }
        true
    }

    /// Whether every point of this set is in `other`.
    pub fn is_subset(&self, other: &Self) -> (b: bool)
        requires
            self.wf(),
            other.wf(),
        ensures
            b == subset_of(self@, other@),
    {
        let n = self.0.len();
        let mut i: usize = 0;
        while i < n
            invariant
                self.wf(),
                other.wf(),
                n == self@.len(),
                i <= n,
                forall|j: int| 0 <= j < i ==> covers_range(other@, (#[trigger] self@[j]).range),
            decreases n - i,
        {
            let e = self.0.entry(i);
            if !other.contains_range(e.range.start..e.range.end) {
                proof {
                    let r = self@[i as int].range;
                    assert(self@[i as int].lo() < self@[i as int].hi());
                    let p = choose|p: int|
                        r.start.to_int() <= p < r.end.to_int() && !covers(other@, p);
                    assert(self@[i as int].holds(p));
                    assert(covers(self@, p) && !covers(other@, p));
                }
                return false;
            }
            i += 1;
        }
        proof {
            assert forall|p: int| covers(self@, p) implies covers(other@, p) by {
                let j = choose|j: int| 0 <= j < self@.len() && (#[trigger] self@[j]).holds(p);
                assert(covers_range(other@, self@[j].range));
            }
        }
        true
    }

    /// Whether every point of `other` is in this set.
    pub fn is_superset(&self, other: &Self) -> (b: bool)
        requires
            self.wf(),
            other.wf(),
        ensures
            b == subset_of(other@, self@),
    {
        other.is_subset(self)
    }

    /// Whether the ranges of this set share no point with `other`.
    fn apart_from(&self, other: &Self) -> (b: bool)
        requires
            self.wf(),
            other.wf(),
        ensures
            b == disjoint_from(self@, other@),
    {
        let n = self.0.len();
        let mut i: usize = 0;
        while i < n
            invariant
                self.wf(),
                other.wf(),
                n == self@.len(),
                i <= n,
                forall|j: int| 0 <= j < i ==> !meets_any(other@, (#[trigger] self@[j]).range),
            decreases n - i,
        {
            let e = self.0.entry(i);
            if other.intersects(e.range.start..e.range.end) {
                proof {
                    let r = self@[i as int].range;
                    lemma_meets_point(other@, r);
                    let p = choose|p: int|
                        r.start.to_int() <= p < r.end.to_int() && #[trigger] covers(other@, p);
                    assert(self@[i as int].holds(p));
                    assert(covers(self@, p) && covers(other@, p));
                }
                return false;
            }
            i += 1;
        }
        proof {
            assert forall|p: int| !(covers(self@, p) && covers(other@, p)) by {
                if covers(self@, p) && covers(other@, p) {
                    let j = choose|j: int| 0 <= j < self@.len() && (#[trigger] self@[j]).holds(p);
                    lemma_meets_point(other@, self@[j].range);
                    assert(!meets_any(other@, self@[j].range));
                }
            }
        }
        true
    }

    /// Whether this set and `other` have no point in common.
    pub fn is_disjoint(&self, other: &Self) -> (b: bool)
        requires
            self.wf(),
            other.wf(),
        ensures
            b == disjoint_from(self@, other@),
    {
        if self.len() <= other.len() {
            self.apart_from(other)
        } else {
            other.apart_from(self)
        }
    }
}

} // verus!
