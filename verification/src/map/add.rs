use crate::index::{index_max, index_min, OrderedIndex};
use crate::map::entries::EntriesRef;
use crate::map::model::{
    begins_from, count_ended, ends_by, lemma_begins_from, lemma_ends_by, lemma_meets, overlapped,
};
use crate::map::search::{is_gap, is_hit};
use crate::map::{covers, entries_wf, index_of, replace_run, Entry, InversionMap};
use crate::util::non_empty;
use core::ops::Range;
use vstd::prelude::*;

verus! {

/// The smallest range that holds `range` and every entry of `touched`, the
/// entries that share a point with `range`.
pub open spec fn hull<Idx: OrderedIndex, V>(touched: Seq<Entry<Idx, V>>, range: Range<Idx>) -> Range<
    Idx,
> {
    Range {
        start: if touched.len() > 0 && touched.first().lo() < range.start.to_int() {
            touched.first().range.start
        } else {
            range.start
        },
        end: if touched.len() > 0 && touched.last().hi() > range.end.to_int() {
            touched.last().range.end
        } else {
            range.end
        },
    }
}

/// The entries after the non-empty `range` has been added with `value`: the
/// entries that end at or before the range, one entry with `value` that
/// spans the range and every entry it shares a point with, and the entries
/// that begin at or after the range.
pub open spec fn add_spec<Idx: OrderedIndex, V>(
    s: Seq<Entry<Idx, V>>,
    range: Range<Idx>,
    value: V,
) -> Seq<Entry<Idx, V>> {
    s.filter(ends_by(range.start.to_int())).push(
        Entry { range: hull(overlapped(s, range), range), value },
    ) + s.filter(begins_from(range.end.to_int()))
}

/// The index that follows `index`.
pub open spec fn successor<Idx: OrderedIndex>(index: Idx) -> Idx {
    choose|next: Idx| next.to_int() == index.to_int() + 1
}

/// The range that holds the point `index` and no other.
pub open spec fn unit_range<Idx: OrderedIndex>(index: Idx) -> Range<Idx> {
    Range { start: index, end: successor(index) }
}

/// Adding to the run `lo..hi` of entries that share a point with the range.
proof fn lemma_add<Idx: OrderedIndex, V>(
    s: Seq<Entry<Idx, V>>,
    range: Range<Idx>,
    value: V,
    lo: int,
    hi: int,
    t: Seq<Entry<Idx, V>>,
)
    requires
        entries_wf(s),
        range.start.to_int() < range.end.to_int(),
        0 <= lo <= hi <= s.len(),
        lo > 0 ==> s[lo - 1].hi() <= range.start.to_int(),
        lo < s.len() ==> s[lo].hi() > range.start.to_int(),
        hi > 0 ==> s[hi - 1].lo() < range.end.to_int(),
        hi < s.len() ==> s[hi].lo() >= range.end.to_int(),
        t == s.subrange(0, lo).push(
            Entry {
                range: Range {
                    start: if lo < hi && s[lo].lo() < range.start.to_int() {
                        s[lo].range.start
                    } else {
                        range.start
                    },
                    end: if lo < hi && s[hi - 1].hi() > range.end.to_int() {
                        s[hi - 1].range.end
                    } else {
                        range.end
                    },
                },
                value,
            },
        ) + s.subrange(hi, s.len() as int),
    ensures
        entries_wf(t),
        overlapped(s, range) == s.subrange(lo, hi),
        count_ended(s, range.start) == lo,
        t == add_spec(s, range, value),
{
    let a = range.start.to_int();
    let b = range.end.to_int();
    lemma_meets(s, a, b, lo, hi);
    lemma_ends_by(s, a, lo);
    lemma_begins_from(s, b, hi);
    assert(t =~= add_spec(s, range, value));
    assert forall|i: int, j: int| 0 <= i < j < t.len() implies (#[trigger] t[i]).hi() <= (
    #[trigger] t[j]).lo() by {
        let i0 = if i < lo {
            i
        } else if i == lo {
            hi - 1
        } else {
            i - lo - 1 + hi
        };
        let j0 = if j < lo {
            j
        } else if j == lo {
            lo
        } else {
            j - lo - 1 + hi
        };
        if 0 <= i0 < j0 < s.len() {
            assert(s[i0].hi() <= s[j0].lo());
        }
    }
    assert forall|i: int| 0 <= i < t.len() implies (#[trigger] t[i]).lo() < t[i].hi() by {
        if i < lo {
            assert(s[i].lo() < s[i].hi());
        } else if i == lo {
            if lo < hi {
                assert(s[lo].lo() < s[lo].hi());
                assert(s[hi - 1].lo() < s[hi - 1].hi());
                if lo < hi - 1 {
                    assert(s[lo].hi() <= s[hi - 1].lo());
                }
            }
        } else {
            assert(s[i - lo - 1 + hi].lo() < s[i - lo - 1 + hi].hi());
        }
    }
}

/// Adding a range adds its points, and no others.
pub proof fn lemma_add_points<Idx: OrderedIndex, V>(
    s: Seq<Entry<Idx, V>>,
    range: Range<Idx>,
    value: V,
    lo: int,
    hi: int,
)
    requires
        entries_wf(s),
        range.start.to_int() < range.end.to_int(),
        0 <= lo <= hi <= s.len(),
        lo > 0 ==> s[lo - 1].hi() <= range.start.to_int(),
        lo < s.len() ==> s[lo].hi() > range.start.to_int(),
        hi > 0 ==> s[hi - 1].lo() < range.end.to_int(),
        hi < s.len() ==> s[hi].lo() >= range.end.to_int(),
    ensures
        forall|p: int| #[trigger]
            covers(add_spec(s, range, value), p) <==> covers(s, p) || range.start.to_int() <= p
                < range.end.to_int(),
{
    let a = range.start.to_int();
    let b = range.end.to_int();
    let t = add_spec(s, range, value);
    let d = hi - lo - 1;
    lemma_meets(s, a, b, lo, hi);
    lemma_ends_by(s, a, lo);
    lemma_begins_from(s, b, hi);
    assert(t.len() == s.len() - d);
    assert forall|i: int| 0 <= i < lo implies #[trigger] t[i] == s[i] by {}
    assert forall|i: int| lo < i < t.len() implies #[trigger] t[i] == s[i + d] by {}
    if lo < hi {
        assert(s[lo].lo() < s[lo].hi());
        assert(s[hi - 1].lo() < s[hi - 1].hi());
        if lo < hi - 1 {
            assert(s[lo].hi() <= s[hi - 1].lo());
        }
    }
    assert forall|p: int| #[trigger] covers(t, p) <==> covers(s, p) || a <= p < b by {
        if covers(t, p) {
            let i = choose|i: int| 0 <= i < t.len() && (#[trigger] t[i]).holds(p);
            if i < lo {
                assert(s[i].holds(p));
            } else if i > lo {
                assert(s[i + d].holds(p));
            } else if !(a <= p < b) {
                if p < a {
                    assert(s[lo].holds(p));
                } else {
                    assert(s[hi - 1].holds(p));
                }
            }
        }
        if covers(s, p) {
            let i = choose|i: int| 0 <= i < s.len() && (#[trigger] s[i]).holds(p);
            if i < lo {
                assert(t[i].holds(p));
            } else if i >= hi {
                assert(t[i - d].holds(p));
            } else {
                if lo < i {
                    assert(s[lo].hi() <= s[i].lo());
                }
                if i < hi - 1 {
                    assert(s[i].hi() <= s[hi - 1].lo());
                }
                assert(t[lo].holds(p));
            }
        }
        if a <= p < b {
            assert(t[lo].holds(p));
        }
    }
}

impl<Idx: OrderedIndex, V> InversionMap<Idx, V> {
    /// Puts one entry with `value` in the place of the entries at `lo..hi`,
    /// those that share a point with the non-empty `range`.
    pub(crate) fn merge_into(&mut self, range: Range<Idx>, value: V, lo: usize, hi: usize)
        requires
            old(self).wf(),
            range.start.to_int() < range.end.to_int(),
            lo <= hi <= old(self)@.len(),
            lo > 0 ==> old(self)@[lo - 1].hi() <= range.start.to_int(),
            lo < old(self)@.len() ==> old(self)@[lo as int].hi() > range.start.to_int(),
            hi > 0 ==> old(self)@[hi - 1].lo() < range.end.to_int(),
            hi < old(self)@.len() ==> old(self)@[hi as int].lo() >= range.end.to_int(),
        ensures
            final(self).wf(),
            count_ended(old(self)@, range.start) == lo,
            final(self)@ == add_spec(old(self)@, range, value),
    {
        let ghost s = self@;
        let entry = if lo < hi {
            let start = index_min(self.ranges[lo].range.start, range.start);
            let end = index_max(self.ranges[hi - 1].range.end, range.end);
            Entry { range: start..end, value }
        } else {
            Entry { range, value }
        };
        replace_run(&mut self.ranges, lo, hi, entry);
        proof {
            if lo < hi {
                if s[lo as int].lo() == range.start.to_int() {
                    Idx::lemma_injective(s[lo as int].range.start, range.start);
                }
                if s[hi - 1].hi() == range.end.to_int() {
                    Idx::lemma_injective(s[hi - 1].range.end, range.end);
                }
            }
            lemma_add(s, range, value, lo as int, hi as int, self@);
        }
    }

    /// Adds `range` with `value`: the range and every entry it shares a
    /// point with become one entry, which spans them all and holds `value`.
    /// An empty range changes nothing.
    pub fn add_range(&mut self, range: Range<Idx>, value: V)
        requires
            old(self).wf(),
        ensures
            final(self).wf(),
            range.start.to_int() >= range.end.to_int() ==> final(self)@ == old(self)@,
            range.start.to_int() < range.end.to_int() ==> final(self)@ == add_spec(
                old(self)@,
                range,
                value,
            ),
    {
        match non_empty(range) {
            None => {},
            Some(range) => {
                let (lo, hi) = self.touch_points(&range);
                self.merge_into(range, value, lo, hi);
            },
        }
    }

    /// Adds `range` with the value that `value` makes of the entries that
    /// share a point with the range, which it may read. An empty range
    /// changes nothing, and `value` is not called.
    pub fn add_range_with<F: FnOnce(EntriesRef<Idx, V>) -> V>(
        &mut self,
        range: Range<Idx>,
        value: F,
    )
        requires
            old(self).wf(),
            range.start.to_int() < range.end.to_int() ==> forall|es: EntriesRef<Idx, V>|
                es@ == overlapped(old(self)@, range) ==> call_requires(value, (es,)),
        ensures
            final(self).wf(),
            range.start.to_int() >= range.end.to_int() ==> final(self)@ == old(self)@,
            range.start.to_int() < range.end.to_int() ==> {
                let at = count_ended(old(self)@, range.start);
                &&& 0 <= at < final(self)@.len()
                &&& exists|es: EntriesRef<Idx, V>|
                    es@ == overlapped(old(self)@, range) && call_ensures(
                        value,
                        (es,),
                        final(self)@[at].value,
                    )
                &&& final(self)@ == add_spec(old(self)@, range, final(self)@[at].value)
            },
    {
        match non_empty(range) {
            None => {},
            Some(range) => {
                let ghost s = self@;
                let (lo, hi) = self.touch_points(&range);
                proof {
                    lemma_meets(s, range.start.to_int(), range.end.to_int(), lo as int, hi as int);
                }
                let es = EntriesRef::of(&self.ranges, lo, hi);
                let ghost es0 = es;
                let v = value(es);
                let ghost v0 = v;
                self.merge_into(range, v, lo, hi);
                proof {
                    assert(self@[lo as int].value == v0);
                    assert(es0@ == overlapped(s, range) && call_ensures(
                        value,
                        (es0,),
                        self@[lo as int].value,
                    ));
                }
            },
        }
    }

    /// Adds the point `index` with `value`. Where an entry holds the point
    /// already, that entry takes `value` and nothing else changes; the result
    /// is `false`. Otherwise a new entry for the point alone is inserted, and
    /// the result is `true`.
    ///
    /// A point that no entry holds must not be the largest index: its range
    /// would end past the domain.
    pub fn add_unit(&mut self, index: Idx, value: V) -> (added: bool)
        requires
            old(self).wf(),
            !covers(old(self)@, index.to_int()) ==> index.to_int() < Idx::max_int(),
        ensures
            final(self).wf(),
            added == !covers(old(self)@, index.to_int()),
            !added ==> final(self)@ == old(self)@.update(
                index_of(old(self)@, index.to_int()),
                Entry {
                    range: old(self)@[index_of(old(self)@, index.to_int())].range,
                    value,
                },
            ),
            added ==> final(self)@ == old(self)@.insert(
                count_ended(old(self)@, index),
                Entry { range: unit_range(index), value },
            ),
    {
        let ghost s = self@;
        let ghost p = index.to_int();
        match self.binary_search(index) {
            Ok(i) => {
                proof {
                    lemma_hit_index(s, p, i as int);
                }
                self.ranges[i].value = value;
                assert(self@ =~= s.update(i as int, Entry { range: s[i as int].range, value }));
                false
            },
            Err(i) => {
                proof {
                    lemma_gap_index(s, p, i as int);
                    Idx::lemma_domain(index);
                }
                let next = index.checked_add(Idx::one()).unwrap();
                proof {
                    Idx::lemma_injective(next, successor(index));
                }
                self.ranges.insert(i, Entry { range: index..next, value });
                proof {
                    lemma_unit_inserted(s, index, value, i as int);
                }
                true
            },
        }
    }
}

/// The entry at `i` holds `p`: the point is covered, and `i` is its place.
pub proof fn lemma_hit_index<Idx: OrderedIndex, V>(s: Seq<Entry<Idx, V>>, p: int, i: int)
    requires
        entries_wf(s),
        is_hit(s, p, i),
    ensures
        covers(s, p),
        index_of(s, p) == i,
{
    let j = index_of(s, p);
    if i < j {
        assert(s[i].hi() <= s[j].lo());
    }
    if j < i {
        assert(s[j].hi() <= s[i].lo());
    }
}

/// The point `p` falls into the gap before `i`: it is not covered, and `i`
/// entries end at or before it.
pub proof fn lemma_gap_index<Idx: OrderedIndex, V>(s: Seq<Entry<Idx, V>>, p: int, i: int)
    requires
        entries_wf(s),
        is_gap(s, p, i),
    ensures
        !covers(s, p),
        s.filter(ends_by(p)).len() == i,
{
    if i > 0 {
        assert(s[i - 1].hi() <= p);
    }
    if i < s.len() {
        assert(p < s[i].lo());
        assert(s[i].lo() < s[i].hi());
    }
    lemma_ends_by(s, p, i);
    if covers(s, p) {
        let j = index_of(s, p);
        if j < i {
            assert(s[j].hi() <= p);
        } else {
            assert(p < s[j].lo());
        }
    }
}

/// A new entry for the point `index` alone, in the gap before `i`, keeps the
/// entries well-formed.
pub(crate) proof fn lemma_unit_inserted<Idx: OrderedIndex, V>(
    s: Seq<Entry<Idx, V>>,
    index: Idx,
    value: V,
    i: int,
)
    requires
        entries_wf(s),
        is_gap(s, index.to_int(), i),
        successor(index).to_int() == index.to_int() + 1,
    ensures
        entries_wf(s.insert(i, Entry { range: unit_range(index), value })),
{
    let t = s.insert(i, Entry { range: unit_range(index), value });
    assert forall|x: int, y: int| 0 <= x < y < t.len() implies (#[trigger] t[x]).hi() <= (
    #[trigger] t[y]).lo() by {
        if y < i {
            assert(s[x].hi() <= s[y].lo());
        } else if y == i {
            assert(s[x].hi() <= index.to_int());
        } else if x == i {
            assert(index.to_int() < s[y - 1].lo());
        } else if x < i {
            assert(s[x].hi() <= s[y - 1].lo());
        } else {
            assert(s[x - 1].hi() <= s[y - 1].lo());
        }
    }
    assert forall|x: int| 0 <= x < t.len() implies (#[trigger] t[x]).lo() < t[x].hi() by {
        if x < i {
            assert(s[x].lo() < s[x].hi());
        } else if x > i {
            assert(s[x - 1].lo() < s[x - 1].hi());
        }
    }
}

} // verus!
