use crate::index::{index_lt, OrderedIndex};
use crate::map::entries::Entries;
use crate::map::model::{
    begins_below, count_below, encloses, ends_above, equal_but_cloned_at, is_clone_of,
    lemma_begins_below, lemma_ends_above, lemma_meets, overlapped,
};
use crate::map::{entries_wf, replace_run, Entry, InversionMap};
use crate::util::non_empty;
use core::ops::Range;
use vstd::prelude::*;

verus! {

impl<Idx: OrderedIndex, V> Entry<Idx, V> {
    /// The entry without its points from `a` on.
    pub open spec fn cut_above(self, a: Idx) -> Self {
        if self.hi() > a.to_int() {
            Entry { range: Range { start: self.range.start, end: a }, value: self.value }
        } else {
            self
        }
    }

    /// The entry without its points before `b`.
    pub open spec fn cut_below(self, b: Idx) -> Self {
        if self.lo() < b.to_int() {
            Entry { range: Range { start: b, end: self.range.end }, value: self.value }
        } else {
            self
        }
    }
}

/// What is left of `s` before `a`: the entries that begin before `a`, the
/// last of them cut at `a` where it reaches beyond.
pub open spec fn kept_below<Idx: OrderedIndex, V>(s: Seq<Entry<Idx, V>>, a: Idx) -> Seq<
    Entry<Idx, V>,
> {
    s.filter(begins_below(a.to_int())).map_values(|e: Entry<Idx, V>| e.cut_above(a))
}

/// What is left of `s` from `b` on: the entries that end after `b`, the first
/// of them cut at `b` where it begins before.
pub open spec fn kept_above<Idx: OrderedIndex, V>(s: Seq<Entry<Idx, V>>, b: Idx) -> Seq<
    Entry<Idx, V>,
> {
    s.filter(ends_above(b.to_int())).map_values(|e: Entry<Idx, V>| e.cut_below(b))
}

/// The entries after an exact write of `value` to the non-empty `range`:
/// what `s` holds before the range, the new entry, what `s` holds after it.
pub open spec fn insert_spec<Idx: OrderedIndex, V>(
    s: Seq<Entry<Idx, V>>,
    range: Range<Idx>,
    value: V,
) -> Seq<Entry<Idx, V>> {
    kept_below(s, range.start).push(Entry { range, value }) + kept_above(s, range.end)
}

/// Where an exact write to `range` stores a cloned value: at the remainder
/// behind the new entry, if one entry of `s` reaches beyond the range on both
/// sides and so is parted in two; nowhere (`-1`) otherwise.
pub open spec fn cloned_place<Idx: OrderedIndex, V>(s: Seq<Entry<Idx, V>>, range: Range<Idx>) -> int {
    if encloses(s, range) {
        count_below(s, range.start) + 1
    } else {
        -1
    }
}

/// An exact write into the inside of the entry at `k`, which is parted in
/// two; the part behind the new entry holds `tail`, a clone of the value.
proof fn lemma_insert_enclosed<Idx: OrderedIndex, V: Clone>(
    s: Seq<Entry<Idx, V>>,
    range: Range<Idx>,
    value: V,
    tail: V,
    k: int,
    t: Seq<Entry<Idx, V>>,
)
    requires
        entries_wf(s),
        range.start.to_int() < range.end.to_int(),
        0 <= k < s.len(),
        s[k].lo() < range.start.to_int(),
        range.end.to_int() < s[k].hi(),
        cloned(s[k].value, tail),
        t == s.update(
            k,
            Entry { range: Range { start: s[k].range.start, end: range.start }, value: s[k].value },
        ).insert(
            k + 1,
            Entry { range: Range { start: range.end, end: s[k].range.end }, value: tail },
        ).insert(k + 1, Entry { range, value }),
    ensures
        entries_wf(t),
        equal_but_cloned_at(t, insert_spec(s, range, value), cloned_place(s, range)),
{
    let a = range.start.to_int();
    let b = range.end.to_int();
    lemma_begins_below(s, a, k + 1);
    lemma_ends_above(s, b, k);
    assert(encloses(s, range)) by {
        assert(s[k].lo() < a && b < s[k].hi());
    }
    let u = insert_spec(s, range, value);
    assert(u.len() == t.len());
    assert forall|i: int| 0 <= i < t.len() implies (#[trigger] t[i]).range == u[i].range && (i
        != k + 2 ==> t[i].value == u[i].value) by {
        if i < k {
            assert(s[i].hi() <= s[k].lo());
        }
        if i > k + 2 {
            assert(s[k].hi() <= s[i - 2].lo());
        }
    }
    assert forall|i: int, j: int| 0 <= i < j < t.len() implies (#[trigger] t[i]).hi() <= (
    #[trigger] t[j]).lo() by {
        let i0 = if i <= k {
            i
        } else if i <= k + 2 {
            k
        } else {
            i - 2
        };
        let j0 = if j <= k {
            j
        } else if j <= k + 2 {
            k
        } else {
            j - 2
        };
        if i0 < j0 {
            assert(s[i0].hi() <= s[j0].lo());
        }
    }
    assert forall|i: int| 0 <= i < t.len() implies (#[trigger] t[i]).lo() < t[i].hi() by {
        if i < k {
            assert(s[i].lo() < s[i].hi());
        }
        if i > k + 2 {
            assert(s[i - 2].lo() < s[i - 2].hi());
        }
    }
}

/// An exact write that keeps the first `left` entries, the last of them cut
/// at the start of the range, and the entries from `right` on, the first of
/// them cut at its end.
proof fn lemma_insert_between<Idx: OrderedIndex, V: Clone>(
    s: Seq<Entry<Idx, V>>,
    range: Range<Idx>,
    value: V,
    left: int,
    right: int,
    t: Seq<Entry<Idx, V>>,
)
    requires
        entries_wf(s),
        range.start.to_int() < range.end.to_int(),
        0 <= left <= right <= s.len(),
        left > 0 ==> s[left - 1].lo() < range.start.to_int(),
        left < s.len() ==> s[left].lo() >= range.start.to_int(),
        right > 0 ==> s[right - 1].hi() <= range.end.to_int(),
        right < s.len() ==> s[right].hi() > range.end.to_int(),
        t.len() == left + 1 + s.len() - right,
        forall|i: int| 0 <= i < left - 1 ==> #[trigger] t[i] == s[i],
        left > 0 ==> t[left - 1] == s[left - 1].cut_above(range.start),
        t[left] == (Entry { range, value }),
        right < s.len() ==> t[left + 1] == s[right].cut_below(range.end),
        forall|i: int| left + 1 < i < t.len() ==> #[trigger] t[i] == s[i - left - 1 + right],
    ensures
        entries_wf(t),
        equal_but_cloned_at(t, insert_spec(s, range, value), cloned_place(s, range)),
{
    let a = range.start.to_int();
    let b = range.end.to_int();
    lemma_begins_below(s, a, left);
    lemma_ends_above(s, b, right);
    assert(!encloses(s, range)) by {
        if encloses(s, range) {
            let k = choose|k: int| 0 <= k < s.len() && (#[trigger] s[k]).lo() < a && b < s[k].hi();
            if k < left - 1 {
                assert(s[k].hi() <= s[left - 1].lo());
            }
            if k > right {
                assert(s[right].hi() <= s[k].lo());
            }
            if k == left - 1 && k < right - 1 {
                assert(s[k].hi() <= s[right - 1].lo());
                assert(s[right - 1].lo() < s[right - 1].hi());
            }
        }
    }
    let u = insert_spec(s, range, value);
    assert(u.len() == t.len());
    assert forall|i: int| 0 <= i < t.len() implies #[trigger] t[i] == u[i] by {
        if i < left - 1 {
            assert(s[i].hi() <= s[left - 1].lo());
        }
        if i > left + 1 {
            assert(s[right].hi() <= s[i - left - 1 + right].lo());
        }
    }
    assert forall|i: int, j: int| 0 <= i < j < t.len() implies (#[trigger] t[i]).hi() <= (
    #[trigger] t[j]).lo() by {
        let i0 = if i < left {
            i
        } else {
            left - 1
        };
        let j0 = if j > left {
            j - left - 1 + right
        } else if j < left {
            j
        } else {
            right
        };
        if i == left {
            if j0 > right {
                assert(s[right].hi() <= s[j0].lo());
            }
        } else if i > left {
            assert(s[i - left - 1 + right].hi() <= s[j0].lo());
        } else if j == left {
            if i0 < left - 1 {
                assert(s[i0].hi() <= s[left - 1].lo());
            }
        } else {
            assert(s[i0].hi() <= s[j0].lo());
        }
    }
    assert forall|i: int| 0 <= i < t.len() implies (#[trigger] t[i]).lo() < t[i].hi() by {
        if i < left {
            assert(s[i].lo() < s[i].hi());
        }
        if i > left {
            assert(s[i - left - 1 + right].lo() < s[i - left - 1 + right].hi());
        }
    }
}

impl<Idx: OrderedIndex, V: Clone> InversionMap<Idx, V> {
    /// Writes `value` to the non-empty `range`.
    fn overwrite(&mut self, range: Range<Idx>, value: V)
        requires
            old(self).wf(),
            range.start.to_int() < range.end.to_int(),
        ensures
            final(self).wf(),
            equal_but_cloned_at(
                final(self)@,
                insert_spec(old(self)@, range, value),
                cloned_place(old(self)@, range),
            ),
    {
        let ghost s = self@;
        let (left, right) = self.cut_points(&range);
        let n = self.ranges.len();
        let start = range.start;
        let end = range.end;
        if left > right {
            let tail_value = self.ranges[right].value.clone();
            let tail_end = self.ranges[right].range.end;
            self.ranges[right].range.end = start;
            self.ranges.insert(left, Entry { range: end..tail_end, value: tail_value });
            self.ranges.insert(left, Entry { range, value });
            proof {
                let k = right as int;
                assert(self@ =~= s.update(
                    k,
                    Entry { range: Range { start: s[k].range.start, end: start }, value: s[k].value },
                ).insert(
                    k + 1,
                    Entry { range: Range { start: end, end: s[k].range.end }, value: tail_value },
                ).insert(k + 1, Entry { range, value }));
                lemma_insert_enclosed(s, range, value, tail_value, k, self@);
            }
        } else {
            if left > 0 && index_lt(start, self.ranges[left - 1].range.end) {
                self.ranges[left - 1].range.end = start;
            }
            if right < n && index_lt(self.ranges[right].range.start, end) {
                self.ranges[right].range.start = end;
            }
            let ghost m = self@;
            replace_run(&mut self.ranges, left, right, Entry { range, value });
            proof {
                assert forall|i: int| left + 1 < i < self@.len() implies #[trigger] self@[i]
                    == s[i - left - 1 + right] by {
                    assert(self@[i] == m[i - left - 1 + right]);
                }
                lemma_insert_between(s, range, value, left as int, right as int, self@);
            }
        }
    }

    /// Writes `value` to `range`, so that afterwards the map holds `value` on
    /// exactly the points of `range`. Entries that reach into the range are
    /// cut at its ends, entries inside it are dropped. An empty range changes
    /// nothing.
    pub fn insert_range(&mut self, range: Range<Idx>, value: V)
        requires
            old(self).wf(),
        ensures
            final(self).wf(),
            range.start.to_int() >= range.end.to_int() ==> final(self)@ == old(self)@,
            range.start.to_int() < range.end.to_int() ==> equal_but_cloned_at(
                final(self)@,
                insert_spec(old(self)@, range, value),
                cloned_place(old(self)@, range),
            ),
    {
        match non_empty(range) {
            None => {},
            Some(range) => {
                self.overwrite(range, value);
            },
        }
    }

    /// Writes to `range` the value that `value` makes of the entries that
    /// share a point with the range, which it receives as its own. An empty
    /// range changes nothing, and `value` is not called.
    pub fn insert_range_with<F: FnOnce(Entries<Idx, V>) -> V>(
        &mut self,
        range: Range<Idx>,
        value: F,
    )
        requires
            old(self).wf(),
            range.start.to_int() < range.end.to_int() ==> forall|es: Entries<Idx, V>|
                is_clone_of(es@, overlapped(old(self)@, range)) ==> call_requires(value, (es,)),
        ensures
            final(self).wf(),
            range.start.to_int() >= range.end.to_int() ==> final(self)@ == old(self)@,
            range.start.to_int() < range.end.to_int() ==> {
                let at = count_below(old(self)@, range.start);
                &&& 0 <= at < final(self)@.len()
                &&& exists|es: Entries<Idx, V>|
                    is_clone_of(es@, overlapped(old(self)@, range)) && call_ensures(
                        value,
                        (es,),
                        final(self)@[at].value,
                    )
                &&& equal_but_cloned_at(
                    final(self)@,
                    insert_spec(old(self)@, range, final(self)@[at].value),
                    cloned_place(old(self)@, range),
                )
            },
    {
        match non_empty(range) {
            None => {},
            Some(range) => {
                let ghost s = self@;
                let (lo, hi) = self.touch_points(&range);
                proof {
                    lemma_meets(s, range.start.to_int(), range.end.to_int(), lo as int, hi as int);
                }
                let mut it: Vec<Entry<Idx, V>> = Vec::new();
                let mut i: usize = lo;
                while i < hi
                    invariant
                        lo <= i <= hi <= self.ranges@.len(),
                        it@.len() == i - lo,
                        forall|j: int|
                            0 <= j < i - lo ==> (#[trigger] it@[j]).range == self.ranges@[lo
                                + j].range && cloned(self.ranges@[lo + j].value, it@[j].value),
                    decreases hi - i,
                {
                    it.push(self.ranges[i].clone());
                    i += 1;
                }
                let es = Entries::from_vec(it);
                let ghost es0 = es;
                assert(is_clone_of(es@, overlapped(s, range))) by {
                    let ov = overlapped(s, range);
                    assert forall|j: int| 0 <= j < ov.len() implies (#[trigger] es@[j]).range
                        == ov[j].range && cloned(ov[j].value, es@[j].value) by {
                        assert(ov[j] == self.ranges@[lo + j]);
                    }
                }
                let v = value(es);
                let ghost v0 = v;
                let ghost r0 = range;
                self.overwrite(range, v);
                proof {
                    let left = count_below(s, r0.start);
                    let t = insert_spec(s, r0, v0);
                    assert(t[left].value == v0);
                    assert(self@[left].value == v0);
                    assert(is_clone_of(es0@, overlapped(s, r0)) && call_ensures(
                        value,
                        (es0,),
                        self@[left].value,
                    ));
                }
            },
        }
    }
}

} // verus!
