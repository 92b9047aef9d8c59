use crate::index::{index_lt, OrderedIndex};
use crate::map::model::{
    begins_below, count_below, ends_above, lemma_begins_below, lemma_ends_above,
};
use crate::map::{entries_wf, remove_run, Entry, InversionMap};
use crate::util::non_empty;
use core::ops::Range;
use vstd::prelude::*;

verus! {

impl<Idx: OrderedIndex, V> Entry<Idx, V> {
    /// Whether the entry has points on both sides of the boundary before `x`:
    /// it begins before `x` and ends after it.
    pub open spec fn straddles(self, x: int) -> bool {
        self.lo() < x < self.hi()
    }

    /// The entry without its points from `a` on, holding `value` if anything
    /// was taken away.
    pub open spec fn cut_above_with(self, a: Idx, value: V) -> Self {
        if self.hi() > a.to_int() {
            Entry { range: Range { start: self.range.start, end: a }, value }
        } else {
            self
        }
    }

    /// The entry without its points before `b`, holding `value` if anything
    /// was taken away.
    pub open spec fn cut_below_with(self, b: Idx, value: V) -> Self {
        if self.lo() < b.to_int() {
            Entry { range: Range { start: b, end: self.range.end }, value }
        } else {
            self
        }
    }
}

/// The entries after the non-empty `range` has been removed: the entries
/// that begin before the range, then those that end after it. An entry that
/// reaches into the range is cut at the range's end and then holds
/// `left_value` (the one before the range) or `right_value` (the one after).
pub open spec fn remove_spec<Idx: OrderedIndex, V>(
    s: Seq<Entry<Idx, V>>,
    range: Range<Idx>,
    left_value: V,
    right_value: V,
) -> Seq<Entry<Idx, V>> {
    s.filter(begins_below(range.start.to_int())).map_values(
        |e: Entry<Idx, V>| e.cut_above_with(range.start, left_value),
    ) + s.filter(ends_above(range.end.to_int())).map_values(
        |e: Entry<Idx, V>| e.cut_below_with(range.end, right_value),
    )
}

/// An entry with points on both sides of the start of `range` stands last
/// among those that begin before the range; one with points on both sides of
/// its end stands first among those that end after it.
proof fn lemma_straddlers<Idx: OrderedIndex, V>(
    s: Seq<Entry<Idx, V>>,
    range: Range<Idx>,
    left: int,
    right: int,
)
    requires
        entries_wf(s),
        0 <= left <= s.len(),
        0 <= right <= s.len(),
        left > 0 ==> s[left - 1].lo() < range.start.to_int(),
        left < s.len() ==> s[left].lo() >= range.start.to_int(),
        right > 0 ==> s[right - 1].hi() <= range.end.to_int(),
        right < s.len() ==> s[right].hi() > range.end.to_int(),
    ensures
        forall|k: int|
            0 <= k < s.len() && (#[trigger] s[k]).straddles(range.start.to_int()) ==> k == left
                - 1,
        forall|k: int|
            0 <= k < s.len() && (#[trigger] s[k]).straddles(range.end.to_int()) ==> k == right,
{
    let a = range.start.to_int();
    let b = range.end.to_int();
    assert forall|k: int| 0 <= k < s.len() && (#[trigger] s[k]).straddles(a) implies k == left
        - 1 by {
        if k < left - 1 {
            assert(s[k].hi() <= s[left - 1].lo());
        }
        if k > left {
            assert(s[left].hi() <= s[k].lo());
        }
    }
    assert forall|k: int| 0 <= k < s.len() && (#[trigger] s[k]).straddles(b) implies k
        == right by {
        if k < right - 1 {
            assert(s[k].hi() <= s[right - 1].lo());
        }
        if k > right {
            assert(s[right].hi() <= s[k].lo());
        }
    }
}

/// Removal from the inside of the entry at `k`, which is parted in two.
proof fn lemma_remove_enclosed<Idx: OrderedIndex, V>(
    s: Seq<Entry<Idx, V>>,
    range: Range<Idx>,
    left_value: V,
    right_value: V,
    k: int,
    t: Seq<Entry<Idx, V>>,
)
    requires
        entries_wf(s),
        range.start.to_int() < range.end.to_int(),
        0 <= k < s.len(),
        s[k].lo() < range.start.to_int(),
        range.end.to_int() < s[k].hi(),
        t == s.update(
            k,
            Entry { range: Range { start: s[k].range.start, end: range.start }, value: left_value },
        ).insert(
            k + 1,
            Entry { range: Range { start: range.end, end: s[k].range.end }, value: right_value },
        ),
    ensures
        entries_wf(t),
        s.filter(begins_below(range.start.to_int())).len() == k + 1,
        t == remove_spec(s, range, left_value, right_value),
{
    let a = range.start.to_int();
    let b = range.end.to_int();
    lemma_begins_below(s, a, k + 1);
    lemma_ends_above(s, b, k);
    let u = remove_spec(s, range, left_value, right_value);
    assert(u.len() == t.len());
    assert forall|i: int| 0 <= i < t.len() implies #[trigger] t[i] == u[i] by {
        if i < k {
            assert(s[i].hi() <= s[k].lo());
        }
        if i > k + 1 {
            assert(s[k].hi() <= s[i - 1].lo());
        }
    }
    assert(t =~= u);
    assert forall|i: int, j: int| 0 <= i < j < t.len() implies (#[trigger] t[i]).hi() <= (
    #[trigger] t[j]).lo() by {
        let i0 = if i <= k {
            i
        } else {
            i - 1
        };
        let j0 = if j <= k {
            j
        } else {
            j - 1
        };
        if i0 < j0 {
            assert(s[i0].hi() <= s[j0].lo());
        }
    }
}

/// Removal that keeps the first `left` entries, the last of them cut at the
/// start of the range, and the entries from `right` on, the first of them cut
/// at its end.
proof fn lemma_remove_between<Idx: OrderedIndex, V>(
    s: Seq<Entry<Idx, V>>,
    range: Range<Idx>,
    left_value: V,
    right_value: V,
    left: int,
    right: int,
    t: Seq<Entry<Idx, V>>,
)
    requires
        entries_wf(s),
        range.start.to_int() < range.end.to_int(),
        0 <= left <= right <= s.len(),
        left > 0 ==> s[left - 1].lo() < range.start.to_int(),
        left < s.len() ==> s[left].lo() >= range.start.to_int(),
        right > 0 ==> s[right - 1].hi() <= range.end.to_int(),
        right < s.len() ==> s[right].hi() > range.end.to_int(),
        t.len() == left + s.len() - right,
        forall|i: int| 0 <= i < left - 1 ==> #[trigger] t[i] == s[i],
        left > 0 ==> t[left - 1] == s[left - 1].cut_above_with(range.start, left_value),
        right < s.len() ==> t[left] == s[right].cut_below_with(range.end, right_value),
        forall|i: int| left < i < t.len() ==> #[trigger] t[i] == s[i - left + right],
    ensures
        entries_wf(t),
        s.filter(begins_below(range.start.to_int())).len() == left,
        t == remove_spec(s, range, left_value, right_value),
{
    let a = range.start.to_int();
    let b = range.end.to_int();
    lemma_begins_below(s, a, left);
    lemma_ends_above(s, b, right);
    let u = remove_spec(s, range, left_value, right_value);
    assert(u.len() == t.len());
    assert forall|i: int| 0 <= i < t.len() implies #[trigger] t[i] == u[i] by {
        if i < left - 1 {
            assert(s[i].hi() <= s[left - 1].lo());
        }
        if i > left {
            assert(s[right].hi() <= s[i - left + right].lo());
        }
    }
    assert(t =~= u);
    assert forall|i: int, j: int| 0 <= i < j < t.len() implies (#[trigger] t[i]).hi() <= (
    #[trigger] t[j]).lo() by {
        let i0 = if i < left {
            i
        } else {
            i - left + right
        };
        let j0 = if j < left {
            j
        } else {
            j - left + right
        };
        assert(s[i0].hi() <= s[j0].lo());
    }
    assert forall|i: int| 0 <= i < t.len() implies (#[trigger] t[i]).lo() < t[i].hi() by {
        let i0 = if i < left {
            i
        } else {
            i - left + right
        };
        assert(s[i0].lo() < s[i0].hi());
    }
}

impl<Idx: OrderedIndex, V> InversionMap<Idx, V> {
    /// Removes the points of `range` from the map. Entries inside the range
    /// are dropped. An entry that reaches into the range from before it keeps
    /// its points before the range, with the value that
    /// `split_boundary_left` makes of the entry; one that reaches into the
    /// range from behind keeps its points behind the range, with the value
    /// that `split_boundary_right` makes of it. Both functions see the entry
    /// as it was. An empty range changes nothing.
    pub fn remove_range<L: FnOnce(Range<Idx>, &V) -> V, R: FnOnce(Range<Idx>, &V) -> V>(
        &mut self,
        range: Range<Idx>,
        split_boundary_left: L,
        split_boundary_right: R,
    )
        requires
            old(self).wf(),
            forall|k: int|
                0 <= k < old(self)@.len() && (#[trigger] old(self)@[k]).straddles(
                    range.start.to_int(),
                ) && range.start.to_int() < range.end.to_int() ==> call_requires(
                    split_boundary_left,
                    (old(self)@[k].range, &old(self)@[k].value),
                ),
            forall|k: int|
                0 <= k < old(self)@.len() && (#[trigger] old(self)@[k]).straddles(
                    range.end.to_int(),
                ) && range.start.to_int() < range.end.to_int() ==> call_requires(
                    split_boundary_right,
                    (old(self)@[k].range, &old(self)@[k].value),
                ),
        ensures
            final(self).wf(),
            range.start.to_int() >= range.end.to_int() ==> final(self)@ == old(self)@,
            range.start.to_int() < range.end.to_int() ==> {
                let at = count_below(old(self)@, range.start);
                &&& final(self)@ == remove_spec(
                    old(self)@,
                    range,
                    final(self)@[at - 1].value,
                    final(self)@[at].value,
                )
                &&& forall|k: int|
                    0 <= k < old(self)@.len() && (#[trigger] old(self)@[k]).straddles(
                        range.start.to_int(),
                    ) ==> k == at - 1 && call_ensures(
                        split_boundary_left,
                        (old(self)@[k].range, &old(self)@[k].value),
                        final(self)@[at - 1].value,
                    )
                &&& forall|k: int|
                    0 <= k < old(self)@.len() && (#[trigger] old(self)@[k]).straddles(
                        range.end.to_int(),
                    ) ==> call_ensures(
                        split_boundary_right,
                        (old(self)@[k].range, &old(self)@[k].value),
                        final(self)@[at].value,
                    )
            },
    {
        let range = match non_empty(range) {
            None => {
                return ;
            },
            Some(range) => range,
        };
        let ghost s = self@;
        let (left, right) = self.cut_points(&range);
        let n = self.ranges.len();
        let start = range.start;
        let end = range.end;
        proof {
            lemma_straddlers(s, range, left as int, right as int);
        }
        if left > right {
            let e = &self.ranges[right];
            let tail_end = e.range.end;
            let left_value = split_boundary_left(e.range.start..e.range.end, &e.value);
            let right_value = split_boundary_right(e.range.start..e.range.end, &e.value);
            self.ranges[right].range.end = start;
            self.ranges[right].value = left_value;
            self.ranges.insert(left, Entry { range: end..tail_end, value: right_value });
            proof {
                let k = right as int;
                assert(self@ =~= s.update(
                    k,
                    Entry { range: Range { start: s[k].range.start, end: start }, value: left_value },
                ).insert(
                    k + 1,
                    Entry { range: Range { start: end, end: s[k].range.end }, value: right_value },
                ));
                lemma_remove_enclosed(s, range, left_value, right_value, k, self@);
            }
        } else {
            if left > 0 && index_lt(start, self.ranges[left - 1].range.end) {
                let e = &self.ranges[left - 1];
                let left_value = split_boundary_left(e.range.start..e.range.end, &e.value);
                self.ranges[left - 1].range.end = start;
                self.ranges[left - 1].value = left_value;
            }
            if right < n && index_lt(self.ranges[right].range.start, end) {
                let e = &self.ranges[right];
                let right_value = split_boundary_right(e.range.start..e.range.end, &e.value);
                self.ranges[right].range.start = end;
                self.ranges[right].value = right_value;
            }
            let ghost m = self@;
            remove_run(&mut self.ranges, left, right);
            proof {
                assert forall|i: int| left < i < self@.len() implies #[trigger] self@[i] == s[i
                    - left + right] by {
                    assert(self@[i] == m[i - left + right]);
                }
                lemma_remove_between(
                    s,
                    range,
                    self@[left - 1].value,
                    self@[left as int].value,
                    left as int,
                    right as int,
                    self@,
                );
            }
        }
    }
}

} // verus!
