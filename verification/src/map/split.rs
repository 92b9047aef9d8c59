use crate::index::{index_eq, OrderedIndex};
use crate::map::add::{lemma_gap_index, lemma_hit_index, lemma_unit_inserted, successor, unit_range};
use crate::map::model::count_ended;
use crate::map::search::is_hit;
use crate::map::{covers, entries_wf, index_of, Entry, InversionMap};
use core::ops::Range;
use vstd::prelude::*;

verus! {

/// The entries of `s` with the entry at `k` parted at `at`: its points
/// before `at` hold `left_value`, those from `at` on hold `right_value`.
pub open spec fn split_spec<Idx: OrderedIndex, V>(
    s: Seq<Entry<Idx, V>>,
    k: int,
    at: Idx,
    left_value: V,
    right_value: V,
) -> Seq<Entry<Idx, V>> {
    s.update(
        k,
        Entry { range: Range { start: s[k].range.start, end: at }, value: left_value },
    ).insert(k + 1, Entry { range: Range { start: at, end: s[k].range.end }, value: right_value })
}

/// Parting an entry at one of its inner points keeps the entries well-formed.
proof fn lemma_split_wf<Idx: OrderedIndex, V>(
    s: Seq<Entry<Idx, V>>,
    k: int,
    at: Idx,
    left_value: V,
    right_value: V,
)
    requires
        entries_wf(s),
        0 <= k < s.len(),
        s[k].lo() < at.to_int() < s[k].hi(),
    ensures
        entries_wf(split_spec(s, k, at, left_value, right_value)),
{
    let t = split_spec(s, k, at, left_value, right_value);
    assert forall|i: int, j: int| 0 <= i < j < t.len() implies (#[trigger] t[i]).hi() <= (
    #[trigger] t[j]).lo() by {
        let i0 = if i <= k {
            i
        } else {
            i - 1
        };
        let j0 = if j <= k {
            j
        } else {
            j - 1
        };
        if i0 < j0 {
            assert(s[i0].hi() <= s[j0].lo());
        }
    }
    assert forall|i: int| 0 <= i < t.len() implies (#[trigger] t[i]).lo() < t[i].hi() by {
        if i < k {
            assert(s[i].lo() < s[i].hi());
        }
        if i > k + 1 {
            assert(s[i - 1].lo() < s[i - 1].hi());
        }
    }
}

/// What a split at `at` leaves of `s`, when the entry at `k` holds `at`:
/// nothing changes if the entry begins at `at`, and else the entry is parted
/// there, with the values that `t` then has at `k` and behind it.
pub open spec fn parted_at<Idx: OrderedIndex, V>(
    s: Seq<Entry<Idx, V>>,
    k: int,
    at: Idx,
    t: Seq<Entry<Idx, V>>,
) -> bool {
    if s[k].lo() == at.to_int() {
        t == s
    } else {
        t == split_spec(s, k, at, t[k].value, t[k + 1].value)
    }
}

/// What a split at `at` leaves and answers, when the entry at `k` holds `at`.
/// The answer is the places of the part before `at` and of the part from
/// `at` on, which are the same place if nothing was parted.
pub open spec fn splits_at<Idx: OrderedIndex, V>(
    s: Seq<Entry<Idx, V>>,
    k: int,
    at: Idx,
    t: Seq<Entry<Idx, V>>,
    places: (usize, usize),
) -> bool {
    &&& parted_at(s, k, at, t)
    &&& places.0 == k
    &&& places.1 == (if s[k].lo() == at.to_int() {
        k
    } else {
        k + 1
    })
}

impl<Idx: OrderedIndex, V> InversionMap<Idx, V> {
    /// Parts the entry at `idx`, which holds `at`, in two at `at`, unless it
    /// begins there. `splitter` receives the entry's range and value and
    /// gives the values of the part before `at` and of the part from `at` on.
    pub(crate) fn split_impl<F: FnOnce(Range<Idx>, V) -> (V, V)>(
        &mut self,
        idx: usize,
        at: Idx,
        splitter: F,
    ) -> (places: (usize, usize))
        requires
            old(self).wf(),
            is_hit(old(self)@, at.to_int(), idx as int),
            old(self)@[idx as int].lo() != at.to_int() ==> call_requires(
                splitter,
                (old(self)@[idx as int].range, old(self)@[idx as int].value),
            ),
        ensures
            final(self).wf(),
            splits_at(old(self)@, idx as int, at, final(self)@, places),
            old(self)@[idx as int].lo() != at.to_int() ==> call_ensures(
                splitter,
                (old(self)@[idx as int].range, old(self)@[idx as int].value),
                (final(self)@[idx as int].value, final(self)@[idx + 1].value),
            ),
    {
        let ghost s = self@;
        if index_eq(self.ranges[idx].range.start, at) {
            (idx, idx)
        } else {
            let e = self.ranges.remove(idx);
            let start = e.range.start;
            let end = e.range.end;
            let (left, right) = splitter(e.range, e.value);
            self.ranges.insert(idx, Entry { range: at..end, value: right });
            self.ranges.insert(idx, Entry { range: start..at, value: left });
            proof {
                assert(self@.len() == self.ranges.len());
                assert(self@ =~= split_spec(s, idx as int, at, left, right));
                lemma_split_wf(s, idx as int, at, left, right);
            }
            (idx, idx + 1)
        }
    }

    /// Parts the entry that holds `at` in two at `at`. `splitter` receives
    /// the entry's range and value and gives the values of the part before
    /// `at` and of the part from `at` on.
    ///
    /// The result is `None`, and nothing changes, where no entry holds `at`.
    /// Otherwise it is the places of the two parts; where the entry begins at
    /// `at` nothing is parted, `splitter` is not called, and both places are
    /// that of the entry.
    pub fn split_with<F: FnOnce(Range<Idx>, V) -> (V, V)>(&mut self, at: Idx, splitter: F) -> (r:
        Option<(usize, usize)>)
        requires
            old(self).wf(),
            forall|k: int|
                0 <= k < old(self)@.len() && (#[trigger] old(self)@[k]).lo() < at.to_int()
                    < old(self)@[k].hi() ==> call_requires(
                    splitter,
                    (old(self)@[k].range, old(self)@[k].value),
                ),
        ensures
            final(self).wf(),
            r is Some <==> covers(old(self)@, at.to_int()),
            r is None ==> final(self)@ == old(self)@,
            r matches Some(places) ==> {
                let k = index_of(old(self)@, at.to_int());
                &&& splits_at(old(self)@, k, at, final(self)@, places)
                &&& old(self)@[k].lo() != at.to_int() ==> call_ensures(
                    splitter,
                    (old(self)@[k].range, old(self)@[k].value),
                    (final(self)@[k].value, final(self)@[k + 1].value),
                )
            },
    {
        let ghost s = self@;
        match self.binary_search(at) {
            Ok(idx) => {
                proof {
                    lemma_hit_index(s, at.to_int(), idx as int);
                }
                Some(self.split_impl(idx, at, splitter))
            },
            Err(idx) => {
                proof {
                    lemma_gap_index(s, at.to_int(), idx as int);
                }
                None
            },
        }
    }
}

impl<Idx: OrderedIndex, V: Clone> InversionMap<Idx, V> {
    /// Parts the entry at `idx`, which holds `at`, in two at `at`, unless it
    /// begins there. The part before `at` keeps the value, the part from `at`
    /// on holds a clone of it.
    fn split_clone(&mut self, idx: usize, at: Idx) -> (places: (usize, usize))
        requires
            old(self).wf(),
            is_hit(old(self)@, at.to_int(), idx as int),
        ensures
            final(self).wf(),
            splits_at(old(self)@, idx as int, at, final(self)@, places),
            old(self)@[idx as int].lo() != at.to_int() ==> final(self)@[idx as int].value == old(
                self,
            )@[idx as int].value && cloned(
                old(self)@[idx as int].value,
                final(self)@[idx + 1].value,
            ),
    {
        let ghost s = self@;
        if index_eq(self.ranges[idx].range.start, at) {
            (idx, idx)
        } else {
            assert(self@.len() == self.ranges.len());
            let end = self.ranges[idx].range.end;
            let right = self.ranges[idx].value.clone();
            self.ranges[idx].range.end = at;
            self.ranges.insert(idx + 1, Entry { range: at..end, value: right });
            proof {
                assert(self@ =~= split_spec(s, idx as int, at, s[idx as int].value, right));
                lemma_split_wf(s, idx as int, at, s[idx as int].value, right);
            }
            (idx, idx + 1)
        }
    }

    /// Parts the entry that holds `at` in two at `at`. The part before `at`
    /// keeps the value, the part from `at` on holds a clone of it.
    ///
    /// The result is `None`, and nothing changes, where no entry holds `at`.
    /// Otherwise it is the places of the two parts; where the entry begins at
    /// `at` nothing is parted and both places are that of the entry.
    pub fn split(&mut self, at: Idx) -> (r: Option<(usize, usize)>)
        requires
            old(self).wf(),
        ensures
            final(self).wf(),
            r is Some <==> covers(old(self)@, at.to_int()),
            r is None ==> final(self)@ == old(self)@,
            r matches Some(places) ==> {
                let k = index_of(old(self)@, at.to_int());
                &&& splits_at(old(self)@, k, at, final(self)@, places)
                &&& old(self)@[k].lo() != at.to_int() ==> final(self)@[k].value == old(
                    self,
                )@[k].value && cloned(old(self)@[k].value, final(self)@[k + 1].value)
            },
    {
        let ghost s = self@;
        match self.binary_search(at) {
            Ok(idx) => {
                proof {
                    lemma_hit_index(s, at.to_int(), idx as int);
                }
                Some(self.split_clone(idx, at))
            },
            Err(idx) => {
                proof {
                    lemma_gap_index(s, at.to_int(), idx as int);
                }
                None
            },
        }
    }

    /// Makes `index` the start of an entry. Where no entry holds the point,
    /// a new entry for the point alone is inserted with `value`, and the
    /// result is `true`. Where an entry holds it, that entry is parted at
    /// `index` as `split` does, `value` is dropped, and the result is `false`.
    ///
    /// A point that no entry holds must not be the largest index: its range
    /// would end past the domain.
    pub fn insert_unit(&mut self, index: Idx, value: V) -> (added: bool)
        requires
            old(self).wf(),
            !covers(old(self)@, index.to_int()) ==> index.to_int() < Idx::max_int(),
        ensures
            final(self).wf(),
            added == !covers(old(self)@, index.to_int()),
            added ==> final(self)@ == old(self)@.insert(
                count_ended(old(self)@, index),
                Entry { range: unit_range(index), value },
            ),
            !added ==> {
                let k = index_of(old(self)@, index.to_int());
                &&& parted_at(old(self)@, k, index, final(self)@)
                &&& old(self)@[k].lo() != index.to_int() ==> final(self)@[k].value == old(
                    self,
                )@[k].value && cloned(old(self)@[k].value, final(self)@[k + 1].value)
            },
    {
        let ghost s = self@;
        match self.binary_search(index) {
            Ok(idx) => {
                proof {
                    lemma_hit_index(s, index.to_int(), idx as int);
                }
                self.split_clone(idx, index);
                false
            },
            Err(idx) => {
                proof {
                    lemma_gap_index(s, index.to_int(), idx as int);
                    Idx::lemma_domain(index);
                }
                let next = index.checked_add(Idx::one()).unwrap();
                proof {
                    Idx::lemma_injective(next, successor(index));
                }
                self.ranges.insert(idx, Entry { range: index..next, value });
                proof {
                    lemma_unit_inserted(s, index, value, idx as int);
                }
                true
            },
        }
    }
}

} // verus!
