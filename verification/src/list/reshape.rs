use crate::index::{index_eq, index_lt, OrderedIndex};
use crate::list::{member, InversionList};
use crate::map::add::lemma_gap_index;
use crate::map::model::lemma_covers_push;
use crate::map::search::is_gap;
use crate::map::{covers, entries_wf, Entry, InversionMap};
use core::ops::Range;
use vstd::prelude::*;

verus! {

/// No entry of `s` ends where the next one begins.
pub open spec fn is_collapsed<Idx: OrderedIndex, V>(s: Seq<Entry<Idx, V>>) -> bool {
    forall|i: int, j: int|
        0 <= i && j == i + 1 && j < s.len() ==> (#[trigger] s[i]).hi() < (#[trigger] s[j]).lo()
}

/// `s` and `t` hold the same points.
pub open spec fn same_points<Idx: OrderedIndex, V, W>(
    s: Seq<Entry<Idx, V>>,
    t: Seq<Entry<Idx, W>>,
) -> bool {
    forall|p: int| covers(s, p) <==> covers(t, p)
}

/// `t` is `s` with touching entries merged: it holds the same points in
/// well-formed entries of which none ends where the next begins.
pub open spec fn is_collapse_of<Idx: OrderedIndex>(
    t: Seq<Entry<Idx, ()>>,
    s: Seq<Entry<Idx, ()>>,
) -> bool {
    &&& entries_wf(t)
    &&& is_collapsed(t)
    &&& same_points(t, s)
}

/// `t` is the complement of `s`: it holds the points of the domain, from the
/// smallest index up to the largest and without that one, that `s` does not
/// hold, in well-formed entries of which none ends where the next begins.
pub open spec fn is_complement_of<Idx: OrderedIndex>(
    t: Seq<Entry<Idx, ()>>,
    s: Seq<Entry<Idx, ()>>,
) -> bool {
    &&& entries_wf(t)
    &&& is_collapsed(t)
    &&& forall|p: int| #[trigger]
        covers(t, p) <==> Idx::min_int() <= p < Idx::max_int() && !covers(s, p)
}

/// The entries of `s` with those at `start..=end` merged into one.
pub open spec fn merge_spec<Idx: OrderedIndex>(
    s: Seq<Entry<Idx, ()>>,
    start: int,
    end: int,
) -> Seq<Entry<Idx, ()>> {
    s.subrange(0, start).push(
        member(Range { start: s[start].range.start, end: s[end].range.end }),
    ) + s.subrange(end + 1, s.len() as int)
}

/// Merging the entries at `start..=end` keeps the entries well-formed. The
/// merged entries hold what `s` held and the points between the merged ones.
pub proof fn lemma_merge<Idx: OrderedIndex>(s: Seq<Entry<Idx, ()>>, start: int, end: int)
    requires
        entries_wf(s),
        0 <= start <= end < s.len(),
    ensures
        entries_wf(merge_spec(s, start, end)),
        forall|p: int|
            covers(merge_spec(s, start, end), p) <==> covers(s, p) || s[start].lo() <= p
                < s[end].hi(),
{
    let t = merge_spec(s, start, end);
    let d = end - start;
    assert(s[start].lo() < s[start].hi());
    if start < end {
        assert(s[start].hi() <= s[end].lo());
        assert(s[end].lo() < s[end].hi());
    }
    assert forall|i: int, j: int| 0 <= i < j < t.len() implies (#[trigger] t[i]).hi() <= (
    #[trigger] t[j]).lo() by {
        let i0 = if i < start {
            i
        } else if i == start {
            end
        } else {
            i + d
        };
        let j0 = if j <= start {
            j
        } else {
            j + d
        };
        assert(s[i0].hi() <= s[j0].lo());
    }
    assert forall|i: int| 0 <= i < t.len() implies (#[trigger] t[i]).lo() < t[i].hi() by {
        if i < start {
            assert(s[i].lo() < s[i].hi());
        } else if i > start {
            assert(s[i + d].lo() < s[i + d].hi());
        }
    }
    assert forall|p: int| covers(t, p) <==> covers(s, p) || s[start].lo() <= p < s[end].hi() by {
        if covers(t, p) {
            let i = choose|i: int| 0 <= i < t.len() && (#[trigger] t[i]).holds(p);
            if i < start {
                assert(s[i].holds(p));
            } else if i > start {
                assert(s[i + d].holds(p));
            }
        }
        if covers(s, p) {
            let i = choose|i: int| 0 <= i < s.len() && (#[trigger] s[i]).holds(p);
            if i < start {
                assert(t[i].holds(p));
            } else if i > end {
                assert(t[i - d].holds(p));
            } else {
                if start < i {
                    assert(s[start].hi() <= s[i].lo());
                }
                if i < end {
                    assert(s[i].hi() <= s[end].lo());
                }
                assert(t[start].holds(p));
            }
        }
        if s[start].lo() <= p < s[end].hi() {
            assert(t[start].holds(p));
        }
    }
}

impl<Idx: OrderedIndex> InversionList<Idx> {
    /// Merges the ranges at the places `start` to `end` into one, which also
    /// takes in the points between them.
    pub fn merge(&mut self, start: usize, end: usize)
        requires
            old(self).wf(),
            start <= end < old(self)@.len(),
        ensures
            final(self).wf(),
            final(self)@ == merge_spec(old(self)@, start as int, end as int),
    {
        let ghost s = self@;
        let mut v = self.0.take_entries();
        assert(v@.len() == v.len());
        let last = v[end].range.end;
        v[start].range.end = last;
        crate::map::remove_run(&mut v, start + 1, end + 1);
        proof {
            lemma_merge(s, start as int, end as int);
            assert(v@ =~= merge_spec(s, start as int, end as int));
        }
        self.0 = InversionMap::from_wf(v);
    }

    /// Merges all ranges that touch: wherever one ends at the point at which
    /// the next begins, the two become one. The set holds the same points
    /// afterwards. A set without such ranges is left as it is.
    pub fn collapse(&mut self)
        requires
            old(self).wf(),
        ensures
            final(self).wf(),
            is_collapse_of(final(self)@, old(self)@),
            is_collapsed(old(self)@) ==> final(self)@ == old(self)@,
    {
        let ghost s = self@;
        let mut v = self.0.take_entries();
        let mut i: usize = 1;
        while i < v.len()
            invariant
                entries_wf(v@),
                same_points(v@, s),
                1 <= i,
                forall|x: int, y: int|
                    0 <= x && y == x + 1 && y < i && y < v@.len() ==> (#[trigger] v@[x]).hi() < (
                    #[trigger] v@[y]).lo(),
                is_collapsed(s) ==> v@ == s,
            decreases v@.len() - i,
        {
            if index_eq(v[i - 1].range.end, v[i].range.start) {
                let ghost m = v@;
                let last = v[i].range.end;
                v[i - 1].range.end = last;
                v.remove(i);
                proof {
                    lemma_merge(m, i - 1, i as int);
                    assert(v@ =~= merge_spec(m, i - 1, i as int));
                    assert forall|p: int| covers(v@, p) <==> covers(s, p) by {
                        if m[i - 1].lo() <= p < m[i as int].hi() {
                            if p < m[i - 1].hi() {
                                assert(m[i - 1].holds(p));
                            } else {
                                assert(m[i as int].holds(p));
                            }
                        }
                    }
                    assert forall|x: int, y: int|
                        0 <= x && y == x + 1 && y < i && y < v@.len() implies (
                    #[trigger] v@[x]).hi() < (#[trigger] v@[y]).lo() by {
                        assert(m[x].hi() < m[y].lo());
                    }
                    if is_collapsed(s) {
                        assert(m[i - 1].hi() < m[i as int].lo());
                    }
                }
            } else {
                proof {
                    assert(v@[i - 1].hi() <= v@[i as int].lo());
                }
                i += 1;
            }
        }
        self.0 = InversionMap::from_wf(v);
    }

    /// The complement of the set within the domain: the ranges between its
    /// ranges, before the first and behind the last. The largest index, which
    /// no range can hold, belongs to neither.
    pub fn not(&self) -> (r: Self)
        requires
            self.wf(),
        ensures
            r.wf(),
            is_complement_of(r@, self@),
    {
        let ghost s = self@;
        let n = self.0.len();
        let mut out: Vec<Entry<Idx, ()>> = Vec::new();
        let mut last = Idx::min_value();
        let mut i: usize = 0;
        while i < n
            invariant
                s == self@,
                entries_wf(s),
                n == s.len(),
                i <= n,
                entries_wf(out@),
                is_collapsed(out@),
                last.to_int() == (if i == 0 {
                    Idx::min_int()
                } else {
                    s[i - 1].hi()
                }),
                out@.len() > 0 ==> i > 0 && out@.last().hi() <= s[i - 1].lo(),
                forall|p: int| #[trigger]
                    covers(out@, p) <==> Idx::min_int() <= p < last.to_int() && !covers(s, p),
            decreases n - i,
        {
            let e = self.0.entry(i);
            let ghost prev = out@;
            let ghost from = last.to_int();
            let ghost gap = Entry::<Idx, ()> { range: Range { start: last, end: e.range.start }, value: () };
            proof {
                Idx::lemma_domain(e.range.start);
                Idx::lemma_domain(last);
                if i > 0 {
                    assert(s[i - 1].hi() <= s[i as int].lo());
                }
                assert(s[i as int].lo() < s[i as int].hi());
            }
            let grows = index_lt(last, e.range.start);
            if grows {
                out.push(Entry { range: last..e.range.start, value: () });
                proof {
                    assert(out@ == prev.push(gap));
                    lemma_covers_push(prev, gap);
                    lemma_grown(prev, gap);
                }
            }
            proof {
                assert forall|p: int| #[trigger]
                    covers(out@, p) <==> Idx::min_int() <= p < s[i as int].hi() && !covers(
                        s,
                        p,
                    ) by {
                    assert(covers(out@, p) <==> covers(prev, p) || (grows && gap.holds(p)));
                    assert(covers(prev, p) <==> Idx::min_int() <= p < from && !covers(s, p));
                    if from <= p < s[i as int].lo() {
                        lemma_between(s, p, i as int);
                    }
                    if s[i as int].lo() <= p < s[i as int].hi() {
                        assert(s[i as int].holds(p));
                    }
                }
            }
            last = e.range.end;
            i += 1;
        }
        let max = Idx::max_value();
        let ghost prev = out@;
        let ghost from = last.to_int();
        let ghost gap = Entry::<Idx, ()> { range: Range { start: last, end: max }, value: () };
        proof {
            Idx::lemma_domain(last);
        }
        let grows = index_lt(last, max);
        if grows {
            out.push(Entry { range: last..max, value: () });
            proof {
                assert(out@ == prev.push(gap));
                lemma_covers_push(prev, gap);
                lemma_grown(prev, gap);
            }
        }
        proof {
            assert forall|p: int| #[trigger]
                covers(out@, p) <==> Idx::min_int() <= p < Idx::max_int() && !covers(s, p) by {
                assert(covers(out@, p) <==> covers(prev, p) || (grows && gap.holds(p)));
                assert(covers(prev, p) <==> Idx::min_int() <= p < from && !covers(s, p));
                if from <= p < Idx::max_int() {
                    lemma_between(s, p, n as int);
                }
                if covers(s, p) {
                    let k = choose|k: int| 0 <= k < s.len() && (#[trigger] s[k]).holds(p);
                    Idx::lemma_domain(s[k].range.end);
                    Idx::lemma_domain(s[k].range.start);
                    if n > 0 && k < n - 1 {
                        assert(s[k].hi() <= s[n - 1].lo());
                        assert(s[n - 1].lo() < s[n - 1].hi());
                    }
                }
            }
        }
        InversionList(InversionMap::from_wf(out))
    }

    /// Turns the set into its complement within the domain.
    pub fn invert(&mut self)
        requires
            old(self).wf(),
        ensures
            final(self).wf(),
            is_complement_of(final(self)@, old(self)@),
    {
        let inverse = self.not();
        *self = inverse;
    }
}

/// A point at or behind the end of the entry before `i` and before the
/// start of the entry at `i` is held by no entry.
proof fn lemma_between<Idx: OrderedIndex, V>(s: Seq<Entry<Idx, V>>, p: int, i: int)
    requires
        entries_wf(s),
        0 <= i <= s.len(),
        i > 0 ==> s[i - 1].hi() <= p,
        i < s.len() ==> p < s[i].lo(),
    ensures
        !covers(s, p),
{
    assert(is_gap(s, p, i)) by {
        assert forall|j: int| 0 <= j < i implies (#[trigger] s[j]).hi() <= p by {
            if j < i - 1 {
                assert(s[j].hi() <= s[i - 1].lo());
                assert(s[i - 1].lo() < s[i - 1].hi());
            }
        }
        assert forall|j: int| i <= j < s.len() implies p < (#[trigger] s[j]).lo() by {
            if i < j {
                assert(s[i].hi() <= s[j].lo());
                assert(s[i].lo() < s[i].hi());
            }
        }
    }
    lemma_gap_index(s, p, i);
}

/// A non-empty entry that begins behind the end of the last entry keeps
/// collapsed entries well-formed and collapsed.
proof fn lemma_grown<Idx: OrderedIndex, V>(s: Seq<Entry<Idx, V>>, e: Entry<Idx, V>)
    requires
        entries_wf(s),
        is_collapsed(s),
        e.lo() < e.hi(),
        s.len() > 0 ==> s.last().hi() < e.lo(),
    ensures
        entries_wf(s.push(e)),
        is_collapsed(s.push(e)),
{
    let t = s.push(e);
    assert forall|i: int, j: int| 0 <= i < j < t.len() implies (#[trigger] t[i]).hi() <= (
    #[trigger] t[j]).lo() by {
        if j < s.len() {
            assert(s[i].hi() <= s[j].lo());
        } else if i < s.len() - 1 {
            assert(s[i].hi() <= s[s.len() - 1].lo());
            assert(s[s.len() - 1].lo() < s[s.len() - 1].hi());
        }
    }
    assert forall|i: int| 0 <= i < t.len() implies (#[trigger] t[i]).lo() < t[i].hi() by {
        if i < s.len() {
            assert(s[i].lo() < s[i].hi());
        }
    }
    assert forall|i: int, j: int| 0 <= i && j == i + 1 && j < t.len() implies (
    #[trigger] t[i]).hi() < (#[trigger] t[j]).lo() by {
        if j < s.len() {
            assert(s[i].hi() < s[j].lo());
        }
    }
}

} // verus!
