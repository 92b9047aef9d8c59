use crate::index::OrderedIndex;
use crate::map::{covers, entries_wf, Entry};
use core::ops::Range;
use vstd::prelude::*;

verus! {

/// Entries that begin before `a`.
pub open spec fn begins_below<Idx: OrderedIndex, V>(a: int) -> spec_fn(Entry<Idx, V>) -> bool {
    |e: Entry<Idx, V>| e.lo() < a
}

/// Entries that end after `b`.
pub open spec fn ends_above<Idx: OrderedIndex, V>(b: int) -> spec_fn(Entry<Idx, V>) -> bool {
    |e: Entry<Idx, V>| e.hi() > b
}

/// Entries that end at or before `a`.
pub open spec fn ends_by<Idx: OrderedIndex, V>(a: int) -> spec_fn(Entry<Idx, V>) -> bool {
    |e: Entry<Idx, V>| e.hi() <= a
}

/// Entries that begin at or after `b`.
pub open spec fn begins_from<Idx: OrderedIndex, V>(b: int) -> spec_fn(Entry<Idx, V>) -> bool {
    |e: Entry<Idx, V>| e.lo() >= b
}

/// Entries that share a point with `[a, b)`.
pub open spec fn meets<Idx: OrderedIndex, V>(a: int, b: int) -> spec_fn(Entry<Idx, V>) -> bool {
    |e: Entry<Idx, V>| e.lo() < b && a < e.hi()
}

/// The entries of `s` that share a point with `range`, in order.
pub open spec fn overlapped<Idx: OrderedIndex, V>(
    s: Seq<Entry<Idx, V>>,
    range: Range<Idx>,
) -> Seq<Entry<Idx, V>> {
    s.filter(meets(range.start.to_int(), range.end.to_int()))
}

/// The number of entries of `s` that begin before `a`.
pub open spec fn count_below<Idx: OrderedIndex, V>(s: Seq<Entry<Idx, V>>, a: Idx) -> int {
    s.filter(begins_below(a.to_int())).len() as int
}

/// The number of entries of `s` that end at or before `a`.
pub open spec fn count_ended<Idx: OrderedIndex, V>(s: Seq<Entry<Idx, V>>, a: Idx) -> int {
    s.filter(ends_by(a.to_int())).len() as int
}

/// Whether one entry of `s` reaches beyond `range` on both sides.
pub open spec fn encloses<Idx: OrderedIndex, V>(s: Seq<Entry<Idx, V>>, range: Range<Idx>) -> bool {
    exists|k: int|
        0 <= k < s.len() && (#[trigger] s[k]).lo() < range.start.to_int() && range.end.to_int()
            < s[k].hi()
}

/// `t` has the ranges of `s`, and each value of `t` is a clone of the value
/// at the same place in `s`.
pub open spec fn is_clone_of<Idx, V: Clone>(t: Seq<Entry<Idx, V>>, s: Seq<Entry<Idx, V>>) -> bool {
    &&& t.len() == s.len()
    &&& forall|i: int|
        0 <= i < s.len() ==> (#[trigger] t[i]).range == s[i].range && cloned(s[i].value, t[i].value)
}

/// `t` equals `s`, but that the value at `k` (where `k` is a position of
/// `s`) may be a clone of the value that `s` has there.
pub open spec fn equal_but_cloned_at<Idx, V: Clone>(
    t: Seq<Entry<Idx, V>>,
    s: Seq<Entry<Idx, V>>,
    k: int,
) -> bool {
    &&& t.len() == s.len()
    &&& forall|i: int| 0 <= i < s.len() ==> (#[trigger] t[i]).range == s[i].range
    &&& forall|i: int| 0 <= i < s.len() && i != k ==> (#[trigger] t[i]).value == s[i].value
    &&& 0 <= k < s.len() ==> cloned(s[k].value, t[k].value)
}

/// One more entry adds the points it holds.
pub proof fn lemma_covers_push<Idx: OrderedIndex, V>(s: Seq<Entry<Idx, V>>, e: Entry<Idx, V>)
    ensures
        forall|p: int| #[trigger] covers(s.push(e), p) <==> covers(s, p) || e.holds(p),
{
    let t = s.push(e);
    assert forall|p: int| #[trigger] covers(t, p) <==> covers(s, p) || e.holds(p) by {
        if covers(t, p) {
            let i = choose|i: int| 0 <= i < t.len() && (#[trigger] t[i]).holds(p);
            if i < s.len() {
                assert(s[i].holds(p));
            }
        }
        if covers(s, p) {
            let i = choose|i: int| 0 <= i < s.len() && (#[trigger] s[i]).holds(p);
            assert(t[i].holds(p));
        }
        if e.holds(p) {
            assert(t[s.len() as int].holds(p));
        }
    }
}

/// A predicate that holds of exactly the elements at `lo..hi` selects
/// exactly that run.
pub proof fn lemma_filter_run<A>(s: Seq<A>, p: spec_fn(A) -> bool, lo: int, hi: int)
    requires
        0 <= lo <= hi <= s.len(),
        forall|i: int| 0 <= i < s.len() ==> (#[trigger] p(s[i]) <==> lo <= i < hi),
    ensures
        s.filter(p) == s.subrange(lo, hi),
    decreases s.len(),
{
    reveal(Seq::filter);
    if s.len() == 0 {
        assert(s.subrange(lo, hi) =~= s);
    } else {
        let t = s.drop_last();
        let n = t.len() as int;
        let lo2 = if lo < n {
            lo
        } else {
            n
        };
        let hi2 = if hi < n {
            hi
        } else {
            n
        };
        assert forall|i: int| 0 <= i < t.len() implies (#[trigger] p(t[i]) <==> lo2 <= i < hi2) by {
            assert(t[i] == s[i]);
        }
        lemma_filter_run(t, p, lo2, hi2);
        assert(p(s[n]) <==> lo <= n < hi);
        if p(s.last()) {
            assert(t.subrange(lo2, hi2).push(s.last()) =~= s.subrange(lo, hi));
        } else {
            assert(t.subrange(lo2, hi2) =~= s.subrange(lo, hi));
        }
    }
}

/// In a well-formed sequence the entries that begin before `a` are the first
/// `k`, where `k` is the position from which no entry begins before `a`.
pub proof fn lemma_begins_below<Idx: OrderedIndex, V>(s: Seq<Entry<Idx, V>>, a: int, k: int)
    requires
        entries_wf(s),
        0 <= k <= s.len(),
        k > 0 ==> s[k - 1].lo() < a,
        k < s.len() ==> s[k].lo() >= a,
    ensures
        s.filter(begins_below(a)) == s.subrange(0, k),
{
    let p = begins_below::<Idx, V>(a);
    assert forall|i: int| 0 <= i < s.len() implies (#[trigger] p(s[i]) <==> 0 <= i < k) by {
        if i < k {
            if i < k - 1 {
                assert(s[i].hi() <= s[k - 1].lo());
            }
        } else {
            if k < i {
                assert(s[k].hi() <= s[i].lo());
            }
        }
    }
    lemma_filter_run(s, p, 0, k);
}

/// In a well-formed sequence the entries that end after `b` are those from
/// `k` on, where `k` is the first position whose entry ends after `b`.
pub proof fn lemma_ends_above<Idx: OrderedIndex, V>(s: Seq<Entry<Idx, V>>, b: int, k: int)
    requires
        entries_wf(s),
        0 <= k <= s.len(),
        k > 0 ==> s[k - 1].hi() <= b,
        k < s.len() ==> s[k].hi() > b,
    ensures
        s.filter(ends_above(b)) == s.subrange(k, s.len() as int),
{
    let p = ends_above::<Idx, V>(b);
    assert forall|i: int| 0 <= i < s.len() implies (#[trigger] p(s[i]) <==> k <= i < s.len()) by {
        if i < k {
            if i < k - 1 {
                assert(s[i].hi() <= s[k - 1].lo());
            }
        } else {
            if k < i {
                assert(s[k].hi() <= s[i].lo());
            }
        }
    }
    lemma_filter_run(s, p, k, s.len() as int);
}

/// In a well-formed sequence the entries that end at or before `a` are the
/// first `k`, where `k` is the first position whose entry ends after `a`.
pub proof fn lemma_ends_by<Idx: OrderedIndex, V>(s: Seq<Entry<Idx, V>>, a: int, k: int)
    requires
        entries_wf(s),
        0 <= k <= s.len(),
        k > 0 ==> s[k - 1].hi() <= a,
        k < s.len() ==> s[k].hi() > a,
    ensures
        s.filter(ends_by(a)) == s.subrange(0, k),
{
    let p = ends_by::<Idx, V>(a);
    assert forall|i: int| 0 <= i < s.len() implies (#[trigger] p(s[i]) <==> 0 <= i < k) by {
        if i < k {
            if i < k - 1 {
                assert(s[i].hi() <= s[k - 1].lo());
            }
        } else {
            if k < i {
                assert(s[k].hi() <= s[i].lo());
            }
        }
    }
    lemma_filter_run(s, p, 0, k);
}

/// In a well-formed sequence the entries that begin at or after `b` are
/// those from `k` on, where `k` is the first position whose entry begins at
/// or after `b`.
pub proof fn lemma_begins_from<Idx: OrderedIndex, V>(s: Seq<Entry<Idx, V>>, b: int, k: int)
    requires
        entries_wf(s),
        0 <= k <= s.len(),
        k > 0 ==> s[k - 1].lo() < b,
        k < s.len() ==> s[k].lo() >= b,
    ensures
        s.filter(begins_from(b)) == s.subrange(k, s.len() as int),
{
    let p = begins_from::<Idx, V>(b);
    assert forall|i: int| 0 <= i < s.len() implies (#[trigger] p(s[i]) <==> k <= i < s.len()) by {
        if i < k {
            if i < k - 1 {
                assert(s[i].hi() <= s[k - 1].lo());
            }
        } else {
            if k < i {
                assert(s[k].hi() <= s[i].lo());
            }
        }
    }
    lemma_filter_run(s, p, k, s.len() as int);
}

/// In a well-formed sequence the entries that share a point with `[a, b)`
/// are those at `lo..hi`, where `lo` is the first position whose entry ends
/// after `a` and `hi` the first whose entry begins at or after `b`.
pub proof fn lemma_meets<Idx: OrderedIndex, V>(
    s: Seq<Entry<Idx, V>>,
    a: int,
    b: int,
    lo: int,
    hi: int,
)
    requires
        entries_wf(s),
        a < b,
        0 <= lo <= hi <= s.len(),
        lo > 0 ==> s[lo - 1].hi() <= a,
        lo < s.len() ==> s[lo].hi() > a,
        hi > 0 ==> s[hi - 1].lo() < b,
        hi < s.len() ==> s[hi].lo() >= b,
    ensures
        s.filter(meets(a, b)) == s.subrange(lo, hi),
        forall|i: int|
            0 <= i < s.len() ==> ((#[trigger] s[i]).lo() < b && a < s[i].hi() <==> lo <= i < hi),
{
    let p = meets::<Idx, V>(a, b);
    assert forall|i: int| 0 <= i < s.len() implies (#[trigger] p(s[i]) <==> lo <= i < hi) by {
        if i < lo - 1 {
            assert(s[i].hi() <= s[lo - 1].lo());
        }
        if lo < i {
            assert(s[lo].hi() <= s[i].lo());
        }
        if i < hi - 1 {
            assert(s[i].hi() <= s[hi - 1].lo());
        }
        if hi < i {
            assert(s[hi].hi() <= s[i].lo());
        }
    }
    lemma_filter_run(s, p, lo, hi);
}

} // verus!
