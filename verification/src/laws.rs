use crate::index::OrderedIndex;
use crate::list::relate::subset_of;
use crate::list::reshape::{is_collapse_of, is_collapsed, is_complement_of, same_points};
use crate::map::add::lemma_hit_index;
use crate::map::algebra::{holds_all_points, holds_common_points};
use crate::map::insert::{cloned_place, insert_spec};
use crate::map::model::{equal_but_cloned_at, lemma_begins_below, lemma_ends_above};
use crate::map::search::{is_hit, locates};
use crate::map::{covers, entries_wf, value_at, Entry};
use core::ops::Range;
use vstd::prelude::*;

verus! {

/// In well-formed entries the number of entries that begin before `a` is a
/// place `k` such that the entry before it begins before `a` and the entry
/// at it does not.
pub proof fn lemma_place_below<Idx: OrderedIndex, V>(s: Seq<Entry<Idx, V>>, a: int) -> (k: int)
    requires
        entries_wf(s),
    ensures
        0 <= k <= s.len(),
        k > 0 ==> s[k - 1].lo() < a,
        k < s.len() ==> s[k].lo() >= a,
    decreases s.len(),
{
    if s.len() == 0 {
        0
    } else if s.last().lo() < a {
        s.len() as int
    } else {
        let t = s.drop_last();
        assert forall|i: int, j: int| 0 <= i < j < t.len() implies (#[trigger] t[i]).hi() <= (
        #[trigger] t[j]).lo() by {
            assert(s[i].hi() <= s[j].lo());
        }
        assert forall|i: int| 0 <= i < t.len() implies (#[trigger] t[i]).lo() < t[i].hi() by {
            assert(s[i].lo() < s[i].hi());
        }
        let k = lemma_place_below(t, a);
        if k > 0 {
            assert(t[k - 1] == s[k - 1]);
        }
        if k < t.len() {
            assert(t[k] == s[k]);
        }
        k
    }
}

/// In well-formed entries there is a place `k` such that the entry before it
/// ends at or before `b` and the entry at it ends after `b`.
pub proof fn lemma_place_above<Idx: OrderedIndex, V>(s: Seq<Entry<Idx, V>>, b: int) -> (k: int)
    requires
        entries_wf(s),
    ensures
        0 <= k <= s.len(),
        k > 0 ==> s[k - 1].hi() <= b,
        k < s.len() ==> s[k].hi() > b,
    decreases s.len(),
{
    if s.len() == 0 {
        0
    } else if s.last().hi() <= b {
        s.len() as int
    } else {
        let t = s.drop_last();
        assert forall|i: int, j: int| 0 <= i < j < t.len() implies (#[trigger] t[i]).hi() <= (
        #[trigger] t[j]).lo() by {
            assert(s[i].hi() <= s[j].lo());
        }
        assert forall|i: int| 0 <= i < t.len() implies (#[trigger] t[i]).lo() < t[i].hi() by {
            assert(s[i].lo() < s[i].hi());
        }
        let k = lemma_place_above(t, b);
        if k > 0 {
            assert(t[k - 1] == s[k - 1]);
        }
        if k < t.len() {
            assert(t[k] == s[k]);
        }
        k
    }
}

/// A search has one answer only: the place of the entry that holds the key,
/// or the one place at which an entry for the key would be inserted.
pub proof fn lemma_locates_unique<Idx: OrderedIndex, V>(
    s: Seq<Entry<Idx, V>>,
    key: int,
    r1: Result<usize, usize>,
    r2: Result<usize, usize>,
)
    requires
        entries_wf(s),
        locates(s, key, r1),
        locates(s, key, r2),
    ensures
        r1 == r2,
{
    match (r1, r2) {
        (Ok(i), Ok(j)) => {
            if i < j {
                assert(s[i as int].hi() <= s[j as int].lo());
            }
            if j < i {
                assert(s[j as int].hi() <= s[i as int].lo());
            }
        },
        (Ok(i), Err(j)) => {
            if (i as int) < j {
                assert(s[i as int].hi() <= key);
            } else {
                assert(key < s[i as int].lo());
            }
        },
        (Err(i), Ok(j)) => {
            if (j as int) < i {
                assert(s[j as int].hi() <= key);
            } else {
                assert(key < s[j as int].lo());
            }
        },
        (Err(i), Err(j)) => {
            if i < j {
                assert(s[i as int].hi() <= key);
                assert(key < s[i as int].lo());
            }
            if j < i {
                assert(s[j as int].hi() <= key);
                assert(key < s[j as int].lo());
            }
        },
    }
}

/// No entry holds the largest index: a range ends at or before it, and the
/// end of a range is not one of its points.
pub proof fn lemma_largest_never_held<Idx: OrderedIndex, V>(s: Seq<Entry<Idx, V>>)
    ensures
        !covers(s, Idx::max_int()),
{
    if covers(s, Idx::max_int()) {
        let i = choose|i: int| 0 <= i < s.len() && (#[trigger] s[i]).holds(Idx::max_int());
        Idx::lemma_domain(s[i].range.end);
    }
}

/// After `value` has been written to a range, the map holds `value` on every
/// point of the range. On a point outside the range that the map held
/// before, it holds what it held before: the same value or, where the write
/// parted an entry in two, a clone of it. A point outside the range that the
/// map did not hold, it does not hold afterwards.
///
/// `s` is the map before the write and `t` the map after it, as
/// `insert_range` leaves it.
pub proof fn lemma_insert_reads<Idx: OrderedIndex, V: Clone>(
    s: Seq<Entry<Idx, V>>,
    range: Range<Idx>,
    value: V,
    t: Seq<Entry<Idx, V>>,
    p: int,
)
    requires
        entries_wf(s),
        entries_wf(t),
        range.start.to_int() < range.end.to_int(),
        equal_but_cloned_at(t, insert_spec(s, range, value), cloned_place(s, range)),
    ensures
        range.start.to_int() <= p < range.end.to_int() ==> covers(t, p) && value_at(t, p) == value,
        !(range.start.to_int() <= p < range.end.to_int()) ==> (covers(t, p) <==> covers(s, p)),
        !(range.start.to_int() <= p < range.end.to_int()) && covers(s, p) ==> value_at(t, p)
            == value_at(s, p) || cloned(value_at(s, p), value_at(t, p)),
{
    let a = range.start.to_int();
    let b = range.end.to_int();
    let left = lemma_place_below(s, a);
    let right = lemma_place_above(s, b);
    lemma_begins_below(s, a, left);
    lemma_ends_above(s, b, right);
    let w = insert_spec(s, range, value);
    let d = left + 1 - right;
    assert(w.len() == s.len() + d);
    assert(w[left] == (Entry { range, value }));
    if a <= p < b {
        assert(t[left].range == w[left].range);
        assert(is_hit(t, p, left));
        lemma_hit_index(t, p, left);
    } else {
        if covers(s, p) {
            let i = choose|i: int| 0 <= i < s.len() && (#[trigger] s[i]).holds(p);
            lemma_hit_index(s, p, i);
            if p < a {
                if i >= left && left < s.len() {
                    if i > left {
                        assert(s[left].hi() <= s[i].lo());
                    }
                    assert(s[left].lo() < s[left].hi());
                }
                assert(i < left);
                assert(w[i] == s[i].cut_above(range.start));
                assert(t[i].range == w[i].range);
                assert(is_hit(t, p, i));
                lemma_hit_index(t, p, i);
                assert(t[i].value == w[i].value);
            } else {
                if i < right {
                    if i < right - 1 {
                        assert(s[i].hi() <= s[right - 1].lo());
                        assert(s[right - 1].lo() < s[right - 1].hi());
                    }
                }
                assert(i >= right);
                let x = i + d;
                assert(w[x] == s[i].cut_below(range.end));
                assert(t[x].range == w[x].range);
                assert(is_hit(t, p, x));
                lemma_hit_index(t, p, x);
            }
        }
        if covers(t, p) {
            let x = choose|x: int| 0 <= x < t.len() && (#[trigger] t[x]).holds(p);
            assert(t[x].range == w[x].range);
            if x < left {
                assert(w[x] == s[x].cut_above(range.start));
                assert(s[x].holds(p));
            } else if x > left {
                assert(w[x] == s[x - d].cut_below(range.end));
                assert(s[x - d].holds(p));
            }
        }
    }
}

/// A well-formed sequence without touching entries keeps a strict gap
/// between any two of its entries.
proof fn lemma_strict_gap<Idx: OrderedIndex, V>(s: Seq<Entry<Idx, V>>, i: int, j: int)
    requires
        entries_wf(s),
        is_collapsed(s),
        0 <= i < j < s.len(),
    ensures
        s[i].hi() < s[j].lo(),
{
    assert(s[i].hi() < s[i + 1].lo());
    if i + 1 < j {
        assert(s[i + 1].hi() <= s[j].lo());
        assert(s[i + 1].lo() < s[i + 1].hi());
    }
}

/// Of two collapsed sets with the same points, each range of the one is a
/// range of the other.
proof fn lemma_entry_shared<Idx: OrderedIndex>(
    t: Seq<Entry<Idx, ()>>,
    u: Seq<Entry<Idx, ()>>,
    i: int,
) -> (j: int)
    requires
        entries_wf(t),
        entries_wf(u),
        is_collapsed(t),
        is_collapsed(u),
        same_points(t, u),
        0 <= i < t.len(),
    ensures
        0 <= j < u.len(),
        u[j].lo() == t[i].lo(),
        u[j].hi() == t[i].hi(),
{
    let x = t[i].lo();
    let y = t[i].hi();
    assert(t[i].holds(x));
    assert(covers(t, x));
    let j = choose|j: int| 0 <= j < u.len() && (#[trigger] u[j]).holds(x);
    if u[j].lo() < x {
        let q = x - 1;
        assert(u[j].holds(q));
        assert(covers(u, q));
        let k = choose|k: int| 0 <= k < t.len() && (#[trigger] t[k]).holds(q);
        if k > i {
            assert(t[i].hi() <= t[k].lo());
        }
        if k < i {
            lemma_strict_gap(t, k, i);
        }
        assert(false);
    }
    if u[j].hi() < y {
        let q = u[j].hi();
        assert(t[i].holds(q));
        assert(covers(t, q));
        let m = choose|m: int| 0 <= m < u.len() && (#[trigger] u[m]).holds(q);
        if m < j {
            assert(u[m].hi() <= u[j].lo());
        }
        if m > j {
            lemma_strict_gap(u, j, m);
        }
        assert(false);
    }
    if u[j].hi() > y {
        assert(u[j].holds(y));
        assert(covers(u, y));
        let k = choose|k: int| 0 <= k < t.len() && (#[trigger] t[k]).holds(y);
        if k < i {
            assert(t[k].hi() <= t[i].lo());
        }
        if k > i {
            lemma_strict_gap(t, i, k);
        }
        assert(false);
    }
    j
}

/// Of two collapsed sets with the same points, the range at `i` of the one is
/// a range of the other at `i` or later.
proof fn lemma_shared_place<Idx: OrderedIndex>(
    t: Seq<Entry<Idx, ()>>,
    u: Seq<Entry<Idx, ()>>,
    i: int,
) -> (j: int)
    requires
        entries_wf(t),
        entries_wf(u),
        is_collapsed(t),
        is_collapsed(u),
        same_points(t, u),
        0 <= i < t.len(),
    ensures
        i <= j < u.len(),
        u[j].lo() == t[i].lo(),
        u[j].hi() == t[i].hi(),
    decreases i,
{
    let j = lemma_entry_shared(t, u, i);
    if i > 0 {
        let before = lemma_shared_place(t, u, i - 1);
        assert(t[i - 1].hi() <= t[i].lo());
        assert(t[i - 1].lo() < t[i - 1].hi());
        if j < before {
            assert(u[j].hi() <= u[before].lo());
            assert(u[j].lo() < u[j].hi());
        }
    }
    j
}

/// Two collapsed sets with the same points are the same set.
pub proof fn lemma_collapsed_unique<Idx: OrderedIndex>(
    t: Seq<Entry<Idx, ()>>,
    u: Seq<Entry<Idx, ()>>,
)
    requires
        entries_wf(t),
        entries_wf(u),
        is_collapsed(t),
        is_collapsed(u),
        same_points(t, u),
    ensures
        t == u,
{
    assert forall|i: int| 0 <= i < t.len() implies i < u.len() && #[trigger] t[i] == u[i] by {
        let j = lemma_shared_place(t, u, i);
        let k = lemma_shared_place(u, t, j);
        if k < i {
            assert(t[k].hi() <= t[i].lo());
            assert(t[k].lo() < t[k].hi());
        }
        if i < k {
            assert(t[i].hi() <= t[k].lo());
            assert(t[i].lo() < t[i].hi());
        }
        assert(j == i);
        Idx::lemma_injective(t[i].range.start, u[i].range.start);
        Idx::lemma_injective(t[i].range.end, u[i].range.end);
        assert(t[i].range == u[i].range);
        assert(t[i].value == u[i].value);
    }
    if t.len() > 0 {
        let j = lemma_shared_place(t, u, t.len() - 1);
    }
    if u.len() > 0 {
        let k = lemma_shared_place(u, t, u.len() - 1);
    }
    assert(t =~= u);
}

/// Collapsing is idempotent: where `t` is `s` collapsed and `u` is `t`
/// collapsed, `u` is `t`.
pub proof fn lemma_collapse_idempotent<Idx: OrderedIndex>(
    s: Seq<Entry<Idx, ()>>,
    t: Seq<Entry<Idx, ()>>,
    u: Seq<Entry<Idx, ()>>,
)
    requires
        is_collapse_of(t, s),
        is_collapse_of(u, t),
    ensures
        u == t,
{
    lemma_collapsed_unique(u, t);
}

/// The complement of the complement of a collapsed set is the set: where `t`
/// is the complement of `s`, which has no touching ranges, and `u` is the
/// complement of `t`, `u` is `s`.
pub proof fn lemma_complement_involution<Idx: OrderedIndex>(
    s: Seq<Entry<Idx, ()>>,
    t: Seq<Entry<Idx, ()>>,
    u: Seq<Entry<Idx, ()>>,
)
    requires
        entries_wf(s),
        is_collapsed(s),
        is_complement_of(t, s),
        is_complement_of(u, t),
    ensures
        u == s,
{
    assert forall|p: int| covers(u, p) <==> covers(s, p) by {
        if covers(s, p) {
            let i = choose|i: int| 0 <= i < s.len() && (#[trigger] s[i]).holds(p);
            Idx::lemma_domain(s[i].range.start);
            Idx::lemma_domain(s[i].range.end);
            assert(!covers(t, p));
        }
        if covers(u, p) {
            assert(!covers(t, p));
        }
    }
    lemma_collapsed_unique(u, s);
}

/// A set is a subset of its union with any other set: where `u` holds the
/// points that `a` or `b` holds, as a union does, it holds every point of
/// `a`, and every point of `b`.
pub proof fn lemma_union_contains<Idx: OrderedIndex, V>(
    a: Seq<Entry<Idx, V>>,
    b: Seq<Entry<Idx, V>>,
    u: Seq<Entry<Idx, V>>,
)
    requires
        holds_all_points(u, a, b),
    ensures
        subset_of(a, u),
        subset_of(b, u),
{
}

/// The intersection of two sets is a subset of each: where `m` holds the
/// points that both `a` and `b` hold, as an intersection does, every point of
/// `m` is a point of `a`, and of `b`.
pub proof fn lemma_intersection_contained<Idx: OrderedIndex, V>(
    a: Seq<Entry<Idx, V>>,
    b: Seq<Entry<Idx, V>>,
    m: Seq<Entry<Idx, V>>,
)
    requires
        holds_common_points(m, a, b),
    ensures
        subset_of(m, a),
        subset_of(m, b),
{
}

} // verus!
