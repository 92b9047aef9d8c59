use crate::index::{index_max, index_min, OrderedIndex};
use crate::map::add::add_spec;
use crate::map::model::{is_clone_of, lemma_meets, overlapped};
use crate::map::{covers, entries_wf, Entry, InversionMap};
use core::ops::Range;
use vstd::prelude::*;

verus! {

/// Whether the entries `e` and `d` share a point.
pub open spec fn overlap<Idx: OrderedIndex, V>(e: Entry<Idx, V>, d: Entry<Idx, V>) -> bool {
    e.lo() < d.hi() && d.lo() < e.hi()
}

/// The range of the points that `e` and `d` share.
pub open spec fn common<Idx: OrderedIndex, V>(e: Entry<Idx, V>, d: Entry<Idx, V>) -> Range<Idx> {
    Range {
        start: if e.lo() < d.lo() {
            d.range.start
        } else {
            e.range.start
        },
        end: if d.hi() < e.hi() {
            d.range.end
        } else {
            e.range.end
        },
    }
}

/// Of two operands the one with more entries, the first if they have the
/// same number. Its values stand first when values are combined.
pub open spec fn larger<Idx, V>(s: Seq<Entry<Idx, V>>, t: Seq<Entry<Idx, V>>) -> Seq<Entry<Idx, V>> {
    if s.len() < t.len() {
        t
    } else {
        s
    }
}

/// Of two operands the one with fewer entries, the second if they have the
/// same number.
pub open spec fn smaller<Idx, V>(s: Seq<Entry<Idx, V>>, t: Seq<Entry<Idx, V>>) -> Seq<Entry<Idx, V>> {
    if s.len() < t.len() {
        s
    } else {
        t
    }
}

/// `e` is what an intersection makes of the entries `b` and `d`: they share a
/// point, `e` spans the points they share, and its value is one that `and`
/// gives for their values.
pub open spec fn is_piece<Idx: OrderedIndex, V, F: Fn(&V, &V) -> V>(
    and: F,
    b: Entry<Idx, V>,
    d: Entry<Idx, V>,
    e: Entry<Idx, V>,
) -> bool {
    &&& overlap(b, d)
    &&& e.range == common(b, d)
    &&& call_ensures(and, (&b.value, &d.value), e.value)
}

/// `and` may be called on the values of every entry of `base` and every entry
/// of `driver` that share a point.
pub open spec fn accepts_pairs<Idx: OrderedIndex, V, F: Fn(&V, &V) -> V>(
    and: F,
    base: Seq<Entry<Idx, V>>,
    driver: Seq<Entry<Idx, V>>,
) -> bool {
    forall|i: int, j: int|
        0 <= i < base.len() && 0 <= j < driver.len() && #[trigger] overlap(base[i], driver[j])
            ==> call_requires(and, (&base[i].value, &driver[j].value))
}

/// `e` is what an intersection makes of some entry of `base` and some entry
/// of `driver`.
pub open spec fn made_of<Idx: OrderedIndex, V, F: Fn(&V, &V) -> V>(
    and: F,
    base: Seq<Entry<Idx, V>>,
    driver: Seq<Entry<Idx, V>>,
    e: Entry<Idx, V>,
) -> bool {
    exists|i: int, j: int|
        0 <= i < base.len() && 0 <= j < driver.len() && #[trigger] is_piece(
            and,
            base[i],
            driver[j],
            e,
        )
}

/// Whether an entry of `out` spans exactly `range`.
pub open spec fn has_range<Idx, V>(out: Seq<Entry<Idx, V>>, range: Range<Idx>) -> bool {
    exists|k: int| 0 <= k < out.len() && (#[trigger] out[k]).range == range
}

/// `out` is the intersection of `base` and `driver` under `and`: each of its
/// entries is made of an entry of `base` and one of `driver` that share a
/// point, and every such pair has its entry in `out`.
pub open spec fn is_intersection<Idx: OrderedIndex, V, F: Fn(&V, &V) -> V>(
    and: F,
    base: Seq<Entry<Idx, V>>,
    driver: Seq<Entry<Idx, V>>,
    out: Seq<Entry<Idx, V>>,
) -> bool {
    &&& forall|k: int| 0 <= k < out.len() ==> made_of(and, base, driver, #[trigger] out[k])
    &&& forall|i: int, j: int|
        0 <= i < base.len() && 0 <= j < driver.len() && #[trigger] overlap(base[i], driver[j])
            ==> has_range(out, common(base[i], driver[j]))
}

/// `chain` holds the values that folding `or` over the values of `touched`
/// passes through: it begins with `init`, and each further value is one that
/// `or` gives for the value before it and the value of the next entry.
pub open spec fn is_or_chain<Idx: OrderedIndex, V, F: Fn(&V, &V) -> V>(
    or: F,
    init: V,
    touched: Seq<Entry<Idx, V>>,
    chain: Seq<V>,
) -> bool {
    &&& chain.len() == touched.len() + 1
    &&& chain[0] == init
    &&& forall|t: int|
        0 <= t < touched.len() ==> call_ensures(
            or,
            (&chain[t], &(#[trigger] touched[t]).value),
            chain[t + 1],
        )
}

/// `out` is a value that folding `or` over the values of `touched`, from the
/// first to the last and beginning with `init`, can give.
pub open spec fn or_folded<Idx: OrderedIndex, V, F: Fn(&V, &V) -> V>(
    or: F,
    init: V,
    touched: Seq<Entry<Idx, V>>,
    out: V,
) -> bool {
    exists|chain: Seq<V>| #[trigger] is_or_chain(or, init, touched, chain) && chain.last() == out
}

/// `out` is what adding the entry `e` to `acc` can give: `e` is added as a
/// range, with a value folded from a clone of its own, the first operand,
/// and the values of the entries of `acc` that it shares a point with.
pub open spec fn union_step<Idx: OrderedIndex, V: Clone, F: Fn(&V, &V) -> V>(
    or: F,
    acc: Seq<Entry<Idx, V>>,
    e: Entry<Idx, V>,
    out: Seq<Entry<Idx, V>>,
) -> bool {
    exists|init: V, v: V|
        cloned(e.value, init) && #[trigger] or_folded(or, init, overlapped(acc, e.range), v) && out
            == add_spec(acc, e.range, v)
}

/// `states` holds the entries that adding the entries of `small` to `acc`
/// passes through: it begins with `acc`, and each further state is one that
/// adding the next entry of `small` to the state before it can give.
pub open spec fn is_union_chain<Idx: OrderedIndex, V: Clone, F: Fn(&V, &V) -> V>(
    or: F,
    acc: Seq<Entry<Idx, V>>,
    small: Seq<Entry<Idx, V>>,
    states: Seq<Seq<Entry<Idx, V>>>,
) -> bool {
    &&& states.len() == small.len() + 1
    &&& states[0] == acc
    &&& forall|k: int|
        0 <= k < small.len() ==> union_step(or, states[k], #[trigger] small[k], states[k + 1])
}

/// `out` is what adding the entries of `small` to `acc`, one after the other
/// from the first to the last, can give.
pub open spec fn union_folded<Idx: OrderedIndex, V: Clone, F: Fn(&V, &V) -> V>(
    or: F,
    acc: Seq<Entry<Idx, V>>,
    small: Seq<Entry<Idx, V>>,
    out: Seq<Entry<Idx, V>>,
) -> bool {
    exists|states: Seq<Seq<Entry<Idx, V>>>| #[trigger]
        is_union_chain(or, acc, small, states) && states.last() == out
}

/// `out` holds the points that both `s` and `t` hold.
pub open spec fn holds_common_points<Idx: OrderedIndex, V>(
    out: Seq<Entry<Idx, V>>,
    s: Seq<Entry<Idx, V>>,
    t: Seq<Entry<Idx, V>>,
) -> bool {
    forall|p: int| #[trigger] covers(out, p) <==> covers(s, p) && covers(t, p)
}

/// `out` holds the points that `s` or `t` holds.
pub open spec fn holds_all_points<Idx: OrderedIndex, V>(
    out: Seq<Entry<Idx, V>>,
    s: Seq<Entry<Idx, V>>,
    t: Seq<Entry<Idx, V>>,
) -> bool {
    forall|p: int| #[trigger] covers(out, p) <==> covers(s, p) || covers(t, p)
}

/// An intersection holds the points that both operands hold.
pub proof fn lemma_intersection_points<Idx: OrderedIndex, V, F: Fn(&V, &V) -> V>(
    and: F,
    base: Seq<Entry<Idx, V>>,
    driver: Seq<Entry<Idx, V>>,
    out: Seq<Entry<Idx, V>>,
)
    requires
        is_intersection(and, base, driver, out),
    ensures
        holds_common_points(out, base, driver),
        holds_common_points(out, driver, base),
{
    assert forall|p: int| #[trigger] covers(out, p) <==> covers(base, p) && covers(driver, p) by {
        if covers(out, p) {
            let k = choose|k: int| 0 <= k < out.len() && (#[trigger] out[k]).holds(p);
            let (i, j) = choose|i: int, j: int|
                0 <= i < base.len() && 0 <= j < driver.len() && #[trigger] is_piece(
                    and,
                    base[i],
                    driver[j],
                    out[k],
                );
            assert(base[i].holds(p));
            assert(driver[j].holds(p));
        }
        if covers(base, p) && covers(driver, p) {
            let i = choose|i: int| 0 <= i < base.len() && (#[trigger] base[i]).holds(p);
            let j = choose|j: int| 0 <= j < driver.len() && (#[trigger] driver[j]).holds(p);
            assert(overlap(base[i], driver[j]));
            let r = common(base[i], driver[j]);
            let k = choose|k: int| 0 <= k < out.len() && (#[trigger] out[k]).range == r;
            assert(out[k].holds(p));
        }
    }
}

/// A non-empty entry that begins at or behind the end of the last entry keeps
/// the entries well-formed.
proof fn lemma_appended<Idx: OrderedIndex, V>(s: Seq<Entry<Idx, V>>, e: Entry<Idx, V>)
    requires
        entries_wf(s),
        e.lo() < e.hi(),
        s.len() > 0 ==> s.last().hi() <= e.lo(),
    ensures
        entries_wf(s.push(e)),
{
    let t = s.push(e);
    assert forall|i: int, j: int| 0 <= i < j < t.len() implies (#[trigger] t[i]).hi() <= (
    #[trigger] t[j]).lo() by {
        if j < s.len() {
            assert(s[i].hi() <= s[j].lo());
        } else if i < s.len() - 1 {
            assert(s[i].hi() <= s[s.len() - 1].lo());
            assert(s[s.len() - 1].lo() < s[s.len() - 1].hi());
        }
    }
    assert forall|i: int| 0 <= i < t.len() implies (#[trigger] t[i]).lo() < t[i].hi() by {
        if i < s.len() {
            assert(s[i].lo() < s[i].hi());
        }
    }
}

/// Clones of entries hold the points of the entries.
pub(crate) proof fn lemma_clone_points<Idx: OrderedIndex, V: Clone>(
    t: Seq<Entry<Idx, V>>,
    s: Seq<Entry<Idx, V>>,
)
    requires
        is_clone_of(t, s),
    ensures
        forall|p: int| #[trigger] covers(t, p) <==> covers(s, p),
{
    assert forall|p: int| #[trigger] covers(t, p) <==> covers(s, p) by {
        if covers(t, p) {
            let i = choose|i: int| 0 <= i < t.len() && (#[trigger] t[i]).holds(p);
            assert(s[i].holds(p));
        }
        if covers(s, p) {
            let i = choose|i: int| 0 <= i < s.len() && (#[trigger] s[i]).holds(p);
            assert(t[i].range == s[i].range);
            assert(t[i].holds(p));
        }
    }
}

impl<Idx: OrderedIndex, V> InversionMap<Idx, V> {
    /// The intersection of two maps: for every entry of the one and every
    /// entry of the other that share a point, an entry that spans the points
    /// they share, with the value that `and` makes of their values. The
    /// value of the map with more entries is the first operand of `and`, that
    /// of `self` if both have the same number.
    pub fn bitand<F: Fn(&V, &V) -> V>(&self, rhs: &Self, and: F) -> (r: Self)
        requires
            self.wf(),
            rhs.wf(),
            accepts_pairs(and, larger(self@, rhs@), smaller(self@, rhs@)),
        ensures
            r.wf(),
            is_intersection(and, larger(self@, rhs@), smaller(self@, rhs@), r@),
            holds_common_points(r@, self@, rhs@),
    {
        let (base, driver) = if self.len() < rhs.len() {
            (rhs, self)
        } else {
            (self, rhs)
        };
        let n = driver.len();
        let mut out: Vec<Entry<Idx, V>> = Vec::new();
        let mut j: usize = 0;
        while j < n
            invariant
                base.wf(),
                driver.wf(),
                n == driver@.len(),
                j <= n,
                accepts_pairs(and, base@, driver@),
                entries_wf(out@),
                out@.len() > 0 && j < n ==> out@.last().hi() <= driver@[j as int].lo(),
                forall|k: int|
                    0 <= k < out@.len() ==> made_of(and, base@, driver@, #[trigger] out@[k]),
                forall|i: int, x: int|
                    0 <= i < base@.len() && 0 <= x < j && #[trigger] overlap(base@[i], driver@[x])
                        ==> has_range(out@, common(base@[i], driver@[x])),
            decreases n - j,
        {
            let d = driver.entry(j);
            proof {
                assert(driver@[j as int].lo() < driver@[j as int].hi());
            }
            let (lo, hi) = base.touch_points(&d.range);
            proof {
                lemma_meets(base@, d.lo(), d.hi(), lo as int, hi as int);
            }
            let mut i: usize = lo;
            while i < hi
                invariant
                    base.wf(),
                    driver.wf(),
                    n == driver@.len(),
                    j < n,
                    *d == driver@[j as int],
                    lo <= i <= hi <= base@.len(),
                    accepts_pairs(and, base@, driver@),
                    forall|x: int|
                        0 <= x < base@.len() ==> ((#[trigger] base@[x]).lo() < d.hi() && d.lo()
                            < base@[x].hi() <==> lo <= x < hi),
                    entries_wf(out@),
                    d.lo() < d.hi(),
                    out@.len() > 0 ==> out@.last().hi() <= d.hi(),
                    out@.len() > 0 ==> out@.last().hi() <= d.lo() || (i > lo && out@.last().hi()
                        <= base@[i - 1].hi()),
                    forall|k: int|
                        0 <= k < out@.len() ==> made_of(and, base@, driver@, #[trigger] out@[k]),
                    forall|i: int, x: int|
                        0 <= i < base@.len() && 0 <= x < j && #[trigger] overlap(
                            base@[i],
                            driver@[x],
                        ) ==> has_range(out@, common(base@[i], driver@[x])),
                    forall|x: int|
                        lo <= x < i ==> has_range(out@, common(#[trigger] base@[x], *d)),
                decreases hi - i,
            {
                let b = base.entry(i);
                let ghost prev = out@;
                let start = index_max(b.range.start, d.range.start);
                let end = index_min(b.range.end, d.range.end);
                proof {
                    assert(base@[i as int].lo() < d.hi() && d.lo() < base@[i as int].hi());
                    assert(overlap(base@[i as int], driver@[j as int]));
                }
                let value = and(&b.value, &d.value);
                let piece = Entry { range: start..end, value };
                proof {
                    assert(base@[i as int].lo() < d.hi() && d.lo() < base@[i as int].hi());
                    assert(overlap(*b, *d));
                    if d.lo() == b.lo() {
                        Idx::lemma_injective(d.range.start, b.range.start);
                    }
                    if d.hi() == b.hi() {
                        Idx::lemma_injective(d.range.end, b.range.end);
                    }
                    assert(piece.range == common(*b, *d));
                    assert(is_piece(and, base@[i as int], driver@[j as int], piece));
                    if i > lo {
                        assert(base@[i - 1].hi() <= base@[i as int].lo());
                    }
                    lemma_appended(prev, piece);
                }
                out.push(piece);
                proof {
                    assert forall|k: int| 0 <= k < out@.len() implies made_of(
                        and,
                        base@,
                        driver@,
                        #[trigger] out@[k],
                    ) by {
                        if k < prev.len() {
                            assert(out@[k] == prev[k]);
                        } else {
                            assert(is_piece(and, base@[i as int], driver@[j as int], out@[k]));
                        }
                    }
                    lemma_has_range_kept(prev, piece, base@, driver@, j as int);
                    assert forall|x: int| lo <= x < i + 1 implies has_range(
                        out@,
                        common(#[trigger] base@[x], *d),
                    ) by {
                        if x < i {
                            let k = choose|k: int|
                                0 <= k < prev.len() && (#[trigger] prev[k]).range == common(
                                    base@[x],
                                    *d,
                                );
                            assert(out@[k].range == common(base@[x], *d));
                        } else {
                            assert(out@[prev.len() as int].range == common(base@[x], *d));
                        }
                    }
                }
                i += 1;
            }
            proof {
                assert forall|i: int, x: int|
                    0 <= i < base@.len() && 0 <= x < j + 1 && #[trigger] overlap(
                        base@[i],
                        driver@[x],
                    ) implies has_range(out@, common(base@[i], driver@[x])) by {
                    if x == j {
                        assert(base@[i].lo() < d.hi() && d.lo() < base@[i].hi());
                        assert(lo <= i < hi);
                    }
                }
                if j + 1 < n {
                    assert(driver@[j as int].hi() <= driver@[j + 1].lo());
                }
            }
            j += 1;
        }
        proof {
            assert(is_intersection(and, base@, driver@, out@));
            lemma_intersection_points(and, base@, driver@, out@);
        }
        InversionMap::from_wf(out)
    }

    /// Makes the map the intersection of itself and `rhs`, as `bitand` gives
    /// it.
    pub fn bitand_assign<F: Fn(&V, &V) -> V>(&mut self, rhs: &Self, and: F)
        requires
            old(self).wf(),
            rhs.wf(),
            accepts_pairs(and, larger(old(self)@, rhs@), smaller(old(self)@, rhs@)),
        ensures
            final(self).wf(),
            is_intersection(
                and,
                larger(old(self)@, rhs@),
                smaller(old(self)@, rhs@),
                final(self)@,
            ),
            holds_common_points(final(self)@, old(self)@, rhs@),
    {
        let r = self.bitand(rhs, and);
        *self = r;
    }
}

/// One more entry in `out` keeps the ranges that `out` had.
proof fn lemma_has_range_kept<Idx: OrderedIndex, V>(
    prev: Seq<Entry<Idx, V>>,
    piece: Entry<Idx, V>,
    base: Seq<Entry<Idx, V>>,
    driver: Seq<Entry<Idx, V>>,
    j: int,
)
    requires
        forall|i: int, x: int|
            0 <= i < base.len() && 0 <= x < j && #[trigger] overlap(base[i], driver[x])
                ==> has_range(prev, common(base[i], driver[x])),
    ensures
        forall|i: int, x: int|
            0 <= i < base.len() && 0 <= x < j && #[trigger] overlap(base[i], driver[x])
                ==> has_range(prev.push(piece), common(base[i], driver[x])),
{
    let out = prev.push(piece);
    assert forall|i: int, x: int|
        0 <= i < base.len() && 0 <= x < j && #[trigger] overlap(base[i], driver[x]) implies has_range(
        out,
        common(base[i], driver[x]),
    ) by {
        let r = common(base[i], driver[x]);
        let k = choose|k: int| 0 <= k < prev.len() && (#[trigger] prev[k]).range == r;
        assert(out[k].range == r);
    }
}

} // verus!
