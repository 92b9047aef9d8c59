use crate::index::OrderedIndex;
use crate::map::add::lemma_add_points;
use crate::map::algebra::{
    holds_all_points, is_or_chain, is_union_chain, larger, lemma_clone_points, or_folded, smaller,
    union_folded, union_step,
};
use crate::map::model::{is_clone_of, lemma_covers_push, lemma_meets, overlapped};
use crate::map::{covers, Entry, InversionMap};
use vstd::prelude::*;

verus! {

impl<Idx: OrderedIndex, V: Clone> InversionMap<Idx, V> {
    /// The value for an entry that is added to the entries at `lo..hi` of
    /// the map: `or` folded over their values, from the first to the last,
    /// beginning with a clone of `value`.
    fn fold_or<F: Fn(&V, &V) -> V>(&self, value: &V, lo: usize, hi: usize, or: &F) -> (r: (
        V,
        Ghost<V>,
    ))
        requires
            lo <= hi <= self@.len(),
            forall|a: V, b: V| call_requires(*or, (&a, &b)),
        ensures
            cloned(*value, r.1@),
            or_folded(*or, r.1@, self@.subrange(lo as int, hi as int), r.0),
    {
        let ghost touched = self@.subrange(lo as int, hi as int);
        let first = value.clone();
        let ghost init = first;
        let ghost mut chain = seq![init];
        let mut acc = first;
        let mut t: usize = lo;
        while t < hi
            invariant
                lo <= t <= hi <= self@.len(),
                touched == self@.subrange(lo as int, hi as int),
                forall|a: V, b: V| call_requires(*or, (&a, &b)),
                is_or_chain(*or, init, touched.take(t - lo), chain),
                chain.last() == acc,
            decreases hi - t,
        {
            let ghost before = chain;
            let next = or(&acc, &self.entry(t).value);
            proof {
                let m = t - lo;
                let grown = touched.take(m + 1);
                chain = before.push(next);
                assert forall|x: int| 0 <= x < grown.len() implies call_ensures(
                    *or,
                    (&chain[x], &(#[trigger] grown[x]).value),
                    chain[x + 1],
                ) by {
                    if x < m {
                        assert(touched.take(m)[x] == grown[x]);
                        assert(chain[x] == before[x]);
                        assert(chain[x + 1] == before[x + 1]);
                    } else {
                        assert(grown[x] == self@[t as int]);
                    }
                }
            }
            acc = next;
            t += 1;
        }
        proof {
            assert(touched.take(hi - lo) =~= touched);
            assert(is_or_chain(*or, init, touched, chain) && chain.last() == acc);
        }
        (acc, Ghost(init))
    }

    /// The union of two maps. It begins as a clone of the map with more
    /// entries, of `self` if both have the same number. The entries of the
    /// other are then added to it one after the other, from the first to the
    /// last: each becomes one entry with the entries it shares a point with,
    /// and its value is `or` folded over their values, from the first to the
    /// last, beginning with a clone of the added entry's own.
    pub fn bitor<F: Fn(&V, &V) -> V>(&self, rhs: &Self, or: F) -> (r: Self)
        requires
            self.wf(),
            rhs.wf(),
            forall|a: V, b: V| call_requires(or, (&a, &b)),
        ensures
            r.wf(),
            exists|start: Seq<Entry<Idx, V>>|
                is_clone_of(start, larger(self@, rhs@)) && #[trigger] union_folded(
                    or,
                    start,
                    smaller(self@, rhs@),
                    r@,
                ),
            holds_all_points(r@, self@, rhs@),
    {
        let (big, small) = if self.len() < rhs.len() {
            (rhs, self)
        } else {
            (self, rhs)
        };
        let mut res = big.clone();
        let ghost start = res@;
        let ghost mut states = seq![start];
        proof {
            lemma_clone_points(start, big@);
            assert(small@.take(0).len() == 0);
            assert forall|p: int| !covers(small@.take(0), p) by {}
        }
        let n = small.len();
        let mut k: usize = 0;
        while k < n
            invariant
                small.wf(),
                n == small@.len(),
                k <= n,
                res.wf(),
                forall|a: V, b: V| call_requires(or, (&a, &b)),
                is_union_chain(or, start, small@.take(k as int), states),
                states.last() == res@,
                forall|p: int| #[trigger]
                    covers(res@, p) <==> covers(start, p) || covers(small@.take(k as int), p),
            decreases n - k,
        {
            let e = small.entry(k);
            let ghost acc = res@;
            proof {
                assert(small@[k as int].lo() < small@[k as int].hi());
            }
            let range = e.range.start..e.range.end;
            let (lo, hi) = res.touch_points(&range);
            let (value, Ghost(init)) = res.fold_or(&e.value, lo, hi, &or);
            res.merge_into(range, value, lo, hi);
            proof {
                lemma_meets(acc, e.lo(), e.hi(), lo as int, hi as int);
                lemma_add_points(acc, e.range, value, lo as int, hi as int);
                let grown = small@.take(k + 1);
                assert(grown.drop_last() =~= small@.take(k as int));
                assert(grown.last() == *e);
                assert(grown =~= small@.take(k as int).push(*e));
                lemma_covers_push(small@.take(k as int), *e);
                assert(cloned(e.value, init) && or_folded(or, init, overlapped(acc, e.range), value)
                    && res@ == crate::map::add::add_spec(acc, e.range, value));
                assert(union_step(or, acc, *e, res@));
                let before = states;
                states = before.push(res@);
                assert forall|x: int| 0 <= x < grown.len() implies union_step(
                    or,
                    states[x],
                    #[trigger] grown[x],
                    states[x + 1],
                ) by {
                    if x < k {
                        assert(small@.take(k as int)[x] == grown[x]);
                        assert(states[x] == before[x]);
                        assert(states[x + 1] == before[x + 1]);
                    }
                }
            }
            k += 1;
        }
        proof {
            assert(small@.take(n as int) =~= small@);
            assert(is_union_chain(or, start, small@, states) && states.last() == res@);
            assert(is_clone_of(start, larger(self@, rhs@)) && union_folded(
                or,
                start,
                smaller(self@, rhs@),
                res@,
            ));
        }
        res
    }

    /// Makes the map the union of itself and `rhs`, as `bitor` gives it.
    pub fn bitor_assign<F: Fn(&V, &V) -> V>(&mut self, rhs: &Self, or: F)
        requires
            old(self).wf(),
            rhs.wf(),
            forall|a: V, b: V| call_requires(or, (&a, &b)),
        ensures
            final(self).wf(),
            exists|start: Seq<Entry<Idx, V>>|
                is_clone_of(start, larger(old(self)@, rhs@)) && #[trigger] union_folded(
                    or,
                    start,
                    smaller(old(self)@, rhs@),
                    final(self)@,
                ),
            holds_all_points(final(self)@, old(self)@, rhs@),
    {
        let r = self.bitor(rhs, or);
        *self = r;
    }
}

} // verus!
