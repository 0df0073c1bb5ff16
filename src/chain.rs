//! Checkpoint chains for reverse-mode differentiation of loops.
//!
//! A chain is built from the *snapshots* of a loop, one per step, and an
//! adjoint function `j`.  Its sweep calls `j(s, g)` once per step, from the
//! last step down to the first, threading the adjoint value `g` through.
//! `FullChain` keeps every snapshot; `CtzChain` keeps a logarithmic number of
//! them and regenerates the others with a restoration function `r`, which
//! must map the snapshot of step `i` to the snapshot of step `i + 1`.
use vstd::prelude::*;
use vstd::std_specs::iter::IteratorSpec;
use crate::schedule::{
    EvictionSchedule,
    eviction_at,
    kept,
    lemma_kept_below,
    lemma_kept_len,
    retained_count,
};

verus! {

/// From position `lo` on, the entries of `v` carry strictly increasing indices.
pub open spec fn ascending_from<T>(v: Seq<(usize, T)>, lo: int) -> bool {
    forall|a: int, b: int| lo <= a < b < v.len() ==> (#[trigger] v[a]).0 < (#[trigger] v[b]).0
}

/// From position `lo` on, each entry of `v` is `(i, items[i - base])` for an
/// index `i` within `items`.
pub open spec fn drawn_from<T>(v: Seq<(usize, T)>, lo: int, base: int, items: Seq<T>) -> bool {
    forall|k: int|
        lo <= k < v.len() ==> {
            &&& base <= (#[trigger] v[k]).0 < base + items.len()
            &&& v[k].1 == items[v[k].0 - base]
        }
}

/// `t` is the run of adjoint values of a backward sweep of `adjoint` over
/// `ss` that starts from `x`: `t[n] == x` and `t[k]` is what `adjoint`
/// returns for `ss[k]` and `t[k + 1]`.  The sweep's result is `t[0]`.
pub open spec fn adjoint_trace<S, G, J: Fn(&S, G) -> G>(
    adjoint: J,
    ss: Seq<S>,
    x: G,
    t: Seq<G>,
) -> bool {
    &&& t.len() == ss.len() + 1
    &&& t[ss.len() as int] == x
    &&& forall|k: int|
        0 <= k < ss.len() ==> call_ensures(adjoint, (&ss[k], t[k + 1]), #[trigger] t[k])
}

/// `r` is a possible result of calling `adjoint` on every snapshot of `ss`,
/// last one first, starting from the adjoint value `x`.
pub open spec fn sweeps_to<S, G, J: Fn(&S, G) -> G>(adjoint: J, ss: Seq<S>, x: G, r: G) -> bool {
    exists|t: Seq<G>| adjoint_trace(adjoint, ss, x, t) && t[0] == r
}

/// `adjoint` accepts every snapshot of `ss` with any adjoint value.
pub open spec fn adjoint_ready<S, G, J: Fn(&S, G) -> G>(adjoint: J, ss: Seq<S>) -> bool {
    forall|k: int, g: G| 0 <= k < ss.len() ==> #[trigger] call_requires(adjoint, (&ss[k], g))
}

/// `adjoint` gives one result for each pair of arguments.
pub open spec fn adjoint_deterministic<S, G, J: Fn(&S, G) -> G>(adjoint: J) -> bool {
    forall|s: S, g: G, r1: G, r2: G|
        #[trigger] call_ensures(adjoint, (&s, g), r1) && #[trigger] call_ensures(adjoint, (&s, g), r2)
            ==> r1 == r2
}

/// One call of an adjoint function that may change its snapshot: handed
/// the snapshot `s` and the adjoint value `g`, it returns `r`.
pub open spec fn mut_step<S, G, J: FnMut(&mut S, G) -> G>(adjoint: J, s: S, g: G, r: G) -> bool {
    exists|a: (&mut S, G)| *a.0 == s && a.1 == g && #[trigger] call_ensures(adjoint, a, r)
}

/// `adjoint` accepts each snapshot of `ss`, as it stands, with any adjoint
/// value.
pub open spec fn mut_adjoint_ready<S, G, J: FnMut(&mut S, G) -> G>(adjoint: J, ss: Seq<S>) -> bool {
    forall|k: int, a: (&mut S, G)|
        #![trigger call_requires(adjoint, a), ss[k]]
        0 <= k < ss.len() && *a.0 == ss[k] ==> call_requires(adjoint, a)
}

/// The same as `adjoint_trace`, for an adjoint function that may change each
/// snapshot it is handed; `ss` holds the snapshots as they were handed over.
pub open spec fn adjoint_trace_mut<S, G, J: FnMut(&mut S, G) -> G>(
    adjoint: J,
    ss: Seq<S>,
    x: G,
    t: Seq<G>,
) -> bool {
    &&& t.len() == ss.len() + 1
    &&& t[ss.len() as int] == x
    &&& forall|k: int| 0 <= k < ss.len() ==> mut_step(adjoint, ss[k], t[k + 1], #[trigger] t[k])
}

/// The same as `sweeps_to`, for an adjoint function that may change each
/// snapshot it is handed.
pub open spec fn sweeps_mut_to<S, G, J: FnMut(&mut S, G) -> G>(adjoint: J, ss: Seq<S>, x: G, r: G) -> bool {
    exists|t: Seq<G>| adjoint_trace_mut(adjoint, ss, x, t) && t[0] == r
}

/// The same as `adjoint_trace`, for an adjoint function that takes each
/// snapshot by value.
pub open spec fn adjoint_trace_once<S, G, J: FnMut(S, G) -> G>(
    adjoint: J,
    ss: Seq<S>,
    x: G,
    t: Seq<G>,
) -> bool {
    &&& t.len() == ss.len() + 1
    &&& t[ss.len() as int] == x
    &&& forall|k: int| 0 <= k < ss.len() ==> call_ensures(adjoint, (ss[k], t[k + 1]), #[trigger] t[k])
}

/// The same as `sweeps_to`, for an adjoint function that takes each snapshot
/// by value.
pub open spec fn sweeps_once_to<S, G, J: FnMut(S, G) -> G>(adjoint: J, ss: Seq<S>, x: G, r: G) -> bool {
    exists|t: Seq<G>| adjoint_trace_once(adjoint, ss, x, t) && t[0] == r
}

/// The same as `adjoint_ready`, for an adjoint function that takes each
/// snapshot by value.
pub open spec fn adjoint_once_ready<S, G, J: FnMut(S, G) -> G>(adjoint: J, ss: Seq<S>) -> bool {
    forall|k: int, g: G| 0 <= k < ss.len() ==> #[trigger] call_requires(adjoint, (ss[k], g))
}

/// The entries that a batch keeps of `items`, tagged with the indices `i0`,
/// `i0 + 1`, ..., under the eviction schedule.
pub open spec fn kept_entries<T>(items: Seq<T>, i0: int) -> Seq<(usize, T)> {
    kept(items.len()).map_values(|j: nat| ((i0 + j) as usize, items[j as int]))
}

/// Appends `item` to the batch that starts at `start`, then drops the entry
/// that the schedule names, if any.  The entries before the batch, the first
/// entry of the batch and the new entry are kept.
fn ctz_push<T>(
    v: &mut Vec<(usize, T)>,
    start: usize,
    sched: &mut EvictionSchedule,
    Ghost(n): Ghost<nat>,
    item: (usize, T),
)
    requires
        old(sched).after(n),
        n + 1 <= u64::MAX,
        old(v).len() == start + old(sched).level_spec() + 2,
    ensures
        final(sched).after(n + 1),
        final(sched).level_spec() + 2 == retained_count(n + 1),
        final(v).len() == start + final(sched).level_spec() + 2,
        final(v)@.last() == item,
        eviction_at(n) <= 0 ==> final(v)@ == old(v)@.push(item),
        eviction_at(n) > 0 ==> final(v)@ == old(v)@.push(item).remove(start + eviction_at(n)),
        forall|k: int| 0 <= k <= start && k < old(v).len() ==> #[trigger] final(v)@[k] == old(v)@[k],
        ascending_from(old(v)@.push(item), start as int) ==> ascending_from(final(v)@, start as int),
        forall|base: int, items: Seq<T>|
            drawn_from(old(v)@.push(item), start as int, base, items) ==> #[trigger] drawn_from(
                final(v)@,
                start as int,
                base,
                items,
            ),
{
    let ghost pushed = old(v)@.push(item);
    v.push(item);
    assert(v@ == pushed);
    match sched.step(Ghost(n)) {
        None => {
            proof {
                sched.lemma_retained(n + 1);
            }
        },
        Some(p) => {
            proof {
                sched.lemma_retained(n + 1);
            }
            v.remove(start + p);
            let ghost q = (start + p) as int;
            assert(final(v)@ == pushed.remove(q));
            assert forall|a: int, b: int|
                start <= a < b < v@.len() && ascending_from(pushed, start as int) implies
                (#[trigger] v@[a]).0 < (#[trigger] v@[b]).0 by {
                let a2 = if a < q { a } else { a + 1 };
                let b2 = if b < q { b } else { b + 1 };
                assert(v@[a] == pushed[a2]);
                assert(v@[b] == pushed[b2]);
            }
            assert forall|base: int, items: Seq<T>|
                drawn_from(pushed, start as int, base, items) implies #[trigger] drawn_from(
                    v@,
                    start as int,
                    base,
                    items,
                ) by {
                assert forall|k: int| start <= k < v@.len() implies {
                    &&& base <= (#[trigger] v@[k]).0 < base + items.len()
                    &&& v@[k].1 == items[v@[k].0 - base]
                } by {
                    let k2 = if k < q { k } else { k + 1 };
                    assert(v@[k] == pushed[k2]);
                }
            }
        },
    }
}

/// `ctz_extend`, which also hands back, as a ghost value, the items that
/// `xs` yielded.
fn extend_tracking<T, I: Iterator<Item = T>>(v: &mut Vec<(usize, T)>, i0: usize, xs: I) -> (seen: Ghost<Seq<T>>)
    requires
        xs.obeys_prophetic_iter_laws(),
        xs.decrease() is Some,
        xs.remaining().len() <= usize::MAX,
        xs.remaining().len() == 0 || i0 + xs.remaining().len() - 1 <= usize::MAX,
    ensures
        seen@ == xs.remaining(),
        final(v)@.len() == old(v)@.len() + retained_count(xs.remaining().len()),
        final(v)@.subrange(0, old(v)@.len() as int) == old(v)@,
        final(v)@.subrange(old(v)@.len() as int, final(v)@.len() as int) == kept_entries(
            xs.remaining(),
            i0 as int,
        ),
        ascending_from(final(v)@, old(v)@.len() as int),
        drawn_from(final(v)@, old(v)@.len() as int, i0 as int, xs.remaining()),
        xs.remaining().len() > 0 ==> {
            &&& final(v)@[old(v)@.len() as int] == (i0, xs.remaining()[0])
            &&& final(v)@.last() == ((i0 + xs.remaining().len() - 1) as usize, xs.remaining().last())
        },
{
    let ghost items = xs.remaining();
    let start = v.len();
    let mut sched = EvictionSchedule::new();
    let mut it = xs;
    let mut i: usize = 0;
    let ghost done: Seq<T> = Seq::empty();
    loop
        invariant
            it.obeys_prophetic_iter_laws(),
            it.decrease() is Some,
            done + it.remaining() == items,
            items == xs.remaining(),
            i == done.len(),
            items.len() <= usize::MAX,
            items.len() == 0 || i0 + items.len() - 1 <= usize::MAX,
            sched.after(i as nat),
            sched.level_spec() + 2 == retained_count(i as nat),
            v@.len() == start + sched.level_spec() + 2,
            start == old(v)@.len(),
            v@.subrange(0, start as int) == old(v)@,
            ascending_from(v@, start as int),
            drawn_from(v@, start as int, i0 as int, done),
            v@.subrange(start as int, v@.len() as int) == kept_entries(done, i0 as int),
            i > 0 ==> {
                &&& v@[start as int] == (i0, done[0])
                &&& v@.last() == ((i0 + i - 1) as usize, done.last())
            },
        decreases it.decrease()->0,
    {
        match it.next() {
            Some(x) => {
                proof {
                    assert(items[i as int] == x);
                    assert(done.push(x) + it.remaining() == items);
                }
                let ghost before = v@;
                let ghost item = ((i0 + i) as usize, x);
                ctz_push(v, start, &mut sched, Ghost(i as nat), (i0 + i, x));
                proof {
                    let d2 = done.push(x);
                    assert forall|a: int, b: int|
                        start <= a < b < before.push(item).len() implies (#[trigger] before.push(
                            item,
                        )[a]).0 < (#[trigger] before.push(item)[b]).0 by {
                        if b == before.len() {
                            if i > 0 {
                                assert(before[a].0 <= before.last().0) by {
                                    if a < before.len() - 1 {
                                        assert(before[a].0 < before[before.len() - 1].0);
                                    }
                                }
                            }
                        }
                    }
                    assert forall|k: int| start <= k < before.push(item).len() implies {
                        &&& i0 <= (#[trigger] before.push(item)[k]).0 < i0 + d2.len()
                        &&& before.push(item)[k].1 == d2[before.push(item)[k].0 - i0]
                    } by {
                        if k < before.len() {
                            assert(before.push(item)[k] == before[k]);
                        }
                    }
                    if i == 0 {
                        assert(v@[start as int] == item);
                    }
                    assert(v@.subrange(0, start as int) =~= before.subrange(0, start as int));
                    lemma_kept_below(i as nat);
                    lemma_kept_len(i as nat);
                    let ks = kept(i as nat);
                    let old_sub = before.subrange(start as int, before.len() as int);
                    assert(kept_entries(done, i0 as int) =~= ks.map_values(
                        |j: nat| ((i0 + j) as usize, d2[j as int]),
                    ));
                    let grown = ks.push(i as nat).map_values(
                        |j: nat| ((i0 + j) as usize, d2[j as int]),
                    );
                    assert(grown =~= old_sub.push(item));
                    let c = eviction_at(i as nat);
                    if c <= 0 {
                        assert(v@.subrange(start as int, v@.len() as int) =~= grown);
                    } else {
                        assert(v@.subrange(start as int, v@.len() as int) =~= grown.remove(c));
                        assert(ks.push(i as nat).remove(c).map_values(
                            |j: nat| ((i0 + j) as usize, d2[j as int]),
                        ) =~= grown.remove(c));
                    }
                    assert(kept_entries(d2, i0 as int) == v@.subrange(start as int, v@.len() as int));
                    done = d2;
                }
                i = i + 1;
            },
            None => {
                proof {
                    assert(done == items);
                    sched.lemma_retained(i as nat);
                }
                return Ghost(done);
            },
        }
    }
}

/// Lossily extends `v` with the items of `xs`, tagged with the indices `i0`,
/// `i0 + 1`, ...  After each append, the eviction schedule may drop one item
/// appended earlier by this call; items already in `v` are left alone, and
/// the first and the last new items always stay.  Of `n >= 1` new items
/// exactly `ceil(log2(n)) + 1` remain, in the order of their indices.
pub fn ctz_extend<T, I: Iterator<Item = T>>(v: &mut Vec<(usize, T)>, i0: usize, xs: I)
    requires
        xs.obeys_prophetic_iter_laws(),
        xs.decrease() is Some,
        xs.remaining().len() <= usize::MAX,
        xs.remaining().len() == 0 || i0 + xs.remaining().len() - 1 <= usize::MAX,
    ensures
        final(v)@.len() == old(v)@.len() + retained_count(xs.remaining().len()),
        final(v)@.subrange(0, old(v)@.len() as int) == old(v)@,
        final(v)@.subrange(old(v)@.len() as int, final(v)@.len() as int) == kept_entries(
            xs.remaining(),
            i0 as int,
        ),
        ascending_from(final(v)@, old(v)@.len() as int),
        drawn_from(final(v)@, old(v)@.len() as int, i0 as int, xs.remaining()),
        xs.remaining().len() > 0 ==> {
            &&& final(v)@[old(v)@.len() as int] == (i0, xs.remaining()[0])
            &&& final(v)@.last() == ((i0 + xs.remaining().len() - 1) as usize, xs.remaining().last())
        },
{
    let _ = extend_tracking(v, i0, xs);
}

} // verus!

verus! {

/// A chain that keeps the snapshot of every step.
pub struct FullChain<S, J> {
    snapshots: Vec<S>,
    adjoint: J,
}

impl<S, J> View for FullChain<S, J> {
    type V = Seq<S>;

    /// The snapshots of the chain, first step first.
    closed spec fn view(&self) -> Seq<S> {
        self.snapshots@
    }
}

impl<S, J> FullChain<S, J> {
    /// The adjoint function of the chain.
    pub closed spec fn adjoint_fn(&self) -> J {
        self.adjoint
    }

    /// Takes every snapshot that `snapshots` yields.
    pub fn new<I: Iterator<Item = S>>(snapshots: I, adjoint: J) -> (chain: Self)
        requires
            snapshots.obeys_prophetic_iter_laws(),
            snapshots.decrease() is Some,
        ensures
            chain@ == snapshots.remaining(),
            chain.adjoint_fn() == adjoint,
    {
        let ghost items = snapshots.remaining();
        let mut it = snapshots;
        let mut v: Vec<S> = Vec::new();
        loop
            invariant
                it.obeys_prophetic_iter_laws(),
                it.decrease() is Some,
                v@ + it.remaining() == items,
                items == snapshots.remaining(),
            decreases it.decrease()->0,
        {
            match it.next() {
                Some(s) => {
                    proof {
                        assert(v@.push(s) + it.remaining() == items);
                    }
                    v.push(s);
                },
                None => {
                    assert(v@ + it.remaining() == v@);
                    return FullChain { snapshots: v, adjoint };
                },
            }
        }
    }

    /// Calls the adjoint function on each snapshot, last step first, and
    /// returns the final adjoint value.
    pub fn sweep<G>(&self, x: G) -> (r: G) where J: Fn(&S, G) -> G
        requires
            adjoint_ready(self.adjoint_fn(), self@),
        ensures
            sweeps_to(self.adjoint_fn(), self@, x, r),
    {
        let n = self.snapshots.len();
        let ghost ss = self@;
        let ghost mut t: Seq<G> = Seq::new((n + 1) as nat, |i: int| x);
        let mut k = n;
        let mut g = x;
        while k > 0
            invariant
                k <= n == ss.len(),
                ss == self@,
                adjoint_ready(self.adjoint, ss),
                t.len() == n + 1,
                t[n as int] == x,
                g == t[k as int],
                forall|i: int| k <= i < n ==> call_ensures(self.adjoint, (&ss[i], t[i + 1]), #[trigger] t[i]),
            decreases k,
        {
            let y = (self.adjoint)(&self.snapshots[k - 1], g);
            proof {
                t = t.update(k - 1, y);
            }
            g = y;
            k = k - 1;
        }
        assert(adjoint_trace(self.adjoint, ss, x, t));
        g
    }

    /// Calls the adjoint function on each snapshot, last step first, letting
    /// it change the snapshot, and returns the final adjoint value.  Each call
    /// is handed the snapshot of its step as the chain held it before the
    /// sweep, and the adjoint value the previous call returned.
    pub fn sweep_mut<G>(&mut self, x: G) -> (r: G) where J: FnMut(&mut S, G) -> G
        requires
            mut_adjoint_ready(old(self).adjoint_fn(), old(self)@),
        ensures
            final(self)@.len() == old(self)@.len(),
            final(self).adjoint_fn() == old(self).adjoint_fn(),
            sweeps_mut_to(old(self).adjoint_fn(), old(self)@, x, r),
    {
        let n = self.snapshots.len();
        let mut k = n;
        let mut g = x;
        let ghost adj = self.adjoint;
        let ghost ss = self.snapshots@;
        let ghost mut t: Seq<G> = Seq::new((n + 1) as nat, |i: int| x);
        assert(adj == old(self).adjoint_fn());
        while k > 0
            invariant
                k <= n == self.snapshots.len() == ss.len(),
                ss == old(self).snapshots@,
                self.adjoint == adj,
                adj == old(self).adjoint_fn(),
                mut_adjoint_ready(adj, ss),
                forall|i: int| 0 <= i < k ==> #[trigger] self.snapshots@[i] == ss[i],
                t.len() == n + 1,
                t[n as int] == x,
                g == t[k as int],
                forall|i: int| k <= i < n ==> mut_step(adj, ss[i], t[i + 1], #[trigger] t[i]),
            decreases k,
        {
            let ghost g0 = g;
            let ghost before = self.snapshots@;
            assert(self.snapshots@[k - 1] == ss[k - 1]);
            let y = (self.adjoint)(&mut self.snapshots[k - 1], g);
            proof {
                assert(before[k - 1] == ss[k - 1]);
                assert(exists|a: (&mut S, G)|
                    #[trigger] call_ensures(adj, a, y) && a.1 == g0 && *a.0 == ss[k - 1]);
                assert(mut_step(adj, ss[k - 1], g0, y));
                assert(self.snapshots@ == before.update(k - 1, self.snapshots@[k - 1]));
                t = t.update(k - 1, y);
            }
            g = y;
            k = k - 1;
        }
        assert(adjoint_trace_mut(adj, ss, x, t));
        assert(t[0] == g);
        g
    }

    /// Consumes the chain, handing each snapshot to the adjoint function,
    /// last step first, and returns the final adjoint value.
    pub fn sweep_once<G>(self, x: G) -> (r: G) where J: FnMut(S, G) -> G
        requires
            adjoint_once_ready(self.adjoint_fn(), self@),
        ensures
            sweeps_once_to(self.adjoint_fn(), self@, x, r),
    {
        let ghost ss = self@;
        let ghost adj = self.adjoint;
        let FullChain { snapshots: mut rest, adjoint: mut adjoint } = self;
        let n = rest.len();
        let ghost mut t: Seq<G> = Seq::new((n + 1) as nat, |i: int| x);
        let mut g = x;
        while rest.len() > 0
            invariant
                rest@.len() <= n == ss.len(),
                rest@ == ss.subrange(0, rest@.len() as int),
                adjoint == adj,
                adjoint_once_ready(adj, ss),
                t.len() == n + 1,
                t[n as int] == x,
                g == t[rest@.len() as int],
                forall|i: int|
                    rest@.len() <= i < n ==> call_ensures(adj, (ss[i], t[i + 1]), #[trigger] t[i]),
            decreases rest@.len(),
        {
            let ghost k = rest@.len() - 1;
            let s = rest.pop().unwrap();
            assert(s == ss[k]);
            let y = adjoint(s, g);
            proof {
                t = t.update(k, y);
            }
            g = y;
        }
        assert(adjoint_trace_once(adj, ss, x, t));
        g
    }
}

} // verus!

verus! {

/// `restore` maps the snapshot of each step of `ss` but the last to the
/// snapshot of the next step, and accepts each of them.
pub open spec fn restores<S, R: FnMut(&S) -> S>(restore: R, ss: Seq<S>) -> bool {
    forall|i: int|
        0 <= i < ss.len() - 1 ==> {
            &&& #[trigger] call_requires(restore, (&ss[i],))
            &&& forall|s: S| call_ensures(restore, (&ss[i],), s) ==> s == ss[i + 1]
        }
}

proof fn lemma_push_keeps_order<T>(v: Seq<(usize, T)>, lo: int, item: (usize, T))
    requires
        0 <= lo,
        ascending_from(v, lo),
        forall|k: int| lo <= k < v.len() ==> (#[trigger] v[k]).0 < item.0,
    ensures
        ascending_from(v.push(item), lo),
{
    assert forall|a: int, b: int| lo <= a < b < v.push(item).len() implies (#[trigger] v.push(
        item,
    )[a]).0 < (#[trigger] v.push(item)[b]).0 by {
        assert(v.push(item)[a] == v[a]);
    }
}

proof fn lemma_push_keeps_drawn<T>(v: Seq<(usize, T)>, lo: int, base: int, items: Seq<T>, item: (usize, T))
    requires
        0 <= lo,
        drawn_from(v, lo, base, items),
        base <= item.0 < base + items.len(),
        item.1 == items[item.0 - base],
    ensures
        drawn_from(v.push(item), lo, base, items),
{
    assert forall|k: int| lo <= k < v.push(item).len() implies {
        &&& base <= (#[trigger] v.push(item)[k]).0 < base + items.len()
        &&& v.push(item)[k].1 == items[v.push(item)[k].0 - base]
    } by {
        if k < v.len() {
            assert(v.push(item)[k] == v[k]);
        }
    }
}

/// Regenerates the snapshots of the steps `lo .. hi` from `first`, the
/// snapshot of step `lo`, and appends them to `work` under the eviction
/// schedule: the first and the last of them stay.
fn regenerate<S, R: FnMut(&S) -> S>(
    work: &mut Vec<(usize, S)>,
    first: S,
    lo: usize,
    hi: usize,
    restore: &mut R,
    Ghost(all): Ghost<Seq<S>>,
)
    requires
        lo < hi <= all.len(),
        first == all[lo as int],
        restores(*old(restore), all),
    ensures
        *final(restore) == *old(restore),
        final(work)@.len() > old(work)@.len(),
        final(work)@.subrange(0, old(work)@.len() as int) == old(work)@,
        ascending_from(final(work)@, old(work)@.len() as int),
        drawn_from(final(work)@, old(work)@.len() as int, 0, all),
        final(work)@[old(work)@.len() as int].0 == lo,
        final(work)@.last().0 == hi - 1,
{
    let start = work.len();
    let mut sched = EvictionSchedule::new();
    let mut cur = first;
    let mut k = lo;
    let ghost rf = *restore;
    broadcast use vstd::function::group_function_axioms;
    loop
        invariant
            lo <= k < hi <= all.len(),
            cur == all[k as int],
            *restore == rf,
            rf == *old(restore),
            restores(rf, all),
            sched.after((k - lo) as nat),
            sched.level_spec() + 2 == retained_count((k - lo) as nat),
            work@.len() == start + sched.level_spec() + 2,
            start == old(work)@.len(),
            work@.subrange(0, start as int) == old(work)@,
            ascending_from(work@, start as int),
            drawn_from(work@, start as int, 0, all),
            forall|m: int| start <= m < work@.len() ==> (#[trigger] work@[m]).0 < k,
            k > lo ==> work@[start as int].0 == lo && work@.last().0 == k - 1,
        decreases hi - k,
    {
        let ghost before = work@;
        let ghost item = (k, cur);
        proof {
            lemma_push_keeps_order(before, start as int, item);
            lemma_push_keeps_drawn(before, start as int, 0, all, item);
        }
        if k + 1 == hi {
            ctz_push(work, start, &mut sched, Ghost((k - lo) as nat), (k, cur));
            proof {
                if k == lo {
                    assert(work@[start as int] == item);
                }
                assert(work@.subrange(0, start as int) =~= before.subrange(0, start as int));
            }
            return;
        }
        proof {
            assert(cur == all[k as int]);
            assert(call_requires(rf, (&all[k as int],)));
        }
        let next = restore(&cur);
        ctz_push(work, start, &mut sched, Ghost((k - lo) as nat), (k, cur));
        proof {
            if k == lo {
                assert(work@[start as int] == item);
            }
            assert(work@.subrange(0, start as int) =~= before.subrange(0, start as int));
            assert forall|m: int| start <= m < work@.len() implies (#[trigger] work@[m]).0 < k + 1 by {
                if m < work@.len() - 1 {
                    assert(work@[m].0 < work@[work@.len() - 1].0);
                }
            }
        }
        cur = next;
        k = k + 1;
    }
}

} // verus!

verus! {

/// A chain that keeps `ceil(log2(n)) + 1` of its `n` snapshots, chosen by
/// the eviction schedule, and regenerates the others with its restoration
/// function during a sweep.
pub struct CtzChain<S, J, R> {
    snapshots: Vec<(usize, S)>,
    adjoint: J,
    restore: R,
    steps: Ghost<Seq<S>>,
}

impl<S, J, R> View for CtzChain<S, J, R> {
    type V = Seq<S>;

    /// The snapshots of every step the chain stands for, first step first.
    closed spec fn view(&self) -> Seq<S> {
        self.steps@
    }
}

impl<S, J, R> CtzChain<S, J, R> {
    /// The adjoint function of the chain.
    pub closed spec fn adjoint_fn(&self) -> J {
        self.adjoint
    }

    /// The restoration function of the chain.
    pub closed spec fn restore_fn(&self) -> R {
        self.restore
    }

    /// The snapshots the chain keeps, with the steps they belong to.
    pub closed spec fn retained(&self) -> Seq<(usize, S)> {
        self.snapshots@
    }

    /// The kept snapshots are those of their steps, in the order of the
    /// steps, and include the first and the last step.
    pub open spec fn wf(&self) -> bool {
        &&& ascending_from(self.retained(), 0)
        &&& drawn_from(self.retained(), 0, 0, self@)
        &&& self.retained().len() == retained_count(self@.len())
        &&& self@.len() <= usize::MAX
        &&& self@.len() > 0 ==> {
            &&& self.retained()[0].0 == 0
            &&& self.retained().last().0 == self@.len() - 1
        }
    }

    /// Takes the snapshots that `snapshots` yields, keeping only those that
    /// the eviction schedule leaves.
    pub fn new<I: Iterator<Item = S>>(snapshots: I, adjoint: J, restore: R) -> (chain: Self)
        requires
            snapshots.obeys_prophetic_iter_laws(),
            snapshots.decrease() is Some,
            snapshots.remaining().len() <= usize::MAX,
        ensures
            chain.wf(),
            chain@ == snapshots.remaining(),
            chain.retained() == kept_entries(snapshots.remaining(), 0),
            chain.adjoint_fn() == adjoint,
            chain.restore_fn() == restore,
    {
        let mut stored: Vec<(usize, S)> = Vec::new();
        let seen = extend_tracking(&mut stored, 0, snapshots);
        proof {
            assert(stored@.subrange(0, 0) =~= Seq::<(usize, S)>::empty());
            assert(stored@.subrange(0, stored@.len() as int) =~= stored@);
        }
        CtzChain { snapshots: stored, adjoint, restore, steps: seen }
    }

    /// Calls the adjoint function on the snapshot of each step, last step
    /// first, and returns the final adjoint value.  Snapshots that were not
    /// kept are regenerated from the nearest earlier one with the restoration
    /// function, into a working stack that follows the eviction schedule too.
    pub fn sweep<G>(&self, x: G) -> (r: G) where J: Fn(&S, G) -> G, R: Fn(&S) -> S
        requires
            self.wf(),
            adjoint_ready(self.adjoint_fn(), self@),
            restores(self.restore_fn(), self@),
        ensures
            sweeps_to(self.adjoint_fn(), self@, x, r),
    {
        let ghost all = self@;
        let ghost stored = self.snapshots@;
        let ghost n = all.len();
        let ghost mut t: Seq<G> = Seq::new((n + 1) as nat, |i: int| x);
        let mut r = self.snapshots.len();
        if r == 0 {
            assert(adjoint_trace(self.adjoint, all, x, t));
            assert(t[0] == x);
            return x;
        }
        let mut j: usize = self.snapshots[r - 1].0 + 1;
        let mut work: Vec<(usize, S)> = Vec::new();
        let mut g = x;
        let restore_ref = &self.restore;
        let mut restore_step = move |s: &S| -> (next: S)
            requires
                call_requires(restore_ref, (s,)),
            ensures
                call_ensures(restore_ref, (s,), next),
            { restore_ref(s) };
        assert forall|i: int| 0 <= i < all.len() - 1 implies {
            &&& #[trigger] call_requires(restore_step, (&all[i],))
            &&& forall|s: S| call_ensures(restore_step, (&all[i],), s) ==> s == all[i + 1]
        } by {
            assert(call_requires(self.restore, (&all[i],)));
            assert forall|s: S| call_ensures(restore_step, (&all[i],), s) implies s == all[i + 1] by {
                assert(call_ensures(restore_ref, (&all[i],), s));
                assert(call_ensures(self.restore, (&all[i],), s));
            }
        }
        assert(restores(restore_step, all));
        loop
            invariant
                n == all.len(),
                all == self@,
                stored == self.snapshots@,
                self.wf(),
                adjoint_ready(self.adjoint, all),
                restores(self.restore, all),
                restores(restore_step, all),
                j <= n,
                r <= stored.len(),
                r > 0 ==> stored[r - 1].0 < j,
                r == 0 ==> j == 0 && work@.len() == 0,
                ascending_from(work@, 0),
                drawn_from(work@, 0, 0, all),
                work@.len() > 0 ==> work@.last().0 < j && stored[r - 1].0 < work@[0].0,
                t.len() == n + 1,
                t[n as int] == x,
                g == t[j as int],
                forall|i: int| j <= i < n ==> call_ensures(self.adjoint, (&all[i], t[i + 1]), #[trigger] t[i]),
            decreases 2 * j + (if work@.len() > 0 {
                if work@.last().0 + 1 != j { 1int } else { 0 }
            } else if r > 0 {
                if stored[r - 1].0 + 1 != j { 1int } else { 0 }
            } else {
                0
            }),
        {
            if work.len() > 0 {
                let ghost before = work@;
                let (i, s) = work.pop().unwrap();
                assert(before.last() == (i, s));
                assert(s == all[i as int]);
                if i + 1 == j {
                    let y = (self.adjoint)(&s, g);
                    proof {
                        t = t.update(i as int, y);
                        assert forall|a: int, b: int| 0 <= a < b < work@.len() implies (
                        #[trigger] work@[a]).0 < (#[trigger] work@[b]).0 by {
                            assert(work@[a] == before[a] && work@[b] == before[b]);
                        }
                        assert forall|k: int| 0 <= k < work@.len() implies {
                            &&& 0 <= (#[trigger] work@[k]).0 < 0 + all.len()
                            &&& work@[k].1 == all[work@[k].0 - 0]
                        } by {
                            assert(work@[k] == before[k]);
                        }
                        if work@.len() > 0 {
                            assert(work@.last() == before[before.len() - 2]);
                            assert(before[before.len() - 2].0 < before[before.len() - 1].0);
                            assert(work@[0] == before[0]);
                        } else {
                            assert(i == before[0].0);
                        }
                    }
                    g = y;
                    j = i;
                } else {
                    proof {
                        assert(call_requires(self.restore, (&all[i as int],)));
                    }
                    let first = (self.restore)(&s);
                    work.push((i, s));
                    assert(work@ == before);
                    regenerate(&mut work, first, i + 1, j, &mut restore_step, Ghost(all));
                    proof {
                        let len0 = before.len() as int;
                        assert(work@.subrange(0, len0) == before);
                        assert forall|a: int, b: int| 0 <= a < b < work@.len() implies (
                        #[trigger] work@[a]).0 < (#[trigger] work@[b]).0 by {
                            if b < len0 {
                                assert(work@[a] == before[a] && work@[b] == before[b]);
                            } else if a < len0 {
                                assert(work@[a] == before[a]);
                                assert(before[a].0 <= i) by {
                                    if a < len0 - 1 {
                                        assert(before[a].0 < before[len0 - 1].0);
                                    }
                                }
                                if b > len0 {
                                    assert(work@[len0].0 < work@[b].0);
                                }
                            }
                        }
                        assert forall|k: int| 0 <= k < work@.len() implies {
                            &&& 0 <= (#[trigger] work@[k]).0 < 0 + all.len()
                            &&& work@[k].1 == all[work@[k].0 - 0]
                        } by {
                            if k < len0 {
                                assert(work@[k] == before[k]);
                            }
                        }
                        assert(work@[0] == before[0]);
                    }
                }
            } else {
                if r == 0 {
                    assert(adjoint_trace(self.adjoint, all, x, t));
                    assert(t[0] == g);
                    return g;
                }
                let entry = &self.snapshots[r - 1];
                let i = entry.0;
                assert(stored[r - 1] == *entry);
                assert(entry.1 == all[i as int]);
                if i + 1 == j {
                    let y = (self.adjoint)(&entry.1, g);
                    proof {
                        t = t.update(i as int, y);
                        if r >= 2 {
                            assert(stored[r - 2].0 < stored[r - 1].0);
                        } else {
                            assert(i == stored[0].0);
                        }
                    }
                    g = y;
                    j = i;
                    r = r - 1;
                } else {
                    proof {
                        assert(call_requires(self.restore, (&all[i as int],)));
                    }
                    let first = (self.restore)(&entry.1);
                    regenerate(&mut work, first, i + 1, j, &mut restore_step, Ghost(all));
                }
            }
        }
    }

    /// Consumes the chain, handing the snapshot of each step to the adjoint
    /// function, last step first, and returns the final adjoint value.
    /// Snapshots that were not kept are regenerated from the nearest earlier
    /// one with the restoration function.
    pub fn sweep_once<G>(self, x: G) -> (r: G) where J: FnMut(S, G) -> G, R: FnMut(&S) -> S
        requires
            self.wf(),
            adjoint_once_ready(self.adjoint_fn(), self@),
            restores(self.restore_fn(), self@),
        ensures
            sweeps_once_to(self.adjoint_fn(), self@, x, r),
    {
        let ghost all = self@;
        let ghost adj = self.adjoint;
        let CtzChain { snapshots: mut stack, adjoint: mut adjoint, restore: mut restore, steps: _ } = self;
        let ghost n = all.len();
        let ghost mut t: Seq<G> = Seq::new((n + 1) as nat, |i: int| x);
        if stack.len() == 0 {
            assert(adjoint_trace_once(adj, all, x, t));
            return x;
        }
        let mut j: usize = stack[stack.len() - 1].0 + 1;
        let mut g = x;
        loop
            invariant
                n == all.len(),
                all == self@,
                adj == self.adjoint,
                j <= n,
                adjoint == adj,
                adjoint_once_ready(adj, all),
                restores(restore, all),
                ascending_from(stack@, 0),
                drawn_from(stack@, 0, 0, all),
                stack@.len() > 0 ==> stack@[0].0 == 0 && stack@.last().0 < j,
                stack@.len() == 0 ==> j == 0,
                t.len() == n + 1,
                t[n as int] == x,
                g == t[j as int],
                forall|i: int| j <= i < n ==> call_ensures(adj, (all[i], t[i + 1]), #[trigger] t[i]),
            decreases 2 * j + (if stack@.len() > 0 && stack@.last().0 + 1 != j { 1int } else { 0 }),
        {
            if stack.len() == 0 {
                assert(adjoint_trace_once(adj, all, x, t));
                assert(t[0] == g);
                return g;
            }
            let ghost before = stack@;
            let (i, s) = stack.pop().unwrap();
            assert(before.last() == (i, s));
            if i + 1 == j {
                assert(s == all[i as int]);
                let y = adjoint(s, g);
                proof {
                    t = t.update(i as int, y);
                    assert forall|a: int, b: int| 0 <= a < b < stack@.len() implies (
                    #[trigger] stack@[a]).0 < (#[trigger] stack@[b]).0 by {
                        assert(stack@[a] == before[a] && stack@[b] == before[b]);
                    }
                    assert forall|k: int| 0 <= k < stack@.len() implies {
                        &&& 0 <= (#[trigger] stack@[k]).0 < 0 + all.len()
                        &&& stack@[k].1 == all[stack@[k].0 - 0]
                    } by {
                        assert(stack@[k] == before[k]);
                    }
                    if stack@.len() > 0 {
                        assert(stack@.last() == before[before.len() - 2]);
                        assert(before[before.len() - 2].0 < before[before.len() - 1].0);
                    } else {
                        assert(i == before[0].0);
                    }
                }
                g = y;
                j = i;
            } else {
                proof {
                    assert(s == all[i as int]);
                    assert(call_requires(restore, (&all[i as int],)));
                }
                let first = restore(&s);
                stack.push((i, s));
                assert(stack@ == before);
                regenerate(&mut stack, first, i + 1, j, &mut restore, Ghost(all));
                proof {
                    let len0 = before.len() as int;
                    assert(stack@.subrange(0, len0) == before);
                    assert forall|a: int, b: int| 0 <= a < b < stack@.len() implies (
                    #[trigger] stack@[a]).0 < (#[trigger] stack@[b]).0 by {
                        if b < len0 {
                            assert(stack@[a] == before[a] && stack@[b] == before[b]);
                        } else if a < len0 {
                            assert(stack@[a] == before[a]);
                            assert(before[a].0 <= i) by {
                                if a < len0 - 1 {
                                    assert(before[a].0 < before[len0 - 1].0);
                                }
                            }
                            if b > len0 {
                                assert(stack@[len0].0 < stack@[b].0);
                            }
                        }
                    }
                    assert forall|k: int| 0 <= k < stack@.len() implies {
                        &&& 0 <= (#[trigger] stack@[k]).0 < 0 + all.len()
                        &&& stack@[k].1 == all[stack@[k].0 - 0]
                    } by {
                        if k < len0 {
                            assert(stack@[k] == before[k]);
                        }
                    }
                    assert(stack@[0] == before[0]);
                }
            }
        }
    }
}

} // verus!

verus! {

proof fn lemma_traces_agree_from<S, G, J: Fn(&S, G) -> G>(
    adjoint: J,
    ss: Seq<S>,
    x: G,
    t1: Seq<G>,
    t2: Seq<G>,
    k: int,
)
    requires
        adjoint_deterministic(adjoint),
        adjoint_trace(adjoint, ss, x, t1),
        adjoint_trace(adjoint, ss, x, t2),
        0 <= k <= ss.len(),
    ensures
        t1[k] == t2[k],
    decreases ss.len() - k,
{
    if k < ss.len() {
        lemma_traces_agree_from(adjoint, ss, x, t1, t2, k + 1);
        assert(call_ensures(adjoint, (&ss[k], t1[k + 1]), t1[k]));
        assert(call_ensures(adjoint, (&ss[k], t2[k + 1]), t2[k]));
    }
}

/// Two backward sweeps of one deterministic adjoint function over the same
/// snapshots, from the same adjoint value, end in the same value.  Both
/// `FullChain::sweep` and `CtzChain::sweep` promise `sweeps_to` over their
/// snapshots, so over the same snapshots they agree, and a sweep repeated
/// with the same inputs gives the same result.
pub proof fn lemma_sweeps_agree<S, G, J: Fn(&S, G) -> G>(adjoint: J, ss: Seq<S>, x: G, r1: G, r2: G)
    requires
        adjoint_deterministic(adjoint),
        sweeps_to(adjoint, ss, x, r1),
        sweeps_to(adjoint, ss, x, r2),
    ensures
        r1 == r2,
{
    let t1 = choose|t: Seq<G>| adjoint_trace(adjoint, ss, x, t) && t[0] == r1;
    let t2 = choose|t: Seq<G>| adjoint_trace(adjoint, ss, x, t) && t[0] == r2;
    lemma_traces_agree_from(adjoint, ss, x, t1, t2, 0);
}

/// `adjoint` gives one result for each pair of arguments.
pub open spec fn adjoint_once_deterministic<S, G, J: FnMut(S, G) -> G>(adjoint: J) -> bool {
    forall|s: S, g: G, r1: G, r2: G|
        #[trigger] call_ensures(adjoint, (s, g), r1) && #[trigger] call_ensures(adjoint, (s, g), r2)
            ==> r1 == r2
}

proof fn lemma_traces_once_agree_from<S, G, J: FnMut(S, G) -> G>(
    adjoint: J,
    ss: Seq<S>,
    x: G,
    t1: Seq<G>,
    t2: Seq<G>,
    k: int,
)
    requires
        adjoint_once_deterministic(adjoint),
        adjoint_trace_once(adjoint, ss, x, t1),
        adjoint_trace_once(adjoint, ss, x, t2),
        0 <= k <= ss.len(),
    ensures
        t1[k] == t2[k],
    decreases ss.len() - k,
{
    if k < ss.len() {
        lemma_traces_once_agree_from(adjoint, ss, x, t1, t2, k + 1);
        assert(call_ensures(adjoint, (ss[k], t1[k + 1]), t1[k]));
        assert(call_ensures(adjoint, (ss[k], t2[k + 1]), t2[k]));
    }
}

/// Two consuming sweeps of one deterministic adjoint function over the same
/// snapshots, from the same adjoint value, end in the same value: the
/// consuming sweeps of `FullChain` and `CtzChain` agree.
pub proof fn lemma_sweeps_once_agree<S, G, J: FnMut(S, G) -> G>(
    adjoint: J,
    ss: Seq<S>,
    x: G,
    r1: G,
    r2: G,
)
    requires
        adjoint_once_deterministic(adjoint),
        sweeps_once_to(adjoint, ss, x, r1),
        sweeps_once_to(adjoint, ss, x, r2),
    ensures
        r1 == r2,
{
    let t1 = choose|t: Seq<G>| adjoint_trace_once(adjoint, ss, x, t) && t[0] == r1;
    let t2 = choose|t: Seq<G>| adjoint_trace_once(adjoint, ss, x, t) && t[0] == r2;
    lemma_traces_once_agree_from(adjoint, ss, x, t1, t2, 0);
}

/// A sweep over no snapshots returns the adjoint value it was given.
pub proof fn lemma_empty_sweep<S, G, J: Fn(&S, G) -> G>(adjoint: J, ss: Seq<S>, x: G, r: G)
    requires
        ss.len() == 0,
        sweeps_to(adjoint, ss, x, r),
    ensures
        r == x,
{
}

/// A sweep that may change its snapshots, over no snapshots, returns the
/// adjoint value it was given.
pub proof fn lemma_empty_sweep_mut<S, G, J: FnMut(&mut S, G) -> G>(adjoint: J, ss: Seq<S>, x: G, r: G)
    requires
        ss.len() == 0,
        sweeps_mut_to(adjoint, ss, x, r),
    ensures
        r == x,
{
}

/// A consuming sweep over no snapshots returns the adjoint value it was
/// given.
pub proof fn lemma_empty_sweep_once<S, G, J: FnMut(S, G) -> G>(adjoint: J, ss: Seq<S>, x: G, r: G)
    requires
        ss.len() == 0,
        sweeps_once_to(adjoint, ss, x, r),
    ensures
        r == x,
{
}

} // verus!

verus! {

/// A `FullChain` and a `CtzChain` over the same snapshots, with the same
/// deterministic adjoint function, sweep to the same adjoint value: the
/// results that their `sweep`s promise coincide.
pub proof fn lemma_chains_agree<S, G, J: Fn(&S, G) -> G, R>(
    full: &FullChain<S, J>,
    sparse: &CtzChain<S, J, R>,
    x: G,
    r_full: G,
    r_sparse: G,
)
    requires
        full@ == sparse@,
        full.adjoint_fn() == sparse.adjoint_fn(),
        adjoint_deterministic(full.adjoint_fn()),
        sweeps_to(full.adjoint_fn(), full@, x, r_full),
        sweeps_to(sparse.adjoint_fn(), sparse@, x, r_sparse),
    ensures
        r_full == r_sparse,
{
    lemma_sweeps_agree(full.adjoint_fn(), full@, x, r_full, r_sparse);
}

} // verus!
