use vstd::prelude::*;

use crate::actor::ActorId;
use crate::ctx::AddCtx;
use crate::dot::Dot;
use crate::element::Element;
use crate::pairs::{keys_unique, lemma_pairs_map_dom, lemma_pairs_map_finite, lemma_pairs_map_index,
    lemma_pairs_map_push, lemma_pairs_map_take_succ, lemma_pairs_map_update, lemma_push_to_set,
    pairs_map};
use crate::traits::CmRDT;
use crate::vclock::vclock_contains;

verus! {

/// One member of an observed-remove set: the value, and the dots of the add
/// operations that introduced it.
#[derive(Debug)]
pub struct AddEntry<T: Element> {
    pub value: T,
    pub dots: Vec<Dot>,
}

/// An operation-based, observed-remove set with an add-wins bias.
///
/// Every addition is tagged with its dot. A removal retires only the add
/// dots its issuer had observed (those in the remover's clock), never ones
/// it could not have seen, so an add concurrent with a remove of the same
/// value survives. A value is present while at least one of its add dots is
/// not retired. Merge unions the add tags per value and unions the retired
/// dots; removed dots are never purged.
#[derive(Debug)]
pub struct ORSet<T: Element> {
    /// The members, each with the dots of its observed additions.
    pub adds: Vec<AddEntry<T>>,
    /// The retired add dots.
    pub removes: Vec<Dot>,
}

/// Operations: add a value, or remove every observed addition of it.
#[derive(Clone, Debug)]
pub enum Op<T> {
    Add(T),
    Remove(T),
}

/// The model of an observed-remove set: for each value the set of add dots
/// that introduced it, and the set of retired dots.
#[verifier::reject_recursive_types(K)]
pub struct ORSetView<K> {
    pub adds: Map<K, Set<Dot>>,
    pub removes: Set<Dot>,
}

/// The add dots a model records for a value, empty when the value was never
/// added.
pub open spec fn dots_at<K>(adds: Map<K, Set<Dot>>, k: K) -> Set<Dot> {
    if adds.dom().contains(k) {
        adds[k]
    } else {
        Set::empty()
    }
}

/// The per-value union of two models' add dots.
pub open spec fn or_adds_merged<K>(a: Map<K, Set<Dot>>, b: Map<K, Set<Dot>>) -> Map<K, Set<Dot>> {
    Map::new(
        |k: K| a.dom().contains(k) || b.dom().contains(k),
        |k: K| dots_at(a, k).union(dots_at(b, k)),
    )
}

/// The values a model presents: those with at least one add dot that was
/// never retired.
pub open spec fn live_values<K>(s: ORSetView<K>) -> Set<K> {
    Set::new(|k: K| s.adds.dom().contains(k) && !s.adds[k].subset_of(s.removes))
}

/// The dots among `dots` that the given causal knowledge has observed: the
/// only ones a remove issued under that knowledge may retire.
pub open spec fn observed(clock: Map<ActorId, u64>, dots: Set<Dot>) -> Set<Dot> {
    dots.filter(|d: Dot| vclock_contains(clock, d))
}

/// Nothing is observed of no dots.
pub proof fn lemma_observed_empty(clock: Map<ActorId, u64>)
    ensures
        observed(clock, Set::empty()) == Set::<Dot>::empty(),
{
    assert(observed(clock, Set::empty()) =~= Set::<Dot>::empty());
}

/// One more dot is observed exactly when the clock contains it.
pub proof fn lemma_observed_insert(clock: Map<ActorId, u64>, dots: Set<Dot>, d: Dot)
    ensures
        observed(clock, dots.insert(d)) == if vclock_contains(clock, d) {
            observed(clock, dots).insert(d)
        } else {
            observed(clock, dots)
        },
{
    if vclock_contains(clock, d) {
        assert(observed(clock, dots.insert(d)) =~= observed(clock, dots).insert(d));
    } else {
        assert(observed(clock, dots.insert(d)) =~= observed(clock, dots));
    }
}

/// The merged add dots of a value are the union of both sides' dots for it,
/// whether or not each side knows the value.
pub proof fn lemma_or_adds_merged_at<K>(a: Map<K, Set<Dot>>, b: Map<K, Set<Dot>>, k: K)
    ensures
        dots_at(or_adds_merged(a, b), k) == dots_at(a, k).union(dots_at(b, k)),
{
    if !a.dom().contains(k) && !b.dom().contains(k) {
        assert(dots_at(or_adds_merged(a, b), k) =~= dots_at(a, k).union(dots_at(b, k)));
    }
}

impl<T: Element> ORSet<T> {
    /// The members as key/dot-set pairs, for the abstract map.
    pub open spec fn pairs(self) -> Seq<(T::V, Set<Dot>)> {
        self.adds@.map_values(|e: AddEntry<T>| (e.value.deep_view(), e.dots@.to_set()))
    }

    /// An empty set: nothing added, nothing retired.
    pub fn new() -> (r: ORSet<T>)
        ensures
            r.wf(),
            r.state_view() == (ORSetView { adds: Map::<T::V, Set<Dot>>::empty(), removes: Set::<
                Dot,
            >::empty() }),
    {
        let r = ORSet { adds: Vec::new(), removes: Vec::new() };
        proof {
            assert(r.pairs() =~= Seq::<(T::V, Set<Dot>)>::empty());
            assert(r.removes@.to_set() =~= Set::<Dot>::empty());
        }
        r
    }

    /// Finds the member slot holding `v`'s abstract form, if one exists.
    fn find(&self, v: &T) -> (r: Option<usize>)
        ensures
            match r {
                Some(i) => 0 <= i < self.pairs().len() && self.pairs()[i as int].0 == v.deep_view()
                    && self.adds@[i as int].value.deep_view() == v.deep_view(),
                None => forall|j: int|
                    0 <= j < self.pairs().len() ==> (#[trigger] self.pairs()[j]).0 != v.deep_view(),
            },
    {
        let n = self.adds.len();
        let mut i: usize = 0;
        while i < n
            invariant
                0 <= i <= n,
                n == self.pairs().len(),
                forall|j: int| 0 <= j < i ==> (#[trigger] self.pairs()[j]).0 != v.deep_view(),
            decreases n - i,
        {
            if self.adds[i].value.eq_elem(v) {
                return Some(i);
            }
            i += 1;
        }
        None
    }

    /// Unions `dots` into the dot list of the member in slot `t`.
    fn union_dots_at(&mut self, t: usize, dots: &Vec<Dot>)
        requires
            keys_unique(old(self).pairs()),
            0 <= t < old(self).adds@.len(),
            forall|x: int|
                0 <= x < old(self).adds@.len()
                    ==> (#[trigger] old(self).adds@[x]).dots@.no_duplicates(),
        ensures
            keys_unique(final(self).pairs()),
            final(self).removes@ == old(self).removes@,
            forall|x: int|
                0 <= x < final(self).adds@.len()
                    ==> (#[trigger] final(self).adds@[x]).dots@.no_duplicates(),
            pairs_map(final(self).pairs()) == pairs_map(old(self).pairs()).insert(
                old(self).pairs()[t as int].0,
                old(self).pairs()[t as int].1.union(dots@.to_set()),
            ),
    {
        let ghost k = old(self).pairs()[t as int].0;
        let ghost olds = old(self).pairs()[t as int].1;
        let n = dots.len();
        let mut j: usize = 0;
        proof {
            lemma_pairs_map_index(self.pairs(), t as int);
            assert(dots@.take(0) =~= Seq::<Dot>::empty());
            assert(olds.union(dots@.take(0).to_set()) =~= olds);
            assert(pairs_map(self.pairs()).insert(k, olds) =~= pairs_map(self.pairs()));
        }
        while j < n
            invariant
                0 <= j <= n,
                n == dots@.len(),
                0 <= t < self.adds@.len(),
                self.adds@.len() == old(self).adds@.len(),
                self.removes@ == old(self).removes@,
                forall|x: int|
                    x != t && 0 <= x < self.adds@.len() ==> self.adds@[x] == old(self).adds@[x],
                self.adds@[t as int].value == old(self).adds@[t as int].value,
                keys_unique(self.pairs()),
                forall|x: int|
                    0 <= x < self.adds@.len() ==> (#[trigger] self.adds@[x]).dots@.no_duplicates(),
                self.pairs()[t as int].0 == k,
                self.adds@[t as int].dots@.to_set() == olds.union(dots@.take(j as int).to_set()),
                pairs_map(self.pairs()) == pairs_map(old(self).pairs()).insert(
                    k,
                    olds.union(dots@.take(j as int).to_set()),
                ),
            decreases n - j,
        {
            let d = dots[j];
            proof {
                assert(dots@.take(j + 1) =~= dots@.take(j as int).push(d));
                lemma_push_to_set(dots@.take(j as int), d);
            }
            let had = dot_vec_contains(&self.adds[t].dots, d);
            if had {
                proof {
                    assert(olds.union(dots@.take(j + 1).to_set()) =~= olds.union(
                        dots@.take(j as int).to_set(),
                    ));
                }
            } else {
                let ghost curdots = self.adds@[t as int].dots@;
                let ghost curp = self.pairs();
                proof {
                    lemma_push_to_set(curdots, d);
                    lemma_pairs_map_update(curp, t as int, (k, curdots.to_set().insert(d)));
                }
                self.adds[t].dots.push(d);
                proof {
                    assert(self.pairs() =~= curp.update(
                        t as int,
                        (k, curdots.to_set().insert(d)),
                    ));
                    assert(curdots.to_set().insert(d) =~= olds.union(dots@.take(j + 1).to_set()));
                    assert(pairs_map(old(self).pairs()).insert(
                        k,
                        olds.union(dots@.take(j as int).to_set()),
                    ).insert(k, olds.union(dots@.take(j + 1).to_set())) =~= pairs_map(
                        old(self).pairs(),
                    ).insert(k, olds.union(dots@.take(j + 1).to_set())));
                    assert forall|x: int, y: int|
                        0 <= x < self.adds@[t as int].dots@.len() && 0 <= y
                            < self.adds@[t as int].dots@.len() && x
                            != y implies self.adds@[t as int].dots@[x]
                        != self.adds@[t as int].dots@[y] by {
                        if y == curdots.len() {
                            assert(curdots.contains(curdots[x]));
                        } else if x == curdots.len() {
                            assert(curdots.contains(curdots[y]));
                        }
                    }
                }
            }
            j += 1;
        }
        proof {
            assert(dots@.take(n as int) =~= dots@);
        }
    }

    /// Whether the member in slot `i` has at least one add dot that was
    /// never retired.
    fn has_live_dot(&self, i: usize) -> (r: bool)
        requires
            0 <= i < self.adds@.len(),
        ensures
            r == !self.pairs()[i as int].1.subset_of(self.removes@.to_set()),
    {
        let ghost ds = self.adds@[i as int].dots@;
        let n = self.adds[i].dots.len();
        let mut j: usize = 0;
        while j < n
            invariant
                0 <= j <= n,
                0 <= i < self.adds@.len(),
                ds == self.adds@[i as int].dots@,
                n == ds.len(),
                forall|x: int| 0 <= x < j ==> self.removes@.contains(#[trigger] ds[x]),
            decreases n - j,
        {
            let d = self.adds[i].dots[j];
            if !dot_vec_contains(&self.removes, d) {
                proof {
                    assert(ds.to_set().contains(d));
                    assert(!self.removes@.to_set().contains(d));
                }
                return true;
            }
            j += 1;
        }
        proof {
            assert forall|x: Dot| ds.to_set().contains(x) implies self.removes@.to_set().contains(
                x,
            ) by {
                let idx = choose|idx: int| 0 <= idx < ds.len() && ds[idx] == x;
                assert(self.removes@.contains(ds[idx]));
            }
        }
        false
    }

    /// Retires `d` if it is not retired yet.
    fn retire(&mut self, d: Dot)
        requires
            old(self).removes@.no_duplicates(),
        ensures
            final(self).adds@ == old(self).adds@,
            final(self).removes@.no_duplicates(),
            final(self).removes@.to_set() == old(self).removes@.to_set().insert(d),
    {
        let had = dot_vec_contains(&self.removes, d);
        proof {
            lemma_push_to_set(self.removes@, d);
        }
        if !had {
            let ghost pre = self.removes@;
            self.removes.push(d);
            proof {
                assert forall|x: int, y: int|
                    0 <= x < self.removes@.len() && 0 <= y < self.removes@.len() && x
                        != y implies self.removes@[x] != self.removes@[y] by {
                    if y == pre.len() {
                        assert(pre.contains(pre[x]));
                    } else if x == pre.len() {
                        assert(pre.contains(pre[y]));
                    }
                }
            }
        } else {
            proof {
                assert(self.removes@.to_set().insert(d) =~= self.removes@.to_set());
            }
        }
    }
}

/// Whether a dot vector holds the given dot.
fn dot_vec_contains(dots: &Vec<Dot>, d: Dot) -> (r: bool)
    ensures
        r == dots@.contains(d),
{
    let n = dots.len();
    let mut i: usize = 0;
    while i < n
        invariant
            0 <= i <= n,
            n == dots@.len(),
            forall|j: int| 0 <= j < i ==> dots@[j] != d,
        decreases n - i,
    {
        if dots[i] == d {
            return true;
        }
        i += 1;
    }
    false
}

impl<T: Element> CmRDT for ORSet<T> {
    type Op = Op<T>;

    type Value = Vec<T>;

    type StateView = ORSetView<T::V>;

    /// The model: the per-value add dots and the retired dots.
    open spec fn state_view(self) -> ORSetView<T::V> {
        ORSetView { adds: pairs_map(self.pairs()), removes: self.removes@.to_set() }
    }

    /// Each value has one member slot; dot lists hold no duplicates.
    open spec fn wf(self) -> bool {
        &&& keys_unique(self.pairs())
        &&& self.removes@.no_duplicates()
        &&& forall|i: int|
            0 <= i < self.adds@.len() ==> (#[trigger] self.adds@[i]).dots@.no_duplicates()
    }

    /// A model is finite everywhere.
    open spec fn view_wf(s: ORSetView<T::V>) -> bool {
        &&& s.adds.dom().finite()
        &&& forall|k: T::V| s.adds.dom().contains(k) ==> (#[trigger] s.adds[k]).finite()
        &&& s.removes.finite()
    }

    /// All bookkeeping is unioned on merge: any two states are compatible.
    open spec fn compat(a: ORSetView<T::V>, b: ORSetView<T::V>) -> bool {
        true
    }

    /// Adding and removing never fail.
    open spec fn can_apply(self, op: &Op<T>) -> bool {
        true
    }

    /// Merging never fails.
    open spec fn can_merge(self, other: &Self) -> bool {
        true
    }

    /// An add tags the value with the operation's dot. A remove retires
    /// those of the value's add dots that the remover had observed — the
    /// dots in the operation's clock — and no others, which is what makes
    /// a concurrent add win.
    open spec fn applied(
        s: ORSetView<T::V>,
        op: &Op<T>,
        dot: Dot,
        clock: Map<ActorId, u64>,
    ) -> ORSetView<T::V> {
        match op {
            Op::Add(v) => ORSetView {
                adds: s.adds.insert(v.deep_view(), dots_at(s.adds, v.deep_view()).insert(dot)),
                removes: s.removes,
            },
            Op::Remove(v) => ORSetView {
                adds: s.adds,
                removes: s.removes.union(observed(clock, dots_at(s.adds, v.deep_view()))),
            },
        }
    }

    /// Merging unions the add dots per value and unions the retired dots.
    open spec fn merged(a: ORSetView<T::V>, b: ORSetView<T::V>) -> ORSetView<T::V> {
        ORSetView { adds: or_adds_merged(a.adds, b.adds), removes: a.removes.union(b.removes) }
    }

    /// Reading yields each live value exactly once: those with at least one
    /// add dot that was never retired.
    open spec fn read_agrees(s: ORSetView<T::V>, v: &Vec<T>) -> bool {
        v.deep_view().to_set() == live_values(s) && v.deep_view().no_duplicates()
    }

    fn apply(&mut self, op: &Op<T>, ctx: &AddCtx) {
        match op {
            Op::Add(v) => {
                let slot = self.find(v);
                match slot {
                    Some(i) => {
                        let had = dot_vec_contains(&self.adds[i].dots, ctx.dot);
                        let ghost k = v.deep_view();
                        let ghost olddots = self.adds@[i as int].dots@;
                        proof {
                            lemma_pairs_map_index(self.pairs(), i as int);
                        }
                        if had {
                            proof {
                                let s = self.state_view();
                                assert(dots_at(s.adds, k).insert(ctx.dot) =~= s.adds[k]);
                                assert(s.adds.insert(k, s.adds[k]) =~= s.adds);
                            }
                        } else {
                            proof {
                                lemma_push_to_set(olddots, ctx.dot);
                                lemma_pairs_map_update(
                                    self.pairs(),
                                    i as int,
                                    (k, olddots.to_set().insert(ctx.dot)),
                                );
                            }
                            self.adds[i].dots.push(ctx.dot);
                            proof {
                                assert(self.pairs() =~= old(self).pairs().update(
                                    i as int,
                                    (k, olddots.to_set().insert(ctx.dot)),
                                ));
                                assert forall|x: int, y: int|
                                    0 <= x < self.adds@[i as int].dots@.len() && 0 <= y
                                        < self.adds@[i as int].dots@.len() && x
                                        != y implies self.adds@[i as int].dots@[x]
                                    != self.adds@[i as int].dots@[y] by {
                                    if y == olddots.len() {
                                        assert(olddots.contains(olddots[x]));
                                    } else if x == olddots.len() {
                                        assert(olddots.contains(olddots[y]));
                                    }
                                }
                            }
                        }
                    },
                    None => {
                        let ghost k = v.deep_view();
                        proof {
                            lemma_pairs_map_dom(self.pairs(), k);
                            lemma_pairs_map_push(self.pairs(), (k, seq![ctx.dot].to_set()));
                        }
                        let mut dots: Vec<Dot> = Vec::new();
                        dots.push(ctx.dot);
                        let entry = AddEntry { value: v.clone_elem(), dots };
                        self.adds.push(entry);
                        proof {
                            assert(seq![ctx.dot] =~= Seq::<Dot>::empty().push(ctx.dot));
                            lemma_push_to_set(Seq::<Dot>::empty(), ctx.dot);
                            assert(Seq::<Dot>::empty().to_set() =~= Set::<Dot>::empty());
                            assert(dots_at(old(self).state_view().adds, k).insert(ctx.dot)
                                =~= seq![ctx.dot].to_set());
                            assert(self.pairs() =~= old(self).pairs().push(
                                (k, seq![ctx.dot].to_set()),
                            ));
                        }
                    },
                }
            },
            Op::Remove(v) => {
                let slot = self.find(v);
                let ghost k = v.deep_view();
                let ghost s0 = self.state_view();
                match slot {
                    Some(i) => {
                        proof {
                            lemma_pairs_map_index(self.pairs(), i as int);
                        }
                        let ghost dotseq = self.adds@[i as int].dots@;
                        let n = self.adds[i].dots.len();
                        let mut j: usize = 0;
                        proof {
                            assert(dotseq.take(0) =~= Seq::<Dot>::empty());
                            lemma_observed_empty(ctx.clock@);
                            assert(dotseq.take(0).to_set() =~= Set::<Dot>::empty());
                            assert(s0.removes.union(Set::<Dot>::empty()) =~= s0.removes);
                        }
                        while j < n
                            invariant
                                0 <= j <= n,
                                self.adds@ == old(self).adds@,
                                n == dotseq.len(),
                                dotseq == self.adds@[i as int].dots@,
                                0 <= i < self.adds@.len(),
                                ctx.clock.wf(),
                                self.removes@.no_duplicates(),
                                self.removes@.to_set() == s0.removes.union(
                                    observed(ctx.clock@, dotseq.take(j as int).to_set()),
                                ),
                            decreases n - j,
                        {
                            let d = self.adds[i].dots[j];
                            proof {
                                assert(dotseq.take(j + 1) =~= dotseq.take(j as int).push(d));
                                lemma_push_to_set(dotseq.take(j as int), d);
                                lemma_observed_insert(
                                    ctx.clock@,
                                    dotseq.take(j as int).to_set(),
                                    d,
                                );
                            }
                            if ctx.clock.contains(&d) {
                                proof {
                                    assert(s0.removes.union(
                                        observed(ctx.clock@, dotseq.take(j as int).to_set()),
                                    ).insert(d) =~= s0.removes.union(
                                        observed(ctx.clock@, dotseq.take(j as int).to_set()).insert(
                                            d,
                                        ),
                                    ));
                                }
                                self.retire(d);
                            }
                            j += 1;
                        }
                        proof {
                            assert(dotseq.take(n as int) =~= dotseq);
                            assert(dots_at(s0.adds, k) == dotseq.to_set());
                        }
                    },
                    None => {
                        proof {
                            lemma_pairs_map_dom(self.pairs(), k);
                            assert(dots_at(s0.adds, k) =~= Set::<Dot>::empty());
                            lemma_observed_empty(ctx.clock@);
                            assert(s0.removes.union(Set::<Dot>::empty()) =~= s0.removes);
                        }
                    },
                }
            },
        }
    }

    fn merge(&mut self, other: Self) {
        let ghost a0 = self.state_view();
        let ghost op = other.pairs();
        let n = other.adds.len();
        let mut i: usize = 0;
        proof {
            assert(op.take(0) =~= Seq::<(T::V, Set<Dot>)>::empty());
            assert(or_adds_merged(a0.adds, pairs_map(op.take(0))) =~~= a0.adds);
        }
        while i < n
            invariant
                other.wf(),
                0 <= i <= n,
                n == op.len(),
                op == other.pairs(),
                keys_unique(self.pairs()),
                self.removes@ == old(self).removes@,
                forall|x: int|
                    0 <= x < self.adds@.len() ==> (#[trigger] self.adds@[x]).dots@.no_duplicates(),
                pairs_map(self.pairs()) == or_adds_merged(a0.adds, pairs_map(op.take(i as int))),
            decreases n - i,
        {
            let ghost bpre = pairs_map(op.take(i as int));
            let ghost k = op[i as int].0;
            let ghost ds = op[i as int].1;
            proof {
                lemma_pairs_map_take_succ(op, i as int);
                assert(!bpre.dom().contains(k)) by {
                    lemma_pairs_map_dom(op.take(i as int), k);
                }
                assert(or_adds_merged(a0.adds, bpre.insert(k, ds)) =~~= or_adds_merged(
                    a0.adds,
                    bpre,
                ).insert(k, dots_at(or_adds_merged(a0.adds, bpre), k).union(ds)));
                assert(other.adds@[i as int].value.deep_view() == k);
                assert(other.adds@[i as int].dots@.to_set() == ds);
            }
            let slot = self.find(&other.adds[i].value);
            match slot {
                Some(t) => {
                    proof {
                        lemma_pairs_map_index(self.pairs(), t as int);
                        assert(dots_at(pairs_map(self.pairs()), k) == self.pairs()[t as int].1);
                    }
                    self.union_dots_at(t, &other.adds[i].dots);
                },
                None => {
                    proof {
                        lemma_pairs_map_dom(self.pairs(), k);
                        assert(!or_adds_merged(a0.adds, bpre).dom().contains(k));
                        assert(dots_at(or_adds_merged(a0.adds, bpre), k) =~= Set::<Dot>::empty());
                        assert(Set::<Dot>::empty().union(ds) =~= ds);
                        lemma_pairs_map_push(self.pairs(), (k, ds));
                    }
                    let ghost cur = self.pairs();
                    let entry = clone_entry(&other.adds[i]);
                    self.adds.push(entry);
                    proof {
                        assert(self.pairs() =~= cur.push((k, ds)));
                        assert forall|x: int, y: int|
                            0 <= x < y < self.pairs().len() implies (#[trigger] self.pairs()[x]).0
                            != (#[trigger] self.pairs()[y]).0 by {
                            if y == cur.len() {
                                assert(cur[x].0 != k);
                            }
                        }
                    }
                },
            }
            i += 1;
        }
        proof {
            assert(op.take(n as int) =~= op);
        }
        // retired dots: union the other side's in
        let ghost mid_adds = self.adds@;
        let m = other.removes.len();
        let mut j: usize = 0;
        proof {
            assert(other.removes@.take(0) =~= Seq::<Dot>::empty());
            assert(self.removes@.to_set().union(other.removes@.take(0).to_set())
                =~= self.removes@.to_set());
        }
        while j < m
            invariant
                0 <= j <= m,
                m == other.removes@.len(),
                self.adds@ == mid_adds,
                keys_unique(self.pairs()),
                forall|x: int|
                    0 <= x < self.adds@.len() ==> (#[trigger] self.adds@[x]).dots@.no_duplicates(),
                pairs_map(self.pairs()) == or_adds_merged(a0.adds, pairs_map(op)),
                self.removes@.no_duplicates(),
                self.removes@.to_set() == old(self).removes@.to_set().union(
                    other.removes@.take(j as int).to_set(),
                ),
            decreases m - j,
        {
            let d = other.removes[j];
            proof {
                assert(other.removes@.take(j + 1) =~= other.removes@.take(j as int).push(d));
                lemma_push_to_set(other.removes@.take(j as int), d);
                assert(old(self).removes@.to_set().union(other.removes@.take(j + 1).to_set())
                    =~= old(self).removes@.to_set().union(
                    other.removes@.take(j as int).to_set(),
                ).insert(d));
            }
            self.retire(d);
            j += 1;
        }
        proof {
            assert(other.removes@.take(m as int) =~= other.removes@);
        }
    }

    fn read(&self) -> (r: Vec<T>) {
        let ghost p = self.pairs();
        let ghost rem = self.removes@.to_set();
        let n = self.adds.len();
        let mut out: Vec<T> = Vec::new();
        let mut i: usize = 0;
        proof {
            assert(out.deep_view() =~= Seq::<T::V>::empty());
        }
        while i < n
            invariant
                self.wf(),
                p == self.pairs(),
                rem == self.removes@.to_set(),
                0 <= i <= n,
                n == p.len(),
                out.deep_view().no_duplicates(),
                forall|k: T::V| #[trigger]
                    out.deep_view().to_set().contains(k) <==> exists|idx: int|
                        0 <= idx < i && (#[trigger] p[idx]).0 == k && !p[idx].1.subset_of(rem),
            decreases n - i,
        {
            let live = self.has_live_dot(i);
            let ghost pre = out.deep_view();
            let ghost k = p[i as int].0;
            if live {
                out.push(self.adds[i].value.clone_elem());
                proof {
                    assert(out.deep_view() =~= pre.push(k));
                    lemma_push_to_set(pre, k);
                    // the value is new: earlier slots carry other keys
                    assert(!pre.to_set().contains(k)) by {
                        if exists|idx: int|
                            0 <= idx < i && (#[trigger] p[idx]).0 == k && !p[idx].1.subset_of(
                                rem,
                            ) {
                            let idx = choose|idx: int|
                                0 <= idx < i && (#[trigger] p[idx]).0 == k && !p[idx].1.subset_of(
                                    rem,
                                );
                            assert(false);
                        }
                    }
                    assert forall|x: int, y: int|
                        0 <= x < out.deep_view().len() && 0 <= y < out.deep_view().len() && x
                            != y implies out.deep_view()[x] != out.deep_view()[y] by {
                        if y == pre.len() {
                            assert(pre.contains(pre[x]));
                        } else if x == pre.len() {
                            assert(pre.contains(pre[y]));
                        }
                    }
                    assert forall|q: T::V| #[trigger]
                        out.deep_view().to_set().contains(q) implies exists|idx: int|
                        0 <= idx < i + 1 && (#[trigger] p[idx]).0 == q && !p[idx].1.subset_of(
                            rem,
                        ) by {
                        if q == k {
                            assert(p[i as int].0 == q && !p[i as int].1.subset_of(rem));
                        }
                    }
                }
            } else {
                proof {
                    assert forall|q: T::V| #[trigger]
                        out.deep_view().to_set().contains(q) <==> exists|idx: int|
                            0 <= idx < i + 1 && (#[trigger] p[idx]).0 == q && !p[idx].1.subset_of(
                                rem,
                            ) by {
                        if exists|idx: int|
                            0 <= idx < i + 1 && (#[trigger] p[idx]).0 == q && !p[idx].1.subset_of(
                                rem,
                            ) {
                            let idx = choose|idx: int|
                                0 <= idx < i + 1 && (#[trigger] p[idx]).0 == q
                                    && !p[idx].1.subset_of(rem);
                            assert(idx < i);
                        }
                    }
                }
            }
            i += 1;
        }
        proof {
            assert forall|q: T::V| #[trigger]
                out.deep_view().to_set().contains(q) <==> live_values(
                self.state_view(),
            ).contains(q) by {
                if out.deep_view().to_set().contains(q) {
                    let idx = choose|idx: int|
                        0 <= idx < n && (#[trigger] p[idx]).0 == q && !p[idx].1.subset_of(rem);
                    lemma_pairs_map_index(p, idx);
                }
                if live_values(self.state_view()).contains(q) {
                    lemma_pairs_map_dom(p, q);
                    let idx = choose|idx: int| 0 <= idx < p.len() && (#[trigger] p[idx]).0 == q;
                    lemma_pairs_map_index(p, idx);
                }
            }
            assert(out.deep_view().to_set() =~= live_values(self.state_view()));
        }
        out
    }

    proof fn lemma_wf_view(self) {
        lemma_pairs_map_finite(self.pairs());
        assert forall|k: T::V|
            pairs_map(self.pairs()).dom().contains(k) implies (#[trigger] pairs_map(
            self.pairs(),
        )[k]).finite() by {
            lemma_pairs_map_dom(self.pairs(), k);
            let idx = choose|idx: int|
                0 <= idx < self.pairs().len() && (#[trigger] self.pairs()[idx]).0 == k;
            lemma_pairs_map_index(self.pairs(), idx);
        }
    }

    proof fn lemma_merged_view_wf(a: ORSetView<T::V>, b: ORSetView<T::V>) {
        assert(or_adds_merged(a.adds, b.adds).dom() =~= a.adds.dom().union(b.adds.dom()));
        assert forall|k: T::V|
            or_adds_merged(a.adds, b.adds).dom().contains(k) implies (#[trigger] or_adds_merged(
            a.adds,
            b.adds,
        )[k]).finite() by {
            assert(dots_at(a.adds, k).finite());
            assert(dots_at(b.adds, k).finite());
        }
    }

    proof fn lemma_compat_symmetric(a: ORSetView<T::V>, b: ORSetView<T::V>) {
    }

    proof fn lemma_compat_merge(a: ORSetView<T::V>, b: ORSetView<T::V>, c: ORSetView<T::V>) {
    }

    proof fn lemma_merge_commutes(a: ORSetView<T::V>, b: ORSetView<T::V>) {
        assert(or_adds_merged(a.adds, b.adds) =~~= or_adds_merged(b.adds, a.adds)) by {
            assert forall|k: T::V|
                or_adds_merged(a.adds, b.adds).dom().contains(k) implies #[trigger] or_adds_merged(
                a.adds,
                b.adds,
            )[k] =~= or_adds_merged(b.adds, a.adds)[k] by {
            }
        }
        assert(a.removes.union(b.removes) =~= b.removes.union(a.removes));
    }

    proof fn lemma_merge_associates(a: ORSetView<T::V>, b: ORSetView<T::V>, c: ORSetView<T::V>) {
        let ab = or_adds_merged(a.adds, b.adds);
        let bc = or_adds_merged(b.adds, c.adds);
        assert(or_adds_merged(ab, c.adds) =~~= or_adds_merged(a.adds, bc)) by {
            assert forall|k: T::V|
                or_adds_merged(ab, c.adds).dom().contains(k) implies #[trigger] or_adds_merged(
                ab,
                c.adds,
            )[k] =~= or_adds_merged(a.adds, bc)[k] by {
                lemma_or_adds_merged_at(a.adds, b.adds, k);
                lemma_or_adds_merged_at(b.adds, c.adds, k);
            }
        }
        assert(a.removes.union(b.removes).union(c.removes) =~= a.removes.union(
            b.removes.union(c.removes),
        ));
    }

    proof fn lemma_merge_idempotent(a: ORSetView<T::V>) {
        assert(or_adds_merged(a.adds, a.adds) =~~= a.adds) by {
            assert forall|k: T::V|
                or_adds_merged(a.adds, a.adds).dom().contains(k) implies #[trigger] or_adds_merged(
                a.adds,
                a.adds,
            )[k] =~= a.adds[k] by {
            }
        }
        assert(a.removes.union(a.removes) =~= a.removes);
    }
}

impl<T: Element> Clone for ORSet<T> {
    /// Copies the set member for member; the copy has the same model.
    fn clone(&self) -> (r: Self)
        ensures
            r.state_view() == self.state_view(),
            r.wf() == self.wf(),
    {
        let n = self.adds.len();
        let mut adds: Vec<AddEntry<T>> = Vec::new();
        let mut i: usize = 0;
        while i < n
            invariant
                0 <= i <= n,
                n == self.adds@.len(),
                adds@.len() == i,
                forall|x: int|
                    0 <= x < i ==> (#[trigger] adds@[x]).value.deep_view()
                        == self.adds@[x].value.deep_view(),
                forall|x: int| 0 <= x < i ==> (#[trigger] adds@[x]).dots@ == self.adds@[x].dots@,
            decreases n - i,
        {
            let entry = clone_entry(&self.adds[i]);
            adds.push(entry);
            i += 1;
        }
        let m = self.removes.len();
        let mut removes: Vec<Dot> = Vec::new();
        let mut j: usize = 0;
        while j < m
            invariant
                0 <= j <= m,
                m == self.removes@.len(),
                removes@ == self.removes@.take(j as int),
            decreases m - j,
        {
            removes.push(self.removes[j]);
            proof {
                assert(self.removes@.take(j + 1) =~= self.removes@.take(j as int).push(
                    self.removes@[j as int],
                ));
            }
            j += 1;
        }
        proof {
            assert(self.removes@.take(m as int) =~= self.removes@);
        }
        let r = ORSet { adds, removes };
        proof {
            assert(r.pairs() =~= self.pairs());
            assert(r.wf() == self.wf()) by {
                if self.wf() {
                    assert forall|x: int|
                        0 <= x < r.adds@.len() implies (#[trigger] r.adds@[x]).dots@.no_duplicates() by {
                        assert(r.adds@[x].dots@ == self.adds@[x].dots@);
                        assert(self.adds@[x].dots@.no_duplicates());
                    }
                }
                if r.wf() {
                    assert forall|x: int|
                        0 <= x < self.adds@.len() implies (
                        #[trigger] self.adds@[x]).dots@.no_duplicates() by {
                        assert(r.adds@[x].dots@ == self.adds@[x].dots@);
                        assert(r.adds@[x].dots@.no_duplicates());
                    }
                }
            }
        }
        r
    }
}

impl<T: Element> Default for ORSet<T> {
    /// The default set is empty.
    fn default() -> (r: Self)
        ensures
            r.wf(),
            r.state_view() == (ORSetView { adds: Map::<T::V, Set<Dot>>::empty(), removes: Set::<
                Dot,
            >::empty() }),
    {
        ORSet::new()
    }
}

/// Copies one member entry; the copy has the same key and the same dots.
fn clone_entry<T: Element>(e: &AddEntry<T>) -> (r: AddEntry<T>)
    ensures
        r.value.deep_view() == e.value.deep_view(),
        r.dots@ == e.dots@,
{
    let n = e.dots.len();
    let mut dots: Vec<Dot> = Vec::new();
    let mut i: usize = 0;
    while i < n
        invariant
            0 <= i <= n,
            n == e.dots@.len(),
            dots@ == e.dots@.take(i as int),
        decreases n - i,
    {
        dots.push(e.dots[i]);
        proof {
            assert(e.dots@.take(i + 1) =~= e.dots@.take(i as int).push(e.dots@[i as int]));
        }
        i += 1;
    }
    proof {
        assert(e.dots@.take(n as int) =~= e.dots@);
    }
    AddEntry { value: e.value.clone_elem(), dots }
}

} // verus!
