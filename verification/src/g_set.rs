use vstd::prelude::*;

use crate::actor::ActorId;
use crate::ctx::AddCtx;
use crate::dot::Dot;
use crate::element::Element;
use crate::traits::CmRDT;

verus! {

/// An operation-based grow-only set.
///
/// Values can only be added; adding the same value twice is absorbed, so the
/// state is just the distinct values. Merge is set union and reading hands
/// the values out. No remove operation exists by design.
#[derive(Debug)]
pub struct GSet<T: Element> {
    pub values: Vec<T>,
}

/// The only operation a grow-only set accepts: add a value.
#[derive(Clone, Debug)]
pub enum Op<T> {
    Add(T),
}

impl<T: Element> GSet<T> {
    /// An empty set.
    pub fn new() -> (r: GSet<T>)
        ensures
            r.wf(),
            r.state_view() == Set::<T::V>::empty(),
    {
        let r = GSet { values: Vec::new() };
        proof {
            assert(r.values.deep_view() =~= Seq::<T::V>::empty());
            assert(r.state_view() =~= Set::<T::V>::empty());
        }
        r
    }

    /// Whether a value with `v`'s abstract form is already present.
    fn contains_elem(&self, v: &T) -> (r: bool)
        ensures
            r == self.state_view().contains(v.deep_view()),
    {
        let n = self.values.len();
        let mut i: usize = 0;
        while i < n
            invariant
                0 <= i <= n,
                n == self.values.deep_view().len(),
                forall|j: int| 0 <= j < i ==> self.values.deep_view()[j] != v.deep_view(),
            decreases n - i,
        {
            if self.values[i].eq_elem(v) {
                proof {
                    assert(self.values.deep_view()[i as int] == v.deep_view());
                    assert(self.values.deep_view().contains(v.deep_view()));
                }
                return true;
            }
            i += 1;
        }
        proof {
            assert(!self.values.deep_view().contains(v.deep_view()));
        }
        false
    }
}

impl<T: Element> CmRDT for GSet<T> {
    type Op = Op<T>;

    type Value = Vec<T>;

    type StateView = Set<T::V>;

    /// The model: the set of abstract forms of the stored values.
    open spec fn state_view(self) -> Set<T::V> {
        self.values.deep_view().to_set()
    }

    /// Each value is stored at most once.
    open spec fn wf(self) -> bool {
        self.values.deep_view().no_duplicates()
    }

    /// A model is a finite set.
    open spec fn view_wf(s: Set<T::V>) -> bool {
        s.finite()
    }

    /// Grow-only sets carry no per-event bookkeeping: any two states are
    /// compatible.
    open spec fn compat(a: Set<T::V>, b: Set<T::V>) -> bool {
        true
    }

    /// Adding never fails.
    open spec fn can_apply(self, op: &Op<T>) -> bool {
        true
    }

    /// Merging never fails.
    open spec fn can_merge(self, other: &Self) -> bool {
        true
    }

    /// Adding a value inserts its abstract form; the causal context plays no
    /// role for a grow-only set.
    open spec fn applied(s: Set<T::V>, op: &Op<T>, dot: Dot, clock: Map<ActorId, u64>) -> Set<
        T::V,
    > {
        match op {
            Op::Add(v) => s.insert(v.deep_view()),
        }
    }

    /// Merging takes the union.
    open spec fn merged(a: Set<T::V>, b: Set<T::V>) -> Set<T::V> {
        a.union(b)
    }

    /// Reading yields every stored value exactly once.
    open spec fn read_agrees(s: Set<T::V>, v: &Vec<T>) -> bool {
        v.deep_view().to_set() == s && v.deep_view().no_duplicates()
    }

    fn apply(&mut self, op: &Op<T>, ctx: &AddCtx) {
        match op {
            Op::Add(v) => {
                let had = self.contains_elem(v);
                if had {
                    proof {
                        assert(self.state_view().insert(v.deep_view()) =~= self.state_view());
                    }
                } else {
                    let ghost pre = self.values.deep_view();
                    let copy = v.clone_elem();
                    self.values.push(copy);
                    proof {
                        assert(self.values.deep_view() =~= pre.push(v.deep_view()));
                        crate::pairs::lemma_push_to_set(pre, v.deep_view());
                        assert forall|x: int, y: int|
                            0 <= x < self.values.deep_view().len() && 0 <= y
                                < self.values.deep_view().len() && x != y implies self.values.deep_view()[x]
                            != self.values.deep_view()[y] by {
                            if y == pre.len() {
                                assert(pre.contains(pre[x]));
                            } else if x == pre.len() {
                                assert(pre.contains(pre[y]));
                            }
                        }
                    }
                }
            },
        }
    }

    fn merge(&mut self, other: Self) {
        let n = other.values.len();
        let mut i: usize = 0;
        proof {
            assert(other.values.deep_view().take(0) =~= Seq::<T::V>::empty());
            assert(self.state_view().union(other.values.deep_view().take(0).to_set())
                =~= self.state_view());
        }
        while i < n
            invariant
                self.wf(),
                other.wf(),
                0 <= i <= n,
                n == other.values.deep_view().len(),
                self.state_view() == old(self).state_view().union(
                    other.values.deep_view().take(i as int).to_set(),
                ),
            decreases n - i,
        {
            let ghost odv = other.values.deep_view();
            let ghost dv = other.values@[i as int].deep_view();
            proof {
                assert(odv.take(i + 1) =~= odv.take(i as int).push(odv[i as int]));
                crate::pairs::lemma_push_to_set(odv.take(i as int), odv[i as int]);
                assert(odv[i as int] == dv);
            }
            let had = self.contains_elem(&other.values[i]);
            if had {
                proof {
                    assert(old(self).state_view().union(odv.take(i + 1).to_set())
                        =~= self.state_view());
                }
            } else {
                let ghost pre = self.values.deep_view();
                let copy = other.values[i].clone_elem();
                self.values.push(copy);
                proof {
                    assert(self.values.deep_view() =~= pre.push(dv));
                    crate::pairs::lemma_push_to_set(pre, dv);
                    assert(old(self).state_view().union(odv.take(i + 1).to_set())
                        =~= pre.to_set().insert(dv));
                    assert forall|x: int, y: int|
                        0 <= x < self.values.deep_view().len() && 0 <= y
                            < self.values.deep_view().len() && x != y implies self.values.deep_view()[x]
                        != self.values.deep_view()[y] by {
                        if y == pre.len() {
                            assert(pre.contains(pre[x]));
                        } else if x == pre.len() {
                            assert(pre.contains(pre[y]));
                        }
                    }
                }
            }
            i += 1;
        }
        proof {
            assert(other.values.deep_view().take(n as int) =~= other.values.deep_view());
        }
    }

    fn read(&self) -> (r: Vec<T>) {
        let n = self.values.len();
        let mut out: Vec<T> = Vec::new();
        let mut i: usize = 0;
        proof {
            assert(out.deep_view() =~= self.values.deep_view().take(0));
        }
        while i < n
            invariant
                0 <= i <= n,
                n == self.values@.len(),
                out.deep_view() == self.values.deep_view().take(i as int),
            decreases n - i,
        {
            let ghost pre = out.deep_view();
            out.push(self.values[i].clone_elem());
            proof {
                assert(out.deep_view() =~= pre.push(self.values@[i as int].deep_view()));
                assert(self.values.deep_view().take(i + 1) =~= self.values.deep_view().take(
                    i as int,
                ).push(self.values.deep_view()[i as int]));
            }
            i += 1;
        }
        proof {
            assert(self.values.deep_view().take(n as int) =~= self.values.deep_view());
        }
        out
    }

    proof fn lemma_wf_view(self) {
        vstd::seq_lib::seq_to_set_is_finite(self.values.deep_view());
    }

    proof fn lemma_merged_view_wf(a: Set<T::V>, b: Set<T::V>) {
    }

    proof fn lemma_compat_symmetric(a: Set<T::V>, b: Set<T::V>) {
    }

    proof fn lemma_compat_merge(a: Set<T::V>, b: Set<T::V>, c: Set<T::V>) {
    }

    proof fn lemma_merge_commutes(a: Set<T::V>, b: Set<T::V>) {
        assert(a.union(b) =~= b.union(a));
    }

    proof fn lemma_merge_associates(a: Set<T::V>, b: Set<T::V>, c: Set<T::V>) {
        assert(a.union(b).union(c) =~= a.union(b.union(c)));
    }

    proof fn lemma_merge_idempotent(a: Set<T::V>) {
        assert(a.union(a) =~= a);
    }
}

impl<T: Element> Clone for GSet<T> {
    /// Copies the set; the copy has the same model.
    fn clone(&self) -> (r: Self)
        ensures
            r.state_view() == self.state_view(),
            r.wf() == self.wf(),
    {
        let n = self.values.len();
        let mut values: Vec<T> = Vec::new();
        let mut i: usize = 0;
        proof {
            assert(values.deep_view() =~= self.values.deep_view().take(0));
        }
        while i < n
            invariant
                0 <= i <= n,
                n == self.values@.len(),
                values.deep_view() == self.values.deep_view().take(i as int),
            decreases n - i,
        {
            let ghost pre = values.deep_view();
            values.push(self.values[i].clone_elem());
            proof {
                assert(values.deep_view() =~= pre.push(self.values@[i as int].deep_view()));
                assert(self.values.deep_view().take(i + 1) =~= self.values.deep_view().take(
                    i as int,
                ).push(self.values.deep_view()[i as int]));
            }
            i += 1;
        }
        proof {
            assert(self.values.deep_view().take(n as int) =~= self.values.deep_view());
        }
        GSet { values }
    }
}

impl<T: Element> Default for GSet<T> {
    /// The default set is empty.
    fn default() -> (r: Self)
        ensures
            r.wf(),
            r.state_view() == Set::<T::V>::empty(),
    {
        GSet::new()
    }
}

} // verus!
