use vstd::prelude::*;

use crate::actor::ActorId;
use crate::ctx::AddCtx;
use crate::dot::Dot;

verus! {

/// The uniform capability every replicated type implements.
///
/// A variant chooses an operation type, a user-facing value type and a
/// mathematical model of its state (`StateView`); `apply`, `merge` and
/// `read` are pinned against that model. The three semilattice laws —
/// merge is commutative, associative and idempotent — are proof
/// obligations of the trait, so no type can implement the capability
/// without them; they are what makes replicas converge however states
/// travel.
///
/// None of the operations can fail: stale or already-known data is
/// absorbed silently, by design.
pub trait CmRDT: Sized {
    /// The operation type that can be applied to this replicated type.
    type Op;

    /// The user-facing value type `read` projects to.
    type Value;

    /// The mathematical model of the state.
    type StateView;

    /// The model of this state.
    spec fn state_view(self) -> Self::StateView;

    /// Representation invariant of the concrete state.
    spec fn wf(self) -> bool;

    /// Invariant of the model (what `wf` guarantees about the model).
    spec fn view_wf(s: Self::StateView) -> bool;

    /// Two states that can stem from one replicated history. Dots name
    /// globally unique events, so where both states record the same event
    /// they agree about it; states of variants with no such bookkeeping are
    /// always compatible.
    spec fn compat(a: Self::StateView, b: Self::StateView) -> bool;

    /// When an operation may be applied. The merge semantics is total; this
    /// only protects machine bounds (counter sums must fit their word).
    spec fn can_apply(self, op: &Self::Op) -> bool;

    /// When another state may be merged in; machine bounds only, as above.
    spec fn can_merge(self, other: &Self) -> bool;

    /// The model after applying one operation under its causal context.
    spec fn applied(
        s: Self::StateView,
        op: &Self::Op,
        dot: Dot,
        clock: Map<ActorId, u64>,
    ) -> Self::StateView;

    /// The model after merging another state in.
    spec fn merged(a: Self::StateView, b: Self::StateView) -> Self::StateView;

    /// Whether `v` is a correct reading of the model `s`.
    spec fn read_agrees(s: Self::StateView, v: &Self::Value) -> bool;

    /// Applies an operation under its causal context. The context must be
    /// the one minted for the operation by its origin replica, but that
    /// replica need not be this one.
    fn apply(&mut self, op: &Self::Op, ctx: &AddCtx)
        requires
            old(self).wf(),
            old(self).can_apply(op),
            ctx.wf(),
        ensures
            final(self).wf(),
            final(self).state_view() == Self::applied(
                old(self).state_view(),
                op,
                ctx.dot,
                ctx.clock@,
            ),
    ;

    /// Folds another replica's full state into this one.
    fn merge(&mut self, other: Self)
        requires
            old(self).wf(),
            other.wf(),
            old(self).can_merge(&other),
        ensures
            final(self).wf(),
            final(self).state_view() == Self::merged(old(self).state_view(), other.state_view()),
    ;

    /// Projects the current state to a user-facing value. Pure: no side
    /// effects.
    fn read(&self) -> (r: Self::Value)
        requires
            self.wf(),
        ensures
            Self::read_agrees(self.state_view(), &r),
    ;

    /// A well-formed state has a well-formed model.
    proof fn lemma_wf_view(self)
        requires
            self.wf(),
        ensures
            Self::view_wf(self.state_view()),
    ;

    /// A merged model is well formed when both inputs are.
    proof fn lemma_merged_view_wf(a: Self::StateView, b: Self::StateView)
        requires
            Self::view_wf(a),
            Self::view_wf(b),
        ensures
            Self::view_wf(Self::merged(a, b)),
    ;

    /// Compatibility is symmetric.
    proof fn lemma_compat_symmetric(a: Self::StateView, b: Self::StateView)
        requires
            Self::compat(a, b),
        ensures
            Self::compat(b, a),
    ;

    /// Merging keeps states compatible with any third state both inputs were
    /// compatible with.
    proof fn lemma_compat_merge(a: Self::StateView, b: Self::StateView, c: Self::StateView)
        requires
            Self::compat(a, c),
            Self::compat(b, c),
        ensures
            Self::compat(Self::merged(a, b), c),
    ;

    /// Merge is commutative on states stemming from one replicated history.
    proof fn lemma_merge_commutes(a: Self::StateView, b: Self::StateView)
        requires
            Self::view_wf(a),
            Self::view_wf(b),
            Self::compat(a, b),
        ensures
            Self::merged(a, b) == Self::merged(b, a),
    ;

    /// Merge is associative.
    proof fn lemma_merge_associates(a: Self::StateView, b: Self::StateView, c: Self::StateView)
        requires
            Self::view_wf(a),
            Self::view_wf(b),
            Self::view_wf(c),
        ensures
            Self::merged(Self::merged(a, b), c) == Self::merged(a, Self::merged(b, c)),
    ;

    /// Merging a state with itself changes nothing.
    proof fn lemma_merge_idempotent(a: Self::StateView)
        requires
            Self::view_wf(a),
        ensures
            Self::merged(a, a) == a,
    ;
}

/// The state a replica reaches by folding a batch of received states into an
/// initial one, in the order given.
pub open spec fn merge_fold<T: CmRDT>(init: T::StateView, s: Seq<T::StateView>) -> T::StateView
    decreases s.len(),
{
    if s.len() == 0 {
        init
    } else {
        T::merged(merge_fold::<T>(init, s.drop_last()), s.last())
    }
}

/// Every state in the batch is well formed.
pub open spec fn all_view_wf<T: CmRDT>(s: Seq<T::StateView>) -> bool {
    forall|i: int| 0 <= i < s.len() ==> T::view_wf(#[trigger] s[i])
}

/// Any two states in the batch stem from one replicated history.
pub open spec fn pairwise_compat<T: CmRDT>(s: Seq<T::StateView>) -> bool {
    forall|i: int, j: int|
        0 <= i < s.len() && 0 <= j < s.len() ==> T::compat(#[trigger] s[i], #[trigger] s[j])
}

/// A fold of well-formed states is well formed.
pub proof fn lemma_merge_fold_wf<T: CmRDT>(init: T::StateView, s: Seq<T::StateView>)
    requires
        T::view_wf(init),
        all_view_wf::<T>(s),
    ensures
        T::view_wf(merge_fold::<T>(init, s)),
    decreases s.len(),
{
    if s.len() > 0 {
        lemma_merge_fold_wf::<T>(init, s.drop_last());
        T::lemma_merged_view_wf(merge_fold::<T>(init, s.drop_last()), s.last());
    }
}

/// Any one received state may just as well be folded in last: the fold of a
/// batch equals merging that state into the fold of the others.
pub proof fn lemma_merge_fold_pull<T: CmRDT>(init: T::StateView, s: Seq<T::StateView>, i: int)
    requires
        T::view_wf(init),
        all_view_wf::<T>(s),
        pairwise_compat::<T>(s),
        0 <= i < s.len(),
    ensures
        merge_fold::<T>(init, s) == T::merged(merge_fold::<T>(init, s.remove(i)), s[i]),
    decreases s.len(),
{
    if i == s.len() - 1 {
        assert(s.remove(i) =~= s.drop_last());
    } else {
        let dl = s.drop_last();
        let x = s.last();
        let y = s[i];
        lemma_merge_fold_pull::<T>(init, dl, i);
        let f = merge_fold::<T>(init, dl.remove(i));
        // the fold so far is well formed, so the last two merges swap
        lemma_merge_fold_wf::<T>(init, dl.remove(i));
        T::lemma_merge_associates(f, y, x);
        T::lemma_merge_commutes(y, x);
        T::lemma_merge_associates(f, x, y);
        // and removing slot `i` leaves `x` as the last element
        assert(s.remove(i).drop_last() =~= dl.remove(i));
        assert(s.remove(i).last() == x);
    }
}

/// Convergence: replicas that start from a common state and fold in the same
/// batch of states — the same multiset, in whatever order each replica
/// received them — end in the same state.
pub proof fn lemma_merge_fold_any_order<T: CmRDT>(
    init: T::StateView,
    s1: Seq<T::StateView>,
    s2: Seq<T::StateView>,
)
    requires
        T::view_wf(init),
        all_view_wf::<T>(s1),
        pairwise_compat::<T>(s1),
        s1.to_multiset() == s2.to_multiset(),
    ensures
        merge_fold::<T>(init, s1) == merge_fold::<T>(init, s2),
    decreases s1.len(),
{
    broadcast use vstd::seq_lib::group_to_multiset_ensures;

    assert(s1.len() == s1.to_multiset().len());
    assert(s2.len() == s2.to_multiset().len());
    if s1.len() == 0 {
        assert(s2.len() == 0);
    } else {
        let x = s1.last();
        assert(s1.contains(x));
        assert(s2.to_multiset().count(x) > 0);
        assert(s2.contains(x));
        let j = choose|j: int| 0 <= j < s2.len() && s2[j] == x;
        // every state of the second batch is a state of the first
        assert forall|i: int| 0 <= i < s2.len() implies s1.contains(#[trigger] s2[i]) by {
            assert(s2.contains(s2[i]));
            assert(s2.to_multiset().count(s2[i]) > 0);
        }
        assert(all_view_wf::<T>(s2)) by {
            assert forall|i: int| 0 <= i < s2.len() implies T::view_wf(#[trigger] s2[i]) by {
                let w = choose|w: int| 0 <= w < s1.len() && s1[w] == s2[i];
            }
        }
        assert(pairwise_compat::<T>(s2)) by {
            assert forall|i: int, t: int|
                0 <= i < s2.len() && 0 <= t < s2.len() implies T::compat(
                #[trigger] s2[i],
                #[trigger] s2[t],
            ) by {
                let w1 = choose|w: int| 0 <= w < s1.len() && s1[w] == s2[i];
                let w2 = choose|w: int| 0 <= w < s1.len() && s1[w] == s2[t];
            }
        }
        lemma_merge_fold_pull::<T>(init, s2, j);
        // both batches shrink by one copy of `x`
        assert(s1.drop_last() =~= s1.remove(s1.len() - 1));
        assert(s1.remove(s1.len() - 1).to_multiset() =~= s1.to_multiset().remove(x));
        assert(s2.remove(j).to_multiset() =~= s2.to_multiset().remove(x));
        assert(s1.drop_last().to_multiset() == s2.remove(j).to_multiset());
        lemma_merge_fold_any_order::<T>(init, s1.drop_last(), s2.remove(j));
    }
}

/// Convergence over three replicas: however the three states are ordered or
/// bracketed when they are folded together, the result is the same, so any
/// path by which the same states reach a replica leaves it in the same
/// state.
pub proof fn lemma_three_way_converges<T: CmRDT>(
    a: T::StateView,
    b: T::StateView,
    c: T::StateView,
)
    requires
        T::view_wf(a),
        T::view_wf(b),
        T::view_wf(c),
        T::compat(a, b),
        T::compat(a, c),
        T::compat(b, c),
    ensures
        T::merged(T::merged(a, b), c) == T::merged(a, T::merged(b, c)),
        T::merged(T::merged(a, b), c) == T::merged(T::merged(b, a), c),
        T::merged(T::merged(a, b), c) == T::merged(T::merged(a, c), b),
        T::merged(T::merged(a, b), c) == T::merged(T::merged(b, c), a),
        T::merged(T::merged(a, b), c) == T::merged(T::merged(c, a), b),
        T::merged(T::merged(a, b), c) == T::merged(T::merged(c, b), a),
{
    T::lemma_compat_symmetric(a, b);
    T::lemma_compat_symmetric(a, c);
    T::lemma_compat_symmetric(b, c);
    T::lemma_merge_commutes(a, b);
    T::lemma_merge_commutes(a, c);
    T::lemma_merge_commutes(b, c);
    T::lemma_merge_associates(a, b, c);
    T::lemma_merge_associates(b, a, c);
    T::lemma_merge_associates(a, c, b);
    T::lemma_merge_associates(b, c, a);
    T::lemma_merge_associates(c, a, b);
    T::lemma_merge_associates(c, b, a);
    // merged states stay well formed and compatible, so the outer merges
    // commute as well
    T::lemma_merged_view_wf(a, b);
    T::lemma_merged_view_wf(b, c);
    T::lemma_merged_view_wf(c, a);
    T::lemma_compat_merge(a, b, c);
    T::lemma_merge_commutes(T::merged(a, b), c);
    T::lemma_compat_merge(b, c, a);
    T::lemma_merge_commutes(T::merged(b, c), a);
    T::lemma_compat_merge(c, a, b);
    T::lemma_merge_commutes(T::merged(c, a), b);
}

} // verus!
