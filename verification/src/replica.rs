use vstd::prelude::*;

use crate::actor::ActorId;
use crate::ctx::AddCtx;
use crate::dot::Dot;
use crate::traits::CmRDT;
use crate::vclock::{lemma_vclock_max_bounds, seen, vclock_contains, vclock_max, vclock_merged,
    VClock};

verus! {

/// A replica manages the state of one replicated value for one actor. It
/// owns the actor's operation counter, the actor's vector clock and the
/// wrapped state, and it is the only component that mints dots — which makes
/// it the only safe entry point for local mutation.
///
/// Timestamps follow a purely logical hybrid-logical-clock rule: a fresh
/// dot's counter is one more than the largest counter the replica has either
/// issued itself or observed from anyone else. A replica that has only
/// learned remote history through merges therefore still mints dots that
/// causally dominate that history; a plain local increment would not.
pub struct Replica<T: CmRDT> {
    /// The identity this replica writes under.
    pub actor_id: ActorId,
    op_counter: u64,
    clock: VClock,
    crdt: T,
}

/// The counter of the next dot a replica with local counter `c` and causal
/// knowledge `m` mints: newer than both.
pub open spec fn mint_counter(c: u64, m: Map<ActorId, u64>) -> int {
    (if vclock_max(m) > c {
        vclock_max(m)
    } else {
        c
    }) + 1
}

/// A minted counter is strictly newer than every operation the replica has
/// issued and every operation it has observed from any actor.
pub proof fn lemma_mint_fresh(c: u64, m: Map<ActorId, u64>)
    requires
        m.dom().finite(),
    ensures
        mint_counter(c, m) > c,
        forall|a: ActorId| m.dom().contains(a) ==> #[trigger] m[a] < mint_counter(c, m),
        forall|d: Dot| vclock_contains(m, d) ==> d.counter < mint_counter(c, m),
{
    lemma_vclock_max_bounds(m);
}

impl<T: CmRDT> Replica<T> {
    /// The identity this replica writes under.
    pub closed spec fn spec_actor(self) -> ActorId {
        self.actor_id
    }

    /// The operation counter: the counter of the last locally minted dot.
    pub closed spec fn spec_counter(self) -> u64 {
        self.op_counter
    }

    /// The replica's causal knowledge.
    pub closed spec fn spec_clock(self) -> Map<ActorId, u64> {
        self.clock@
    }

    /// The wrapped replicated state.
    pub closed spec fn spec_crdt(self) -> T {
        self.crdt
    }

    /// The clock and the state are well formed, and the clock has recorded
    /// at least the replica's own last-minted dot.
    pub closed spec fn wf(self) -> bool {
        &&& self.clock.wf()
        &&& self.crdt.wf()
        &&& seen(self.clock@, self.actor_id) >= self.op_counter
    }

    /// Creates a new replica for a given actor and an initial state.
    pub fn new(actor_id: ActorId, crdt: T) -> (r: Replica<T>)
        ensures
            r.spec_actor() == actor_id,
            r.spec_counter() == 0,
            r.spec_clock() == Map::<ActorId, u64>::empty(),
            r.spec_crdt() == crdt,
            r.wf() == crdt.wf(),
    {
        Replica { actor_id, op_counter: 0, clock: VClock::new(), crdt }
    }

    /// Applies an operation locally: mints a causally fresh dot, applies the
    /// operation under it, folds the dot into the replica's own clock, and
    /// returns the operation with its context, ready to be shipped to other
    /// replicas.
    pub fn apply(&mut self, op: T::Op) -> (r: (T::Op, AddCtx))
        requires
            old(self).wf(),
            old(self).spec_crdt().can_apply(&op),
            old(self).spec_counter() < u64::MAX,
            vclock_max(old(self).spec_clock()) < u64::MAX,
        ensures
            final(self).wf(),
            final(self).spec_actor() == old(self).spec_actor(),
            final(self).spec_counter() == mint_counter(
                old(self).spec_counter(),
                old(self).spec_clock(),
            ),
            final(self).spec_clock() == old(self).spec_clock().insert(
                old(self).spec_actor(),
                final(self).spec_counter(),
            ),
            r.0 == op,
            r.1.dot == (Dot { actor: old(self).spec_actor(), counter: final(self).spec_counter() }),
            r.1.clock@ == final(self).spec_clock(),
            r.1.wf(),
            vclock_contains(r.1.clock@, r.1.dot),
            final(self).spec_crdt().wf(),
            final(self).spec_crdt().state_view() == T::applied(
                old(self).spec_crdt().state_view(),
                &op,
                r.1.dot,
                r.1.clock@,
            ),
    {
        // the latest "time" this replica has seen from anyone, or issued
        let latest = self.clock.max_counter();
        let base = if latest > self.op_counter {
            latest
        } else {
            self.op_counter
        };
        self.op_counter = base + 1;
        let dot = Dot { actor: self.actor_id, counter: self.op_counter };
        // record our own operation before snapshotting the clock
        self.clock.insert(dot.actor, dot.counter);
        let ctx = AddCtx { dot, clock: self.clock.clone() };
        self.crdt.apply(&op, &ctx);
        (op, ctx)
    }

    /// Applies an operation produced by another replica, under the context
    /// that replica minted for it, and merges the sender's causal knowledge
    /// into this replica's own.
    pub fn apply_remote(&mut self, op: T::Op, ctx: AddCtx)
        requires
            old(self).wf(),
            old(self).spec_crdt().can_apply(&op),
            ctx.wf(),
        ensures
            final(self).wf(),
            final(self).spec_actor() == old(self).spec_actor(),
            final(self).spec_counter() == old(self).spec_counter(),
            final(self).spec_clock() == vclock_merged(old(self).spec_clock(), ctx.clock@),
            final(self).spec_crdt().wf(),
            final(self).spec_crdt().state_view() == T::applied(
                old(self).spec_crdt().state_view(),
                &op,
                ctx.dot,
                ctx.clock@,
            ),
    {
        self.crdt.apply(&op, &ctx);
        self.clock.merge(ctx.clock);
    }

    /// Reads the current user-facing value of the wrapped state.
    pub fn read(&self) -> (r: T::Value)
        requires
            self.wf(),
        ensures
            T::read_agrees(self.spec_crdt().state_view(), &r),
    {
        self.crdt.read()
    }

    /// Folds a remote replica's full state and clock into this one, for
    /// state-based reconciliation.
    pub fn merge(&mut self, remote_crdt: T, remote_clock: VClock)
        requires
            old(self).wf(),
            remote_crdt.wf(),
            old(self).spec_crdt().can_merge(&remote_crdt),
            remote_clock.wf(),
        ensures
            final(self).wf(),
            final(self).spec_actor() == old(self).spec_actor(),
            final(self).spec_counter() == old(self).spec_counter(),
            final(self).spec_clock() == vclock_merged(old(self).spec_clock(), remote_clock@),
            final(self).spec_crdt().wf(),
            final(self).spec_crdt().state_view() == T::merged(
                old(self).spec_crdt().state_view(),
                remote_crdt.state_view(),
            ),
    {
        self.crdt.merge(remote_crdt);
        self.clock.merge(remote_clock);
    }

    /// The wrapped state, read-only.
    pub fn state(&self) -> (r: &T)
        ensures
            *r == self.spec_crdt(),
    {
        &self.crdt
    }

    /// The replica's clock, read-only.
    pub fn clock(&self) -> (r: &VClock)
        ensures
            r@ == self.spec_clock(),
            self.wf() ==> r.wf(),
    {
        &self.clock
    }
}

} // verus!
