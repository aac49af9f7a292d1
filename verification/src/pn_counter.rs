use vstd::prelude::*;

use crate::actor::ActorId;
use crate::ctx::AddCtx;
use crate::dot::Dot;
use crate::g_counter::{self, lemma_map_sum_insert, lemma_map_sum_nonneg, map_sum, GCounter};
use crate::traits::CmRDT;

verus! {

/// A positive-negative counter: one grow-only counter for increments and one
/// for decrements, merged independently. Reading takes the difference, which
/// may be negative.
#[derive(Debug, PartialEq, Eq)]
pub struct PNCounter {
    pub increments: GCounter,
    pub decrements: GCounter,
}

/// Operations: increment or decrement by an amount.
#[derive(Clone, Copy, Debug)]
pub enum Op {
    Inc(u64),
    Dec(u64),
}

impl CmRDT for PNCounter {
    type Op = Op;

    type Value = i64;

    type StateView = (Map<Dot, u64>, Map<Dot, u64>);

    /// The model: the increment log and the decrement log.
    open spec fn state_view(self) -> (Map<Dot, u64>, Map<Dot, u64>) {
        (self.increments.state_view(), self.decrements.state_view())
    }

    /// Both logs are well formed and each total fits a signed word, so the
    /// difference is always representable.
    open spec fn wf(self) -> bool {
        &&& self.increments.wf()
        &&& self.decrements.wf()
        &&& map_sum(self.increments.state_view()) <= i64::MAX
        &&& map_sum(self.decrements.state_view()) <= i64::MAX
    }

    /// Both logs are finite.
    open spec fn view_wf(s: (Map<Dot, u64>, Map<Dot, u64>)) -> bool {
        GCounter::view_wf(s.0) && GCounter::view_wf(s.1)
    }

    /// States from one history agree on shared dots in both logs.
    open spec fn compat(a: (Map<Dot, u64>, Map<Dot, u64>), b: (Map<Dot, u64>, Map<Dot, u64>)) -> bool {
        GCounter::compat(a.0, b.0) && GCounter::compat(a.1, b.1)
    }

    /// The grown total must still fit a signed word.
    open spec fn can_apply(self, op: &Op) -> bool {
        match *op {
            Op::Inc(amount) => map_sum(self.increments.state_view()) + amount <= i64::MAX,
            Op::Dec(amount) => map_sum(self.decrements.state_view()) + amount <= i64::MAX,
        }
    }

    /// Both merged totals must still fit a signed word.
    open spec fn can_merge(self, other: &Self) -> bool {
        &&& map_sum(
            GCounter::merged(self.increments.state_view(), other.increments.state_view()),
        ) <= i64::MAX
        &&& map_sum(
            GCounter::merged(self.decrements.state_view(), other.decrements.state_view()),
        ) <= i64::MAX
    }

    /// An increment is recorded in the increment log, a decrement in the
    /// decrement log, each under the operation's dot.
    open spec fn applied(
        s: (Map<Dot, u64>, Map<Dot, u64>),
        op: &Op,
        dot: Dot,
        clock: Map<ActorId, u64>,
    ) -> (Map<Dot, u64>, Map<Dot, u64>) {
        match *op {
            Op::Inc(amount) => (s.0.insert(dot, amount), s.1),
            Op::Dec(amount) => (s.0, s.1.insert(dot, amount)),
        }
    }

    /// Merging merges the two logs independently.
    open spec fn merged(
        a: (Map<Dot, u64>, Map<Dot, u64>),
        b: (Map<Dot, u64>, Map<Dot, u64>),
    ) -> (Map<Dot, u64>, Map<Dot, u64>) {
        (GCounter::merged(a.0, b.0), GCounter::merged(a.1, b.1))
    }

    /// Reading yields the increments' sum minus the decrements' sum.
    open spec fn read_agrees(s: (Map<Dot, u64>, Map<Dot, u64>), v: &i64) -> bool {
        *v as int == map_sum(s.0) - map_sum(s.1)
    }

    fn apply(&mut self, op: &Op, ctx: &AddCtx) {
        match op {
            Op::Inc(amount) => {
                proof {
                    self.increments.lemma_wf_view();
                    lemma_map_sum_nonneg(self.increments.state_view().remove(ctx.dot));
                    lemma_map_sum_insert(self.increments.state_view(), ctx.dot, *amount);
                }
                self.increments.apply(&g_counter::Op::Inc(*amount), ctx);
            },
            Op::Dec(amount) => {
                proof {
                    self.decrements.lemma_wf_view();
                    lemma_map_sum_nonneg(self.decrements.state_view().remove(ctx.dot));
                    lemma_map_sum_insert(self.decrements.state_view(), ctx.dot, *amount);
                }
                self.decrements.apply(&g_counter::Op::Inc(*amount), ctx);
            },
        }
    }

    fn merge(&mut self, other: Self) {
        self.increments.merge(other.increments);
        self.decrements.merge(other.decrements);
    }

    fn read(&self) -> (r: i64) {
        proof {
            self.increments.lemma_wf_view();
            self.decrements.lemma_wf_view();
            lemma_map_sum_nonneg(self.increments.state_view());
            lemma_map_sum_nonneg(self.decrements.state_view());
        }
        let up = self.increments.read();
        let down = self.decrements.read();
        (up as i64) - (down as i64)
    }

    proof fn lemma_wf_view(self) {
        self.increments.lemma_wf_view();
        self.decrements.lemma_wf_view();
    }

    proof fn lemma_merged_view_wf(
        a: (Map<Dot, u64>, Map<Dot, u64>),
        b: (Map<Dot, u64>, Map<Dot, u64>),
    ) {
        GCounter::lemma_merged_view_wf(a.0, b.0);
        GCounter::lemma_merged_view_wf(a.1, b.1);
    }

    proof fn lemma_compat_symmetric(
        a: (Map<Dot, u64>, Map<Dot, u64>),
        b: (Map<Dot, u64>, Map<Dot, u64>),
    ) {
        GCounter::lemma_compat_symmetric(a.0, b.0);
        GCounter::lemma_compat_symmetric(a.1, b.1);
    }

    proof fn lemma_compat_merge(
        a: (Map<Dot, u64>, Map<Dot, u64>),
        b: (Map<Dot, u64>, Map<Dot, u64>),
        c: (Map<Dot, u64>, Map<Dot, u64>),
    ) {
        GCounter::lemma_compat_merge(a.0, b.0, c.0);
        GCounter::lemma_compat_merge(a.1, b.1, c.1);
    }

    proof fn lemma_merge_commutes(
        a: (Map<Dot, u64>, Map<Dot, u64>),
        b: (Map<Dot, u64>, Map<Dot, u64>),
    ) {
        GCounter::lemma_merge_commutes(a.0, b.0);
        GCounter::lemma_merge_commutes(a.1, b.1);
    }

    proof fn lemma_merge_associates(
        a: (Map<Dot, u64>, Map<Dot, u64>),
        b: (Map<Dot, u64>, Map<Dot, u64>),
        c: (Map<Dot, u64>, Map<Dot, u64>),
    ) {
        GCounter::lemma_merge_associates(a.0, b.0, c.0);
        GCounter::lemma_merge_associates(a.1, b.1, c.1);
    }

    proof fn lemma_merge_idempotent(a: (Map<Dot, u64>, Map<Dot, u64>)) {
        GCounter::lemma_merge_idempotent(a.0);
        GCounter::lemma_merge_idempotent(a.1);
    }
}

impl Clone for PNCounter {
    /// Copies both logs; the copy is an equal value.
    fn clone(&self) -> (r: Self)
        ensures
            r.increments.ops@ == self.increments.ops@,
            r.decrements.ops@ == self.decrements.ops@,
            r.wf() == self.wf(),
            r.state_view() == self.state_view(),
    {
        PNCounter { increments: self.increments.clone(), decrements: self.decrements.clone() }
    }
}

impl Default for PNCounter {
    /// The default counter is empty and reads zero.
    fn default() -> (r: Self)
        ensures
            r.wf(),
            r.state_view() == (Map::<Dot, u64>::empty(), Map::<Dot, u64>::empty()),
    {
        PNCounter { increments: GCounter::new(), decrements: GCounter::new() }
    }
}

} // verus!
