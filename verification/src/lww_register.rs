use vstd::prelude::*;

use crate::actor::ActorId;
use crate::ctx::AddCtx;
use crate::dot::{dot_lt, lemma_dot_order_total, Dot};
use crate::element::Element;
use crate::traits::CmRDT;

verus! {

/// An operation-based last-write-wins register.
///
/// Concurrent writes are resolved by keeping the value whose dot is greatest
/// in the (counter, actor) order; the actor id is the deterministic
/// tie-break. `Option` models the initial state, before any value was set:
/// a register holds a dot exactly when it holds a value.
#[derive(Debug)]
pub struct LWWRegister<T: Element> {
    /// The current value of the register, if one has been set.
    pub value: Option<T>,
    /// The dot of the operation that set the current value.
    pub dot: Option<Dot>,
}

/// The only operation a register accepts: set its value.
#[derive(Clone, Debug)]
pub enum Op<T> {
    Assign(T),
}

/// Whether a write or state carrying dot `b` beats one carrying dot `a`:
/// `b` must exist and be strictly greater; an absent dot loses to any
/// present one, and on literally equal dots the incumbent stays.
pub open spec fn lww_wins(a: Option<Dot>, b: Option<Dot>) -> bool {
    match (a, b) {
        (_, Option::None) => false,
        (Option::None, Option::Some(_)) => true,
        (Option::Some(x), Option::Some(y)) => dot_lt(x, y),
    }
}

impl<T: Element> LWWRegister<T> {
    /// An empty register: no value set yet.
    pub fn new() -> (r: LWWRegister<T>)
        ensures
            r.wf(),
            r.state_view() == (Option::<T::V>::None, Option::<Dot>::None),
    {
        LWWRegister { value: None, dot: None }
    }
}

impl<T: Element> CmRDT for LWWRegister<T> {
    type Op = Op<T>;

    type Value = Option<T>;

    type StateView = (Option<T::V>, Option<Dot>);

    /// The model: the abstract form of the held value, and the dot that set
    /// it.
    open spec fn state_view(self) -> (Option<T::V>, Option<Dot>) {
        (
            match self.value {
                Option::Some(v) => Option::Some(v.deep_view()),
                Option::None => Option::None,
            },
            self.dot,
        )
    }

    /// A register holds a dot exactly when it holds a value.
    open spec fn wf(self) -> bool {
        self.value.is_some() <==> self.dot.is_some()
    }

    /// The model keeps the same shape.
    open spec fn view_wf(s: (Option<T::V>, Option<Dot>)) -> bool {
        s.0.is_some() <==> s.1.is_some()
    }

    /// Dots are unique events: two states from one history that were set by
    /// the very same dot hold the same value.
    open spec fn compat(a: (Option<T::V>, Option<Dot>), b: (Option<T::V>, Option<Dot>)) -> bool {
        a.1.is_some() && a.1 == b.1 ==> a.0 == b.0
    }

    /// Setting never fails.
    open spec fn can_apply(self, op: &Op<T>) -> bool {
        true
    }

    /// Merging never fails.
    open spec fn can_merge(self, other: &Self) -> bool {
        true
    }

    /// A write is adopted when its dot beats the current one; a stale write
    /// is dropped silently.
    open spec fn applied(
        s: (Option<T::V>, Option<Dot>),
        op: &Op<T>,
        dot: Dot,
        clock: Map<ActorId, u64>,
    ) -> (Option<T::V>, Option<Dot>) {
        match op {
            Op::Assign(v) => if lww_wins(s.1, Option::Some(dot)) {
                (Option::Some(v.deep_view()), Option::Some(dot))
            } else {
                s
            },
        }
    }

    /// Merging keeps whichever side's dot is greater; on equal dots the
    /// states are already converged and the incumbent stays.
    open spec fn merged(
        a: (Option<T::V>, Option<Dot>),
        b: (Option<T::V>, Option<Dot>),
    ) -> (Option<T::V>, Option<Dot>) {
        if lww_wins(a.1, b.1) {
            b
        } else {
            a
        }
    }

    /// Reading yields the current value, absent when none was ever set.
    open spec fn read_agrees(s: (Option<T::V>, Option<Dot>), v: &Option<T>) -> bool {
        match v {
            Option::Some(x) => s.0 == Option::Some(x.deep_view()),
            Option::None => s.0 is None,
        }
    }

    fn apply(&mut self, op: &Op<T>, ctx: &AddCtx) {
        match op {
            Op::Assign(v) => {
                let adopt = match &self.dot {
                    Option::Some(cur) => cur.precedes(&ctx.dot),
                    Option::None => true,
                };
                if adopt {
                    self.value = Some(v.clone_elem());
                    self.dot = Some(ctx.dot);
                }
            },
        }
    }

    fn merge(&mut self, other: Self) {
        let take_other = match (&self.dot, &other.dot) {
            (_, Option::None) => false,
            (Option::None, Option::Some(_)) => true,
            (Option::Some(ours), Option::Some(theirs)) => ours.precedes(theirs),
        };
        if take_other {
            *self = other;
        }
    }

    fn read(&self) -> (r: Option<T>) {
        match &self.value {
            Option::Some(v) => Some(v.clone_elem()),
            Option::None => None,
        }
    }

    proof fn lemma_wf_view(self) {
    }

    proof fn lemma_merged_view_wf(a: (Option<T::V>, Option<Dot>), b: (Option<T::V>, Option<Dot>)) {
    }

    proof fn lemma_compat_symmetric(
        a: (Option<T::V>, Option<Dot>),
        b: (Option<T::V>, Option<Dot>),
    ) {
    }

    proof fn lemma_compat_merge(
        a: (Option<T::V>, Option<Dot>),
        b: (Option<T::V>, Option<Dot>),
        c: (Option<T::V>, Option<Dot>),
    ) {
    }

    proof fn lemma_merge_commutes(a: (Option<T::V>, Option<Dot>), b: (Option<T::V>, Option<Dot>)) {
        if a.1.is_some() && b.1.is_some() {
            lemma_dot_order_total(a.1.unwrap(), b.1.unwrap());
        }
    }

    proof fn lemma_merge_associates(
        a: (Option<T::V>, Option<Dot>),
        b: (Option<T::V>, Option<Dot>),
        c: (Option<T::V>, Option<Dot>),
    ) {
        if a.1.is_some() && b.1.is_some() {
            lemma_dot_order_total(a.1.unwrap(), b.1.unwrap());
        }
        if a.1.is_some() && c.1.is_some() {
            lemma_dot_order_total(a.1.unwrap(), c.1.unwrap());
        }
        if b.1.is_some() && c.1.is_some() {
            lemma_dot_order_total(b.1.unwrap(), c.1.unwrap());
        }
    }

    proof fn lemma_merge_idempotent(a: (Option<T::V>, Option<Dot>)) {
        if a.1.is_some() {
            lemma_dot_order_total(a.1.unwrap(), a.1.unwrap());
        }
    }
}

impl<T: Element> Clone for LWWRegister<T> {
    /// Copies the register; the copy has the same model.
    fn clone(&self) -> (r: Self)
        ensures
            r.state_view() == self.state_view(),
            r.wf() == self.wf(),
            r.dot == self.dot,
    {
        LWWRegister {
            value: match &self.value {
                Option::Some(v) => Some(v.clone_elem()),
                Option::None => None,
            },
            dot: self.dot,
        }
    }
}

impl<T: Element> Default for LWWRegister<T> {
    /// The default register is empty.
    fn default() -> (r: Self)
        ensures
            r.wf(),
            r.state_view() == (Option::<T::V>::None, Option::<Dot>::None),
    {
        LWWRegister::new()
    }
}

} // verus!
