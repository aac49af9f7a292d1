use vstd::prelude::*;

use crate::actor::ActorId;

verus! {

/// A `Dot` names a single causal event: the `counter`-th event minted by
/// `actor`. A (actor, counter) pair is never reused, so a dot identifies one
/// operation globally.
#[derive(Clone, Copy, Debug, Hash, PartialEq, Eq, Structural)]
pub struct Dot {
    pub actor: ActorId,
    pub counter: u64,
}

/// The total order on dots: counter first, actor id as the tie-break.
///
/// This is the order last-write-wins resolution uses; it is *not* the
/// field-by-field lexicographic order.
pub open spec fn dot_lt(a: Dot, b: Dot) -> bool {
    a.counter < b.counter || (a.counter == b.counter && a.actor.0 < b.actor.0)
}

/// Non-strict version of [`dot_lt`].
pub open spec fn dot_le(a: Dot, b: Dot) -> bool {
    dot_lt(a, b) || a == b
}

impl Dot {
    /// Builds the dot for the `counter`-th event of `actor`.
    pub fn new(actor: ActorId, counter: u64) -> (r: Dot)
        ensures
            r == (Dot { actor, counter }),
    {
        Dot { actor, counter }
    }

    /// Decides whether `self` is strictly earlier than `other` in the
    /// (counter, actor) order.
    pub fn precedes(&self, other: &Dot) -> (r: bool)
        ensures
            r == dot_lt(*self, *other),
    {
        self.counter < other.counter || (self.counter == other.counter && self.actor.0
            < other.actor.0)
    }
}

/// The (counter, actor) order is total: two distinct dots are always strictly
/// ordered one way or the other, and never both.
pub proof fn lemma_dot_order_total(a: Dot, b: Dot)
    ensures
        dot_lt(a, b) || dot_lt(b, a) || a == b,
        !(dot_lt(a, b) && dot_lt(b, a)),
        !(dot_lt(a, b) && a == b),
{
}

/// The (counter, actor) order is transitive.
pub proof fn lemma_dot_order_transitive(a: Dot, b: Dot, c: Dot)
    requires
        dot_lt(a, b),
        dot_lt(b, c),
    ensures
        dot_lt(a, c),
{
}

} // verus!
