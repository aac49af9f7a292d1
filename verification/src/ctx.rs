use vstd::prelude::*;

use crate::dot::Dot;
use crate::vclock::VClock;

verus! {

/// The causal envelope attached to an operation when it is created: the
/// operation's own dot, and a snapshot of the issuing replica's clock taken
/// after the dot was folded in (so the clock already reflects the dot).
#[derive(Debug)]
pub struct AddCtx {
    pub dot: Dot,
    pub clock: VClock,
}

impl AddCtx {
    /// The context's clock is a well-formed vector clock.
    pub open spec fn wf(self) -> bool {
        self.clock.wf()
    }
}

impl Clone for AddCtx {
    /// Copies the context; the copy carries the same dot and an equal clock.
    fn clone(&self) -> (r: Self)
        ensures
            r.dot == self.dot,
            r.clock@ == self.clock@,
            r.wf() == self.wf(),
    {
        AddCtx { dot: self.dot, clock: self.clock.clone() }
    }
}

/// The causal knowledge attached to a read: the reader's clock at read time.
#[derive(Debug)]
pub struct ReadCtx {
    pub clock: VClock,
}

impl Clone for ReadCtx {
    /// Copies the context; the copy carries an equal clock.
    fn clone(&self) -> (r: Self)
        ensures
            r.clock@ == self.clock@,
    {
        ReadCtx { clock: self.clock.clone() }
    }
}

} // verus!
