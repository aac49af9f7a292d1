use vstd::prelude::*;

verus! {

/// A unique identifier for a replica.
///
/// Every replica participating in replication is bootstrapped with its own
/// `ActorId`; the id doubles as the deterministic tie-break between events
/// whose counters are equal.
#[derive(Clone, Copy, Debug, Hash, PartialEq, Eq, Structural)]
pub struct ActorId(pub u64);

} // verus!
