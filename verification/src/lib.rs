//! Convergent replicated data types over a causal-metadata substrate.
//!
//! Replicas mutate their local state independently and later reconcile by
//! exchanging operations (with their causal context) or whole states; every
//! variant's merge is commutative, associative and idempotent, so replicas
//! that have seen the same events agree, whatever the delivery order.

pub mod actor;
pub mod ctx;
pub mod dot;
pub mod element;
pub mod g_counter;
pub mod g_set;
pub mod lww_register;
pub mod or_set;
pub mod pairs;
pub mod pn_counter;
pub mod replica;
pub mod traits;
pub mod vclock;

pub use actor::ActorId;
pub use ctx::{AddCtx, ReadCtx};
pub use dot::Dot;
pub use element::Element;
pub use g_counter::GCounter;
pub use g_set::GSet;
pub use lww_register::LWWRegister;
pub use or_set::ORSet;
pub use pn_counter::PNCounter;
pub use replica::Replica;
pub use traits::CmRDT;
pub use vclock::VClock;
