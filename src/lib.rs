//! Epoch-based reclamation for concurrent data structures: the epoch cycle, participants and
//! their shields, batches of retired work, and the rule that decides when retired work may run.
//!
//! A `Collector` never runs retired work itself: every call that may reclaim returns the work
//! items that became safe to run, oldest first, and the caller runs them.

pub mod backoff;
pub mod bag;
pub mod collector;
pub mod deferred;
pub mod drain_queue;
pub mod epoch;
pub mod local;
pub mod queue;
pub mod shared;
pub mod shield;
pub mod tag;
pub mod thread_id;
pub mod thread_local;

pub use backoff::Backoff;
pub use collector::{AdvanceRefused, Collector, FullShield, Local, ThinShield};
pub use epoch::{AtomicEpoch, DefinitiveEpoch, Epoch};
pub use shared::{Atomic, Shared};
pub use shield::{unprotected, CowShield, Shield, UnprotectedShield};
pub use tag::{NullTag, PairTag, Tag, TagPosition};
pub use thread_id::{IdAllocator, ThreadId, TlsProvider};
pub use thread_local::ThreadLocal;
