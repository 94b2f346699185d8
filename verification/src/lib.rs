//! Priority-queue disciplines for a many-producer / single-consumer hand-off,
//! with the producer-owned payload pools and the workload plan they run under.
//!
//! Every queue here is driven through `&mut self`: exclusive access stands in
//! for the synchronisation that a shared deployment adds around it.

pub mod dual;
pub mod heap;
pub mod model;
pub mod pool;
pub mod prio101;
pub mod ranked;
mod queues_backing;
pub mod rng;
pub mod workload;

pub use dual::{DualPrioQueue, DualSegQueue, MutexBinaryHeapQueue};
pub use pool::ProducerPool;
pub use prio101::{BitmapQueue, Prio101Queue, SkiplistQueue};
pub use rng::xorshift64;
pub use workload::slots_per_producer_for_size;

use vstd::prelude::*;

verus! {

/// Number of producer threads in the workload.
pub const PRODUCERS: usize = 20;

/// The low class of the two-class workload.
pub const LOW: u8 = 0;

/// The high class of the two-class workload.
pub const HIGH: u8 = 1;

/// Highest level of the many-level workload (levels run from 0 to this value).
pub const MAX_PRIO: usize = 100;

/// Number of levels of the many-level workload.
pub const NUM_PRIOS: usize = 101;

/// Message handed through a queue: the payload lives in the pool of
/// `producer`, in slot `slot`.
#[derive(Clone, Copy, Debug, PartialEq, Eq, Structural)]
pub struct Msg {
    pub producer: u8,
    pub slot: u16,
}

} // verus!
