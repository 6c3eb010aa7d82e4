//! A small real-time execution core for single-core controllers: a
//! fixed-priority preemptive scheduler with priority-ceiling resource locks,
//! a software timer multiplexer on one tick source, and a bounded
//! single-producer/single-consumer message queue.
use vstd::prelude::*;

pub mod queue;
pub mod timer;
pub mod sched;
pub mod kernel;

verus! {

} // verus!
