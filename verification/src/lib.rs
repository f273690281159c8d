//! An embeddable interval scheduler: named jobs, each owning named triggers
//! that fire a worker callback at fixed intervals.

pub mod clock;
pub mod job;
pub mod registry;
pub mod scheduler;
pub mod trigger;
pub mod worker;

pub use crate::clock::Clock;
pub use crate::job::{Directive, Job, ScanStep};
pub use crate::registry::Registry;
pub use crate::scheduler::Scheduler;
pub use crate::trigger::{Trigger, NANOS_PER_SEC};
pub use crate::worker::Worker;
