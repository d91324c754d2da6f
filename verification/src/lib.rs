//! Run-queue core of a single-core, no-heap kernel: a round-robin scheduler
//! that decides, on every kernel loop iteration, which registered process runs
//! next, and rotates processes fairly through a fixed backing store.
//!
//! - [`node`] holds the scheduling record: a process identity plus the
//!   intrusive link state that lets the queue relink it without moving it.
//! - [`queue`] holds the run queue: an ordered collection of records backed by
//!   a fixed arena, with explicit previous/next slot indices in place of
//!   pointers.
//! - [`sched`] holds the scheduler core consumed by the kernel loop: select
//!   the next runnable process, record timeslice outcomes, rotate or retire
//!   accordingly.
//! - [`init`] holds the one-shot builder that seeds a scheduler from a
//!   process-table snapshot.

pub mod init;
pub mod node;
pub mod queue;
pub mod sched;
