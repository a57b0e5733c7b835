//! Synchronization primitives of a small teaching kernel: mutual-exclusion
//! locks, counting semaphores, condition variables and an online deadlock
//! detector, for cooperatively scheduled tasks of one process.
//!
//! Nothing here suspends or resumes a task. Every operation is a step on the
//! state it is given: it changes that state and reports what the scheduler has
//! to do for the caller ([`sched::Suspend`]) and which task, if any, became
//! runnable. Tasks are named by their id within the process.
//!
//! - [`sync`] holds the primitives, each with the rules of its steps and the
//!   laws that follow from them: mutual exclusion, first come first served,
//!   conservation of units.
//! - [`table`] holds the slot table that a process keeps its primitives in.
//! - [`task`] holds the process and the deadlock detector, with what it means
//!   for a state to be safe.
//! - [`syscall`] holds the system calls, which find the primitive by its id,
//!   ask the detector where a request can suspend the caller, and let the
//!   primitive take the step.

pub mod sched;
pub mod sync;
pub mod syscall;
pub mod table;
pub mod task;
