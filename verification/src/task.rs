//! The tasks of a process and the resources they share.

pub mod process;
pub mod safety;

pub use process::{ProcessControlBlock, ProcessControlBlockInner, TaskControlBlock};
