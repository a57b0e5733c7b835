//! Locks, semaphores and condition variables.

pub mod condvar;
pub mod mutex;
pub mod semaphore;
pub mod waiters;

pub use condvar::Condvar;
pub use mutex::{Lock, Mutex, MutexBlocking, MutexSpin};
pub use semaphore::Semaphore;
