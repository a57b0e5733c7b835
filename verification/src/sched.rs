//! What an operation asks of the scheduler, and what a system call hands back.

use vstd::prelude::*;

verus! {

/// How the calling task gives up the processor once an operation has returned.
#[derive(Clone, Copy, Debug, PartialEq, Eq, Structural)]
pub enum Suspend {
    /// The caller keeps running.
    Continue,
    /// The caller stays runnable, lets the other tasks run and then tries the
    /// operation again.
    Yield,
    /// The caller is suspended until another task makes it runnable.
    Block,
    /// The caller is suspended until the clock reaches the given time in
    /// milliseconds.
    Sleep(usize),
}

/// Why a system call was refused.
#[derive(Clone, Copy, Debug, PartialEq, Eq, Structural)]
pub enum SyncError {
    /// The id names no slot of the table, or an empty one.
    InvalidHandle,
    /// Granting the request could leave the process deadlocked.
    DeadlockRejected,
    /// An argument is outside the values the call accepts.
    InvalidArgument,
    /// The caller tried to release a blocking lock that it does not hold.
    OwnerViolation,
}

/// Code of a request refused by the deadlock detector.
pub const DEADLOCK: isize = -0xDEAD;

/// Code of every other refusal.
pub const FAILURE: isize = -1;

impl SyncError {
    /// The number handed back to the calling program: `-0xDEAD` for a request
    /// refused by the deadlock detector, `-1` for every other refusal.
    pub open spec fn spec_code(self) -> isize {
        match self {
            SyncError::DeadlockRejected => DEADLOCK,
            _ => FAILURE,
        }
    }

    /// The number handed back to the calling program: `-0xDEAD` for a request
    /// refused by the deadlock detector, `-1` for every other refusal.
    #[verifier::when_used_as_spec(spec_code)]
    pub fn code(self) -> (c: isize)
        ensures
            c == self.spec_code(),
    {
        match self {
            SyncError::DeadlockRejected => DEADLOCK,
            _ => FAILURE,
        }
    }
}

/// Result of a system call that may involve the scheduler.
#[derive(Clone, Copy, Debug, PartialEq, Eq, Structural)]
pub struct SysOutcome {
    /// Value handed back to the calling program: 0, or the code of an error.
    pub code: isize,
    /// Task to be put back on the run queue, if any.
    pub wake: Option<usize>,
    /// What happens to the caller.
    pub suspend: Suspend,
}

impl SysOutcome {
    /// The outcome of a call that was carried out.
    pub open spec fn spec_served(wake: Option<usize>, suspend: Suspend) -> SysOutcome {
        SysOutcome { code: 0, wake, suspend }
    }

    /// The outcome of a call that was refused: nobody is woken and the caller
    /// goes on.
    pub open spec fn spec_refused(error: SyncError) -> SysOutcome {
        SysOutcome { code: error.spec_code(), wake: None, suspend: Suspend::Continue }
    }

    /// The outcome of a call that was carried out.
    #[verifier::when_used_as_spec(spec_served)]
    pub fn served(wake: Option<usize>, suspend: Suspend) -> (out: SysOutcome)
        ensures
            out == Self::spec_served(wake, suspend),
    {
        SysOutcome { code: 0, wake, suspend }
    }

    /// The outcome of a call that was refused.
    #[verifier::when_used_as_spec(spec_refused)]
    pub fn refused(error: SyncError) -> (out: SysOutcome)
        ensures
            out == Self::spec_refused(error),
    {
        SysOutcome { code: error.code(), wake: None, suspend: Suspend::Continue }
    }
}

} // verus!
