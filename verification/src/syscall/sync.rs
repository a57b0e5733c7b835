//! The system calls for sleeping, locks, semaphores, condition variables and
//! the deadlock detector.
//!
//! Each call works on the process of the calling task and is told the id of
//! that task. It carries out the step and says in its result what is left for
//! the scheduler to do. A call that is refused leaves the process as it was.

use crate::sched::{Suspend, SyncError, SysOutcome};
use crate::sync::condvar::Condvar;
use crate::sync::mutex::{lock_step, may_unlock, unlock_step, Lock, LockView, Mutex};
use crate::sync::semaphore::{initial_count, sem_down, sem_up, Semaphore, SemaphoreView};
use crate::table::{first_empty, occupied};
use crate::task::process::ProcessControlBlockInner;
use vstd::prelude::*;

verus! {

/// `after` is `before` with, at most, slot `id` changed.
pub open spec fn same_but<T>(before: Seq<Option<T>>, after: Seq<Option<T>>, id: int) -> bool {
    &&& after.len() == before.len()
    &&& forall|j: int| 0 <= j < before.len() && j != id ==> #[trigger] after[j] == before[j]
}

/// `after` is `before` with a handle stored in slot `id`, which is the first
/// empty slot of `before` or, if it has none, a new slot at its end.
pub open spec fn created_at<T>(before: Seq<Option<T>>, after: Seq<Option<T>>, id: int) -> bool {
    &&& id == first_empty(before)
    &&& after.len() == if id < before.len() {
        before.len()
    } else {
        before.len() + 1
    }
    &&& after[id].is_some()
    &&& forall|j: int| 0 <= j < before.len() && j != id ==> #[trigger] after[j] == before[j]
}

/// The two processes differ at most in their lock table.
pub open spec fn same_but_locks(
    before: ProcessControlBlockInner,
    after: ProcessControlBlockInner,
) -> bool {
    &&& after.tasks == before.tasks
    &&& after.semaphore_list == before.semaphore_list
    &&& after.condvar_list == before.condvar_list
    &&& after.is_enable_deadlock_detection == before.is_enable_deadlock_detection
}

/// The two processes differ at most in their semaphore table.
pub open spec fn same_but_semaphores(
    before: ProcessControlBlockInner,
    after: ProcessControlBlockInner,
) -> bool {
    &&& after.tasks == before.tasks
    &&& after.mutex_list == before.mutex_list
    &&& after.condvar_list == before.condvar_list
    &&& after.is_enable_deadlock_detection == before.is_enable_deadlock_detection
}

/// The two processes differ at most in their table of condition variables.
pub open spec fn same_but_condvars(
    before: ProcessControlBlockInner,
    after: ProcessControlBlockInner,
) -> bool {
    &&& after.tasks == before.tasks
    &&& after.mutex_list == before.mutex_list
    &&& after.semaphore_list == before.semaphore_list
    &&& after.is_enable_deadlock_detection == before.is_enable_deadlock_detection
}

/// The calling task goes to sleep for `ms` milliseconds: it is to be woken
/// when the clock, which now shows `now_ms`, reaches their sum, and is
/// suspended until then.
pub fn sys_sleep(now_ms: usize, ms: usize) -> (out: SysOutcome)
    requires
        now_ms + ms <= usize::MAX,
    ensures
        out == SysOutcome::served(None, Suspend::Sleep((now_ms + ms) as usize)),
{
    let expire_ms: usize = now_ms + ms;
    SysOutcome::served(None, Suspend::Sleep(expire_ms))
}

/// Creates a lock, blocking or spinning, in the first empty slot of the lock
/// table, and returns the index of the slot.
pub fn sys_mutex_create(process: &mut ProcessControlBlockInner, blocking: bool) -> (id: isize)
    requires
        old(process).mutex_list@.len() < isize::MAX,
    ensures
        created_at(old(process).mutex_list@, final(process).mutex_list@, id as int),
        final(process).mutex_list@[id as int].unwrap()@ == LockView::free(),
        final(process).mutex_list@[id as int].unwrap().blocking() == blocking,
        same_but_locks(*old(process), *final(process)),
        old(process).wf() ==> final(process).wf(),
{
    let mutex = Lock::new(blocking);
    proof {
        crate::table::lemma_first_empty(process.mutex_list@);
    }
    let id: usize = process.mutex_list.create(mutex);
    id as isize
}

/// Task `tid` asks for lock `mutex_id`.
///
/// The call is refused with `InvalidHandle` if there is no such lock, and,
/// while the detector is switched on, with `DeadlockRejected` if the request
/// would not leave the process in a safe state. Otherwise the lock takes the
/// request: the caller holds the lock and goes on, or is queued for a blocking
/// lock and suspended, or, for a spin lock that is held, has to yield and ask
/// the lock again.
pub fn sys_mutex_lock(process: &mut ProcessControlBlockInner, tid: usize, mutex_id: usize) -> (out:
    SysOutcome)
    requires
        old(process).wf(),
        occupied(old(process).mutex_list@, mutex_id) ==> lock_step(
            old(process).mutex_list@[mutex_id as int].unwrap().blocking(),
            old(process).mutex_list@[mutex_id as int].unwrap()@,
            tid,
        ).0.fits(),
    ensures
        final(process).wf(),
        !occupied(old(process).mutex_list@, mutex_id) ==> out == SysOutcome::refused(
            SyncError::InvalidHandle,
        ) && *final(process) == *old(process),
        occupied(old(process).mutex_list@, mutex_id) && old(process).is_enable_deadlock_detection
            && !old(process).request_is_safe(tid, mutex_id) ==> out == SysOutcome::refused(
            SyncError::DeadlockRejected,
        ) && *final(process) == *old(process),
        occupied(old(process).mutex_list@, mutex_id) && (old(process).is_enable_deadlock_detection
            ==> old(process).request_is_safe(tid, mutex_id)) ==> {
            let before = old(process).mutex_list@[mutex_id as int].unwrap();
            let after = final(process).mutex_list@[mutex_id as int];
            &&& same_but_locks(*old(process), *final(process))
            &&& same_but(old(process).mutex_list@, final(process).mutex_list@, mutex_id as int)
            &&& after.is_some()
            &&& after.unwrap().blocking() == before.blocking()
            &&& after.unwrap()@ == lock_step(before.blocking(), before@, tid).0
            &&& out == SysOutcome::served(None, lock_step(before.blocking(), before@, tid).1)
        },
{
    if process.mutex_list.get(mutex_id).is_none() {
        return SysOutcome::refused(SyncError::InvalidHandle);
    }
    if process.is_enable_deadlock_detection {
        if !process.deadlock_detection(tid, mutex_id) {
            return SysOutcome::refused(SyncError::DeadlockRejected);
        }
    }
    match &mut process.mutex_list.slots[mutex_id] {
        Some(mutex) => {
            let suspend = mutex.lock(tid);
            SysOutcome::served(None, suspend)
        },
        None => SysOutcome::refused(SyncError::InvalidHandle),
    }
}

/// Task `tid` releases lock `mutex_id`.
///
/// The call is refused with `InvalidHandle` if there is no such lock, and with
/// `OwnerViolation` if the lock is a blocking lock that the caller does not
/// hold. Otherwise the lock is released, and the task it passes to, if any, is
/// to be made runnable.
pub fn sys_mutex_unlock(process: &mut ProcessControlBlockInner, tid: usize, mutex_id: usize) -> (out:
    SysOutcome)
    requires
        old(process).wf(),
    ensures
        final(process).wf(),
        !occupied(old(process).mutex_list@, mutex_id) ==> out == SysOutcome::refused(
            SyncError::InvalidHandle,
        ) && *final(process) == *old(process),
        occupied(old(process).mutex_list@, mutex_id) ==> {
            let before = old(process).mutex_list@[mutex_id as int].unwrap();
            let after = final(process).mutex_list@[mutex_id as int];
            if may_unlock(before.blocking(), before@, tid) {
                &&& same_but_locks(*old(process), *final(process))
                &&& same_but(old(process).mutex_list@, final(process).mutex_list@, mutex_id as int)
                &&& after.is_some()
                &&& after.unwrap().blocking() == before.blocking()
                &&& after.unwrap()@ == unlock_step(before.blocking(), before@).0
                &&& out == SysOutcome::served(
                    unlock_step(before.blocking(), before@).1,
                    Suspend::Continue,
                )
            } else {
                &&& out == SysOutcome::refused(SyncError::OwnerViolation)
                &&& *final(process) == *old(process)
            }
        },
{
    match process.mutex_list.get(mutex_id) {
        Some(mutex) => {
            if mutex.is_blocking() && !holds(mutex, tid) {
                return SysOutcome::refused(SyncError::OwnerViolation);
            }
        },
        None => {
            return SysOutcome::refused(SyncError::InvalidHandle);
        },
    }
    match &mut process.mutex_list.slots[mutex_id] {
        Some(mutex) => {
            let woken = mutex.unlock(tid);
            SysOutcome::served(woken, Suspend::Continue)
        },
        None => SysOutcome::refused(SyncError::InvalidHandle),
    }
}

/// Whether task `tid` holds the lock.
fn holds(mutex: &Lock, tid: usize) -> (r: bool)
    ensures
        r == (mutex@.owner == Some(tid)),
{
    match mutex.get_allocate_tid() {
        Some(owner) => owner == tid,
        None => false,
    }
}

/// Creates a semaphore for `res_count` units in the first empty slot of the
/// semaphore table, and returns the index of the slot.
pub fn sys_semaphore_create(process: &mut ProcessControlBlockInner, res_count: usize) -> (id: isize)
    requires
        old(process).semaphore_list@.len() < isize::MAX,
    ensures
        created_at(old(process).semaphore_list@, final(process).semaphore_list@, id as int),
        final(process).semaphore_list@[id as int].unwrap()@ == SemaphoreView::fresh(
            initial_count(res_count),
        ),
        same_but_semaphores(*old(process), *final(process)),
        old(process).wf() ==> final(process).wf(),
{
    let sem = Semaphore::new(res_count);
    proof {
        crate::table::lemma_first_empty(process.semaphore_list@);
    }
    let id: usize = process.semaphore_list.create(sem);
    id as isize
}

/// Task `tid` gives a unit to semaphore `sem_id`.
///
/// The call is refused with `InvalidHandle` if there is no such semaphore.
/// Otherwise the semaphore takes the unit, and the waiter that it passes to,
/// if any, is to be made runnable.
pub fn sys_semaphore_up(process: &mut ProcessControlBlockInner, tid: usize, sem_id: usize) -> (out:
    SysOutcome)
    requires
        occupied(old(process).semaphore_list@, sem_id) ==> sem_up(
            old(process).semaphore_list@[sem_id as int].unwrap()@,
            tid,
        ).0.wf(),
    ensures
        old(process).wf() ==> final(process).wf(),
        !occupied(old(process).semaphore_list@, sem_id) ==> out == SysOutcome::refused(
            SyncError::InvalidHandle,
        ) && *final(process) == *old(process),
        occupied(old(process).semaphore_list@, sem_id) ==> {
            let before = old(process).semaphore_list@[sem_id as int].unwrap();
            let after = final(process).semaphore_list@[sem_id as int];
            &&& same_but_semaphores(*old(process), *final(process))
            &&& same_but(
                old(process).semaphore_list@,
                final(process).semaphore_list@,
                sem_id as int,
            )
            &&& after.is_some()
            &&& after.unwrap()@ == sem_up(before@, tid).0
            &&& out == SysOutcome::served(sem_up(before@, tid).1, Suspend::Continue)
        },
{
    if process.semaphore_list.get(sem_id).is_none() {
        return SysOutcome::refused(SyncError::InvalidHandle);
    }
    match &mut process.semaphore_list.slots[sem_id] {
        Some(sem) => {
            let woken = sem.up(tid);
            SysOutcome::served(woken, Suspend::Continue)
        },
        None => SysOutcome::refused(SyncError::InvalidHandle),
    }
}

/// Task `tid` asks semaphore `sem_id` for a unit.
///
/// The call is refused with `InvalidHandle` if there is no such semaphore,
/// and, while the detector is switched on, with `DeadlockRejected` if the
/// request would not leave the process in a safe state. Otherwise the
/// semaphore takes the request: the caller is granted a unit and goes on, or is
/// queued and suspended.
pub fn sys_semaphore_down(process: &mut ProcessControlBlockInner, tid: usize, sem_id: usize) -> (out:
    SysOutcome)
    requires
        old(process).wf(),
        occupied(old(process).semaphore_list@, sem_id) ==> sem_down(
            old(process).semaphore_list@[sem_id as int].unwrap()@,
            tid,
        ).0.wf(),
    ensures
        final(process).wf(),
        !occupied(old(process).semaphore_list@, sem_id) ==> out == SysOutcome::refused(
            SyncError::InvalidHandle,
        ) && *final(process) == *old(process),
        occupied(old(process).semaphore_list@, sem_id) && old(process).is_enable_deadlock_detection
            && !old(process).request_is_safe(tid, sem_id) ==> out == SysOutcome::refused(
            SyncError::DeadlockRejected,
        ) && *final(process) == *old(process),
        occupied(old(process).semaphore_list@, sem_id) && (old(
            process,
        ).is_enable_deadlock_detection ==> old(process).request_is_safe(tid, sem_id)) ==> {
            let before = old(process).semaphore_list@[sem_id as int].unwrap();
            let after = final(process).semaphore_list@[sem_id as int];
            &&& same_but_semaphores(*old(process), *final(process))
            &&& same_but(
                old(process).semaphore_list@,
                final(process).semaphore_list@,
                sem_id as int,
            )
            &&& after.is_some()
            &&& after.unwrap()@ == sem_down(before@, tid).0
            &&& out == SysOutcome::served(None, sem_down(before@, tid).1)
        },
{
    if process.semaphore_list.get(sem_id).is_none() {
        return SysOutcome::refused(SyncError::InvalidHandle);
    }
    if process.is_enable_deadlock_detection {
        if !process.deadlock_detection(tid, sem_id) {
            return SysOutcome::refused(SyncError::DeadlockRejected);
        }
    }
    match &mut process.semaphore_list.slots[sem_id] {
        Some(sem) => {
            let suspend = sem.down(tid);
            SysOutcome::served(None, suspend)
        },
        None => SysOutcome::refused(SyncError::InvalidHandle),
    }
}

/// Creates a condition variable in the first empty slot of the table of
/// condition variables, and returns the index of the slot. The argument is not
/// used.
pub fn sys_condvar_create(process: &mut ProcessControlBlockInner, _arg: usize) -> (id: isize)
    requires
        old(process).condvar_list@.len() < isize::MAX,
    ensures
        created_at(old(process).condvar_list@, final(process).condvar_list@, id as int),
        final(process).condvar_list@[id as int].unwrap()@ == Seq::<usize>::empty(),
        same_but_condvars(*old(process), *final(process)),
        old(process).wf() ==> final(process).wf(),
{
    let condvar = Condvar::new();
    proof {
        crate::table::lemma_first_empty(process.condvar_list@);
    }
    let id: usize = process.condvar_list.create(condvar);
    id as isize
}

/// Signals condition variable `condvar_id`.
///
/// The call is refused with `InvalidHandle` if there is no such condition
/// variable. Otherwise the waiter at the head of its queue, if there is one,
/// leaves the queue and is to be made runnable.
pub fn sys_condvar_signal(process: &mut ProcessControlBlockInner, condvar_id: usize) -> (out:
    SysOutcome)
    ensures
        old(process).wf() ==> final(process).wf(),
        !occupied(old(process).condvar_list@, condvar_id) ==> out == SysOutcome::refused(
            SyncError::InvalidHandle,
        ) && *final(process) == *old(process),
        occupied(old(process).condvar_list@, condvar_id) ==> {
            let before = old(process).condvar_list@[condvar_id as int].unwrap()@;
            let after = final(process).condvar_list@[condvar_id as int];
            &&& same_but_condvars(*old(process), *final(process))
            &&& same_but(
                old(process).condvar_list@,
                final(process).condvar_list@,
                condvar_id as int,
            )
            &&& after.is_some()
            &&& before.len() == 0 ==> after.unwrap()@ == before && out == SysOutcome::served(
                None,
                Suspend::Continue,
            )
            &&& before.len() > 0 ==> after.unwrap()@ == before.drop_first() && out
                == SysOutcome::served(Some(before[0]), Suspend::Continue)
        },
{
    if process.condvar_list.get(condvar_id).is_none() {
        return SysOutcome::refused(SyncError::InvalidHandle);
    }
    match &mut process.condvar_list.slots[condvar_id] {
        Some(condvar) => {
            let woken = condvar.signal();
            SysOutcome::served(woken, Suspend::Continue)
        },
        None => SysOutcome::refused(SyncError::InvalidHandle),
    }
}

/// Task `tid` waits on condition variable `condvar_id`, giving up lock
/// `mutex_id` while it waits.
///
/// The call is refused with `InvalidHandle` if there is no such condition
/// variable or no such lock, and with `OwnerViolation` if the lock is a
/// blocking lock that the caller does not hold. Otherwise the lock is
/// released, the task it passes to, if any, is to be made runnable, and the
/// caller joins the queue of the condition variable and is suspended. Once it
/// runs again it has to ask for the lock again.
pub fn sys_condvar_wait(
    process: &mut ProcessControlBlockInner,
    tid: usize,
    condvar_id: usize,
    mutex_id: usize,
) -> (out: SysOutcome)
    requires
        old(process).wf(),
    ensures
        final(process).wf(),
        !occupied(old(process).condvar_list@, condvar_id) || !occupied(
            old(process).mutex_list@,
            mutex_id,
        ) ==> out == SysOutcome::refused(SyncError::InvalidHandle) && *final(process) == *old(
            process,
        ),
        occupied(old(process).condvar_list@, condvar_id) && occupied(
            old(process).mutex_list@,
            mutex_id,
        ) ==> {
            let lock = old(process).mutex_list@[mutex_id as int].unwrap();
            let lock_after = final(process).mutex_list@[mutex_id as int];
            let queue = old(process).condvar_list@[condvar_id as int].unwrap()@;
            let queue_after = final(process).condvar_list@[condvar_id as int];
            if may_unlock(lock.blocking(), lock@, tid) {
                &&& final(process).tasks == old(process).tasks
                &&& final(process).semaphore_list == old(process).semaphore_list
                &&& final(process).is_enable_deadlock_detection == old(
                    process,
                ).is_enable_deadlock_detection
                &&& same_but(old(process).mutex_list@, final(process).mutex_list@, mutex_id as int)
                &&& same_but(
                    old(process).condvar_list@,
                    final(process).condvar_list@,
                    condvar_id as int,
                )
                &&& lock_after.is_some()
                &&& lock_after.unwrap().blocking() == lock.blocking()
                &&& lock_after.unwrap()@ == unlock_step(lock.blocking(), lock@).0
                &&& queue_after.is_some()
                &&& queue_after.unwrap()@ == queue.push(tid)
                &&& out == SysOutcome::served(unlock_step(lock.blocking(), lock@).1, Suspend::Block)
            } else {
                &&& out == SysOutcome::refused(SyncError::OwnerViolation)
                &&& *final(process) == *old(process)
            }
        },
{
    if process.condvar_list.get(condvar_id).is_none() {
        return SysOutcome::refused(SyncError::InvalidHandle);
    }
    match process.mutex_list.get(mutex_id) {
        Some(mutex) => {
            if mutex.is_blocking() && !holds(mutex, tid) {
                return SysOutcome::refused(SyncError::OwnerViolation);
            }
        },
        None => {
            return SysOutcome::refused(SyncError::InvalidHandle);
        },
    }
    match (&mut process.condvar_list.slots[condvar_id], &mut process.mutex_list.slots[mutex_id]) {
        (Some(condvar), Some(mutex)) => {
            let woken = condvar.wait(mutex, tid);
            SysOutcome::served(woken, Suspend::Block)
        },
        _ => SysOutcome::refused(SyncError::InvalidHandle),
    }
}

/// Switches the deadlock detector of the process on (`enabled` is 1) or off
/// (`enabled` is 0) and returns 0. Any other value is refused: the call
/// returns the code of `InvalidArgument` and changes nothing.
pub fn sys_enable_deadlock_detect(process: &mut ProcessControlBlockInner, enabled: usize) -> (code:
    isize)
    ensures
        old(process).wf() ==> final(process).wf(),
        enabled > 1 ==> code == SyncError::InvalidArgument.code() && *final(process) == *old(
            process,
        ),
        enabled <= 1 ==> {
            &&& code == 0
            &&& final(process).is_enable_deadlock_detection == (enabled == 1)
            &&& final(process).tasks == old(process).tasks
            &&& final(process).mutex_list == old(process).mutex_list
            &&& final(process).semaphore_list == old(process).semaphore_list
            &&& final(process).condvar_list == old(process).condvar_list
        },
{
    if enabled > 1 {
        SyncError::InvalidArgument.code()
    } else {
        process.is_enable_deadlock_detection = enabled == 1;
        0
    }
}

} // verus!
