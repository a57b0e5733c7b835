use kernel_sync::sched::{Suspend, SyncError, SysOutcome, DEADLOCK, FAILURE};
use kernel_sync::sync::mutex::Mutex;
use kernel_sync::syscall::sync::{
    sys_condvar_create, sys_condvar_signal, sys_condvar_wait, sys_enable_deadlock_detect,
    sys_mutex_create, sys_mutex_lock, sys_mutex_unlock, sys_semaphore_create,
    sys_semaphore_down, sys_semaphore_up, sys_sleep,
};
use kernel_sync::task::process::{ProcessControlBlockInner, TaskControlBlock};

fn process_with_tasks(n: usize) -> ProcessControlBlockInner {
    let mut p = ProcessControlBlockInner::new();
    for tid in 0..n {
        p.tasks.push(Some(TaskControlBlock { tid }));
    }
    p
}

fn served(wake: Option<usize>, suspend: Suspend) -> SysOutcome {
    SysOutcome { code: 0, wake, suspend }
}

fn refused(code: isize) -> SysOutcome {
    SysOutcome { code, wake: None, suspend: Suspend::Continue }
}

fn owner(p: &ProcessControlBlockInner, id: usize) -> Option<usize> {
    p.mutex_list.slots[id].as_ref().unwrap().get_allocate_tid()
}

fn lock_waiters(p: &ProcessControlBlockInner, id: usize) -> Option<Vec<usize>> {
    p.mutex_list.slots[id].as_ref().unwrap().get_waiting_tids()
}

#[test]
fn error_codes() {
    assert_eq!(SyncError::InvalidHandle.code(), -1);
    assert_eq!(SyncError::InvalidArgument.code(), -1);
    assert_eq!(SyncError::OwnerViolation.code(), -1);
    assert_eq!(SyncError::DeadlockRejected.code(), -0xDEAD);
    assert_eq!(FAILURE, -1);
    assert_eq!(DEADLOCK, -57005);
    assert_eq!(SysOutcome::refused(SyncError::DeadlockRejected), refused(-0xDEAD));
    assert_eq!(SysOutcome::served(Some(3), Suspend::Block), served(Some(3), Suspend::Block));
}

#[test]
fn sleep_asks_to_be_woken_at_the_sum() {
    assert_eq!(sys_sleep(1_000, 250), served(None, Suspend::Sleep(1_250)));
    assert_eq!(sys_sleep(7, 0), served(None, Suspend::Sleep(7)));
    assert_eq!(sys_sleep(usize::MAX - 1, 1), served(None, Suspend::Sleep(usize::MAX)));
}

#[test]
fn slot_reuse() {
    // Create, create, free slot 0 from outside, create: the third lock gets
    // id 0.
    let mut p = process_with_tasks(1);
    assert_eq!(sys_mutex_create(&mut p, true), 0);
    assert_eq!(sys_mutex_create(&mut p, false), 1);
    p.mutex_list.slots[0] = None;
    assert_eq!(sys_mutex_create(&mut p, false), 0);
    assert_eq!(p.mutex_list.len(), 2);
    assert!(!p.mutex_list.slots[0].as_ref().unwrap().is_blocking());
    assert_eq!(sys_mutex_create(&mut p, true), 2);
}

#[test]
fn slot_reuse_for_semaphores_and_condvars() {
    let mut p = process_with_tasks(1);
    assert_eq!(sys_semaphore_create(&mut p, 3), 0);
    assert_eq!(sys_semaphore_create(&mut p, 4), 1);
    assert_eq!(sys_semaphore_create(&mut p, 5), 2);
    p.semaphore_list.slots[1] = None;
    p.semaphore_list.slots[2] = None;
    assert_eq!(sys_semaphore_create(&mut p, 6), 1);
    assert_eq!(p.semaphore_list.slots[1].as_ref().unwrap().get_count(), 6);
    assert_eq!(p.semaphore_list.slots[0].as_ref().unwrap().get_count(), 3);
    assert!(p.semaphore_list.slots[2].is_none());
    assert_eq!(sys_condvar_create(&mut p, 0), 0);
    assert_eq!(sys_condvar_create(&mut p, 99), 1);
    p.condvar_list.slots[0] = None;
    assert_eq!(sys_condvar_create(&mut p, 0), 0);
    assert_eq!(p.condvar_list.len(), 2);
}

#[test]
fn blocking_mutex_scenario() {
    // Blocking lock 0. T1 locks, T2 locks and is queued, T1 unlocks: T2 holds
    // the lock and the queue is empty.
    let mut p = process_with_tasks(3);
    assert_eq!(sys_mutex_create(&mut p, true), 0);
    assert_eq!(sys_mutex_lock(&mut p, 1, 0), served(None, Suspend::Continue));
    assert_eq!(owner(&p, 0), Some(1));
    assert_eq!(sys_mutex_lock(&mut p, 2, 0), served(None, Suspend::Block));
    assert_eq!(owner(&p, 0), Some(1));
    assert_eq!(lock_waiters(&p, 0), Some(vec![0, 0, 1]));
    assert_eq!(sys_mutex_unlock(&mut p, 1, 0), served(Some(2), Suspend::Continue));
    assert_eq!(owner(&p, 0), Some(2));
    assert_eq!(lock_waiters(&p, 0), None);
    assert_eq!(p.mutex_list.slots[0].as_ref().unwrap().get_count(), 0);
}

#[test]
fn semaphore_scenario() {
    let mut p = process_with_tasks(3);
    assert_eq!(sys_semaphore_create(&mut p, 1), 0);
    assert_eq!(sys_semaphore_down(&mut p, 1, 0), served(None, Suspend::Continue));
    {
        let s = p.semaphore_list.slots[0].as_ref().unwrap();
        assert_eq!(s.get_count(), 0);
        assert_eq!(s.get_allocated_tids(), Some(vec![0, 1]));
    }
    assert_eq!(sys_semaphore_down(&mut p, 2, 0), served(None, Suspend::Block));
    {
        let s = p.semaphore_list.slots[0].as_ref().unwrap();
        assert_eq!(s.get_count(), -1);
        assert_eq!(s.get_waiting_tids(), Some(vec![0, 0, 1]));
    }
    assert_eq!(sys_semaphore_up(&mut p, 1, 0), served(Some(2), Suspend::Continue));
    let s = p.semaphore_list.slots[0].as_ref().unwrap();
    assert_eq!(s.get_count(), 0);
    assert_eq!(s.get_allocated_tids(), Some(vec![0, 0, 1]));
    assert_eq!(s.get_waiting_tids(), None);
}

#[test]
fn deadlock_is_rejected_with_the_detector_on() {
    // A holds L0 and asks for L1; B holds L1 and asks for L0.
    let mut p = process_with_tasks(2);
    let (a, b) = (0usize, 1usize);
    assert_eq!(sys_enable_deadlock_detect(&mut p, 1), 0);
    assert_eq!(sys_mutex_create(&mut p, true), 0);
    assert_eq!(sys_mutex_create(&mut p, true), 1);
    assert_eq!(sys_mutex_lock(&mut p, a, 0), served(None, Suspend::Continue));
    assert_eq!(sys_mutex_lock(&mut p, b, 1), served(None, Suspend::Continue));
    assert_eq!(sys_mutex_lock(&mut p, a, 1), served(None, Suspend::Block));
    assert_eq!(sys_mutex_lock(&mut p, b, 0), refused(-0xDEAD));
    // Nothing has changed.
    assert_eq!(owner(&p, 0), Some(a));
    assert_eq!(owner(&p, 1), Some(b));
    assert_eq!(lock_waiters(&p, 0), None);
    assert_eq!(lock_waiters(&p, 1), Some(vec![1]));
    assert!(p.is_enable_deadlock_detection);
    assert_eq!(p.mutex_list.len(), 2);
    // B gives up its lock instead: A gets it.
    assert_eq!(sys_mutex_unlock(&mut p, b, 1), served(Some(a), Suspend::Continue));
    assert_eq!(owner(&p, 1), Some(a));
}

#[test]
fn deadlock_happens_with_the_detector_off() {
    let mut p = process_with_tasks(2);
    let (a, b) = (0usize, 1usize);
    assert_eq!(sys_mutex_create(&mut p, true), 0);
    assert_eq!(sys_mutex_create(&mut p, true), 1);
    assert_eq!(sys_mutex_lock(&mut p, a, 0), served(None, Suspend::Continue));
    assert_eq!(sys_mutex_lock(&mut p, b, 1), served(None, Suspend::Continue));
    assert_eq!(sys_mutex_lock(&mut p, a, 1), served(None, Suspend::Block));
    assert_eq!(sys_mutex_lock(&mut p, b, 0), served(None, Suspend::Block));
    // Both are queued behind each other.
    assert_eq!(owner(&p, 0), Some(a));
    assert_eq!(owner(&p, 1), Some(b));
    assert_eq!(lock_waiters(&p, 0), Some(vec![0, 1]));
    assert_eq!(lock_waiters(&p, 1), Some(vec![1]));
}

#[test]
fn three_downs_on_two_units_are_never_rejected() {
    let mut p = process_with_tasks(3);
    assert_eq!(sys_enable_deadlock_detect(&mut p, 1), 0);
    assert_eq!(sys_semaphore_create(&mut p, 2), 0);
    assert_eq!(sys_semaphore_down(&mut p, 0, 0), served(None, Suspend::Continue));
    assert_eq!(sys_semaphore_down(&mut p, 1, 0), served(None, Suspend::Continue));
    assert_eq!(sys_semaphore_down(&mut p, 2, 0), served(None, Suspend::Block));
    let s = p.semaphore_list.slots[0].as_ref().unwrap();
    assert_eq!(s.get_count(), -1);
    assert_eq!(s.get_allocated_tids(), Some(vec![1, 1]));
    assert_eq!(s.get_waiting_tids(), Some(vec![0, 0, 1]));
}

#[test]
fn semaphore_cycle_is_rejected_with_the_detector_on() {
    let mut p = process_with_tasks(2);
    assert_eq!(sys_enable_deadlock_detect(&mut p, 1), 0);
    assert_eq!(sys_semaphore_create(&mut p, 1), 0);
    assert_eq!(sys_semaphore_create(&mut p, 1), 1);
    assert_eq!(sys_semaphore_down(&mut p, 0, 0), served(None, Suspend::Continue));
    assert_eq!(sys_semaphore_down(&mut p, 1, 1), served(None, Suspend::Continue));
    assert_eq!(sys_semaphore_down(&mut p, 0, 1), served(None, Suspend::Block));
    assert_eq!(sys_semaphore_down(&mut p, 1, 0), refused(-0xDEAD));
    let s = p.semaphore_list.slots[0].as_ref().unwrap();
    assert_eq!(s.get_count(), 0);
    assert_eq!(s.get_waiting_tids(), None);
    assert_eq!(s.get_allocated_tids(), Some(vec![1]));
}

#[test]
fn spin_mutex_through_the_system_calls() {
    let mut p = process_with_tasks(2);
    assert_eq!(sys_mutex_create(&mut p, false), 0);
    assert_eq!(sys_mutex_lock(&mut p, 0, 0), served(None, Suspend::Continue));
    assert_eq!(sys_mutex_lock(&mut p, 1, 0), served(None, Suspend::Yield));
    assert_eq!(owner(&p, 0), Some(0));
    // A spin lock lets a task that does not hold it release it.
    assert_eq!(sys_mutex_unlock(&mut p, 1, 0), served(None, Suspend::Continue));
    assert_eq!(owner(&p, 0), None);
    assert_eq!(sys_mutex_lock(&mut p, 1, 0), served(None, Suspend::Continue));
    assert_eq!(owner(&p, 0), Some(1));
}

#[test]
fn unlocking_a_blocking_lock_of_someone_else_is_refused() {
    let mut p = process_with_tasks(3);
    assert_eq!(sys_mutex_create(&mut p, true), 0);
    // Not held at all.
    assert_eq!(sys_mutex_unlock(&mut p, 1, 0), refused(-1));
    assert_eq!(sys_mutex_lock(&mut p, 1, 0), served(None, Suspend::Continue));
    assert_eq!(sys_mutex_lock(&mut p, 2, 0), served(None, Suspend::Block));
    assert_eq!(sys_mutex_unlock(&mut p, 2, 0), refused(-1));
    assert_eq!(sys_mutex_unlock(&mut p, 0, 0), refused(-1));
    assert_eq!(owner(&p, 0), Some(1));
    assert_eq!(lock_waiters(&p, 0), Some(vec![0, 0, 1]));
}

#[test]
fn calls_on_missing_handles_are_refused() {
    let mut p = process_with_tasks(2);
    assert_eq!(sys_mutex_lock(&mut p, 0, 0), refused(-1));
    assert_eq!(sys_mutex_unlock(&mut p, 0, 0), refused(-1));
    assert_eq!(sys_semaphore_up(&mut p, 0, 0), refused(-1));
    assert_eq!(sys_semaphore_down(&mut p, 0, 0), refused(-1));
    assert_eq!(sys_condvar_signal(&mut p, 0), refused(-1));
    assert_eq!(sys_condvar_wait(&mut p, 0, 0, 0), refused(-1));
    assert_eq!(sys_mutex_create(&mut p, true), 0);
    assert_eq!(sys_semaphore_create(&mut p, 1), 0);
    assert_eq!(sys_condvar_create(&mut p, 0), 0);
    assert_eq!(sys_mutex_lock(&mut p, 0, 1), refused(-1));
    assert_eq!(sys_semaphore_down(&mut p, 0, 1), refused(-1));
    assert_eq!(sys_condvar_wait(&mut p, 0, 0, 1), refused(-1));
    assert_eq!(sys_condvar_wait(&mut p, 0, 1, 0), refused(-1));
    p.mutex_list.slots[0] = None;
    p.semaphore_list.slots[0] = None;
    p.condvar_list.slots[0] = None;
    assert_eq!(sys_mutex_lock(&mut p, 0, 0), refused(-1));
    assert_eq!(sys_mutex_unlock(&mut p, 0, 0), refused(-1));
    assert_eq!(sys_semaphore_up(&mut p, 0, 0), refused(-1));
    assert_eq!(sys_semaphore_down(&mut p, 0, 0), refused(-1));
    assert_eq!(sys_condvar_signal(&mut p, 0), refused(-1));
    // With the detector on a missing handle is still a missing handle.
    assert_eq!(sys_enable_deadlock_detect(&mut p, 1), 0);
    assert_eq!(sys_mutex_lock(&mut p, 0, 0), refused(-1));
    assert_eq!(sys_semaphore_down(&mut p, 0, 3), refused(-1));
}

#[test]
fn detector_switch() {
    let mut p = process_with_tasks(1);
    assert!(!p.is_enable_deadlock_detection);
    assert_eq!(sys_enable_deadlock_detect(&mut p, 1), 0);
    assert!(p.is_enable_deadlock_detection);
    assert_eq!(sys_enable_deadlock_detect(&mut p, 2), -1);
    assert!(p.is_enable_deadlock_detection);
    assert_eq!(sys_enable_deadlock_detect(&mut p, usize::MAX), -1);
    assert!(p.is_enable_deadlock_detection);
    assert_eq!(sys_enable_deadlock_detect(&mut p, 0), 0);
    assert!(!p.is_enable_deadlock_detection);
    assert_eq!(sys_enable_deadlock_detect(&mut p, 7), -1);
    assert!(!p.is_enable_deadlock_detection);
}

#[test]
fn condvar_wait_and_signal() {
    let mut p = process_with_tasks(3);
    assert_eq!(sys_mutex_create(&mut p, true), 0);
    assert_eq!(sys_condvar_create(&mut p, 0), 0);
    assert_eq!(sys_condvar_signal(&mut p, 0), served(None, Suspend::Continue));
    // A task that does not hold the lock cannot wait with it.
    assert_eq!(sys_condvar_wait(&mut p, 1, 0, 0), refused(-1));
    assert_eq!(sys_mutex_lock(&mut p, 1, 0), served(None, Suspend::Continue));
    assert_eq!(sys_mutex_lock(&mut p, 2, 0), served(None, Suspend::Block));
    assert_eq!(sys_condvar_wait(&mut p, 2, 0, 0), refused(-1));
    // T1 waits: the lock passes to T2, which is woken.
    assert_eq!(sys_condvar_wait(&mut p, 1, 0, 0), served(Some(2), Suspend::Block));
    assert_eq!(owner(&p, 0), Some(2));
    assert_eq!(sys_condvar_wait(&mut p, 2, 0, 0), served(None, Suspend::Block));
    assert_eq!(owner(&p, 0), None);
    assert_eq!(sys_condvar_signal(&mut p, 0), served(Some(1), Suspend::Continue));
    assert_eq!(sys_condvar_signal(&mut p, 0), served(Some(2), Suspend::Continue));
    assert_eq!(sys_condvar_signal(&mut p, 0), served(None, Suspend::Continue));
}

#[test]
fn condvar_wait_with_a_spin_lock() {
    let mut p = process_with_tasks(2);
    assert_eq!(sys_mutex_create(&mut p, false), 0);
    assert_eq!(sys_condvar_create(&mut p, 0), 0);
    assert_eq!(sys_mutex_lock(&mut p, 0, 0), served(None, Suspend::Continue));
    assert_eq!(sys_condvar_wait(&mut p, 0, 0, 0), served(None, Suspend::Block));
    assert_eq!(owner(&p, 0), None);
    assert_eq!(sys_condvar_signal(&mut p, 0), served(Some(0), Suspend::Continue));
}

#[test]
fn mixed_process_checks_the_locks_for_a_semaphore_request() {
    // With a lock table, a request for semaphore 0 is tested as a request for
    // lock 0.
    let mut p = process_with_tasks(2);
    assert_eq!(sys_enable_deadlock_detect(&mut p, 1), 0);
    assert_eq!(sys_mutex_create(&mut p, true), 0);
    assert_eq!(sys_semaphore_create(&mut p, 0), 0);
    assert_eq!(sys_semaphore_down(&mut p, 1, 0), served(None, Suspend::Block));
    assert_eq!(sys_mutex_lock(&mut p, 0, 0), served(None, Suspend::Continue));
    assert_eq!(sys_semaphore_down(&mut p, 0, 0), refused(-0xDEAD));
}
