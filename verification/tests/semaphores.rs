use kernel_sync::sched::Suspend;
use kernel_sync::sync::semaphore::Semaphore;

#[test]
fn semaphore_scenario_one_unit_two_tasks() {
    // One unit. T1 takes it, T2 is queued, T1 gives it back: T2 is released
    // with the unit.
    let mut s = Semaphore::new(1);
    assert_eq!(s.down(1), Suspend::Continue);
    assert_eq!(s.get_count(), 0);
    assert_eq!(s.get_allocated_tids(), Some(vec![0, 1]));
    assert_eq!(s.down(2), Suspend::Block);
    assert_eq!(s.get_count(), -1);
    assert_eq!(s.get_waiting_tids(), Some(vec![0, 0, 1]));
    assert_eq!(s.up(1), Some(2));
    assert_eq!(s.get_count(), 0);
    assert_eq!(s.get_allocated_tids(), Some(vec![0, 0, 1]));
    assert_eq!(s.get_waiting_tids(), None);
}

#[test]
fn new_semaphore_has_its_units_and_nothing_else() {
    let s = Semaphore::new(5);
    assert_eq!(s.get_count(), 5);
    assert_eq!(s.get_allocated_tids(), None);
    assert_eq!(s.get_waiting_tids(), None);
    let empty = Semaphore::new(0);
    assert_eq!(empty.get_count(), 0);
}

#[test]
fn semaphore_count_of_a_number_too_large_for_a_signed_word() {
    assert_eq!(Semaphore::new(isize::MAX as usize).get_count(), isize::MAX);
    assert_eq!(Semaphore::new(isize::MAX as usize + 1).get_count(), isize::MIN);
    assert_eq!(Semaphore::new(usize::MAX).get_count(), -1);
    assert_eq!(Semaphore::new(usize::MAX - 6).get_count(), -7);
}

#[test]
fn up_by_a_task_without_units_leaves_the_table() {
    let mut s = Semaphore::new(0);
    assert_eq!(s.up(3), None);
    assert_eq!(s.get_count(), 1);
    assert_eq!(s.get_allocated_tids(), None);
    assert_eq!(s.down(0), Suspend::Continue);
    assert_eq!(s.get_allocated_tids(), Some(vec![1]));
    // Task 5 is beyond the table, task 1 was never granted a unit.
    assert_eq!(s.up(5), None);
    assert_eq!(s.get_allocated_tids(), Some(vec![1]));
    assert_eq!(s.get_count(), 1);
}

#[test]
fn up_without_waiters_wakes_nobody() {
    let mut s = Semaphore::new(usize::MAX - 1);
    assert_eq!(s.get_count(), -2);
    assert_eq!(s.up(0), None);
    assert_eq!(s.get_count(), -1);
    assert_eq!(s.get_waiting_tids(), None);
    assert_eq!(s.get_allocated_tids(), None);
}

#[test]
fn semaphore_releases_waiters_first_come_first_served() {
    let mut s = Semaphore::new(1);
    assert_eq!(s.down(0), Suspend::Continue);
    assert_eq!(s.down(3), Suspend::Block);
    assert_eq!(s.down(1), Suspend::Block);
    assert_eq!(s.down(2), Suspend::Block);
    assert_eq!(s.get_count(), -3);
    assert_eq!(s.get_waiting_tids(), Some(vec![0, 1, 1, 1]));
    assert_eq!(s.up(0), Some(3));
    assert_eq!(s.up(3), Some(1));
    assert_eq!(s.get_waiting_tids(), Some(vec![0, 0, 1]));
    assert_eq!(s.up(1), Some(2));
    assert_eq!(s.up(2), None);
    assert_eq!(s.get_count(), 1);
    assert_eq!(s.get_allocated_tids(), Some(vec![0, 0, 0, 0]));
}

#[test]
fn semaphore_conservation_on_a_run() {
    // Four units; nine downs and five ups, each up by a task that holds a
    // unit.
    let mut s = Semaphore::new(4);
    let mut granted: usize = 0;
    let mut ups: usize = 0;
    for tid in [0usize, 1, 2, 3, 4, 5] {
        if s.down(tid) == Suspend::Continue {
            granted += 1;
        }
    }
    assert_eq!(granted, 4);
    for tid in [0usize, 1, 2] {
        if s.up(tid).is_some() {
            granted += 1;
        }
        ups += 1;
    }
    for tid in [0usize, 1, 6] {
        if s.down(tid) == Suspend::Continue {
            granted += 1;
        }
    }
    for tid in [3usize, 4] {
        if s.up(tid).is_some() {
            granted += 1;
        }
        ups += 1;
    }
    assert_eq!(s.get_count(), 4 + 5 - 9);
    let table = s.get_allocated_tids().unwrap();
    let sum: usize = table.iter().sum();
    assert_eq!(sum, granted - ups);
    assert_eq!(table, vec![1, 1, 0, 0, 0, 1, 1]);
    assert_eq!(s.get_waiting_tids(), None);
}

#[test]
fn semaphore_counts_a_task_queued_twice() {
    let mut s = Semaphore::new(0);
    assert_eq!(s.down(2), Suspend::Block);
    assert_eq!(s.down(0), Suspend::Block);
    assert_eq!(s.down(2), Suspend::Block);
    assert_eq!(s.get_waiting_tids(), Some(vec![1, 0, 2]));
    assert_eq!(s.get_count(), -3);
}
