use kernel_sync::sched::Suspend;
use kernel_sync::sync::mutex::{Lock, Mutex};
use kernel_sync::sync::semaphore::Semaphore;
use kernel_sync::task::process::{
    check_Finish, find_thread, is_safe_state, ProcessControlBlock, ProcessControlBlockInner,
    TaskControlBlock,
};

fn process_with_tasks(n: usize) -> ProcessControlBlockInner {
    let mut p = ProcessControlBlockInner::new();
    for tid in 0..n {
        p.tasks.push(Some(TaskControlBlock { tid }));
    }
    p
}

#[test]
fn check_finish_wants_every_entry() {
    assert!(check_Finish(&vec![]));
    assert!(check_Finish(&vec![true, true, true]));
    assert!(!check_Finish(&vec![true, false, true]));
    assert!(!check_Finish(&vec![false]));
}

#[test]
fn find_thread_takes_the_first_that_can_run() {
    let need = vec![vec![0, 2, 1], vec![1, 0, 0]];
    let finish = vec![false, false, false];
    assert_eq!(find_thread(&need, &vec![1, 0], &finish, 3), Some(2));
    assert_eq!(find_thread(&need, &vec![1, 1], &finish, 3), Some(0));
    assert_eq!(find_thread(&need, &vec![2, 0], &finish, 3), Some(1));
    assert_eq!(find_thread(&need, &vec![0, 0], &finish, 3), None);
}

#[test]
fn find_thread_skips_finished_tasks_and_stops_at_threads() {
    let need = vec![vec![0, 0, 0]];
    assert_eq!(find_thread(&need, &vec![0], &vec![true, false, false], 3), Some(1));
    assert_eq!(find_thread(&need, &vec![0], &vec![true, true, true], 3), None);
    assert_eq!(find_thread(&need, &vec![0], &vec![true, true, false], 2), None);
    assert_eq!(find_thread(&need, &vec![0], &vec![false], 0), None);
}

#[test]
fn find_thread_counts_missing_entries_as_zero() {
    // Task 2 has no entry in the only row, and the second resource no row.
    let need = vec![vec![3, 3]];
    assert_eq!(find_thread(&need, &vec![1, 0], &vec![false, false, false], 3), Some(2));
}

#[test]
fn find_thread_lets_nobody_run_on_a_negative_count() {
    let need = vec![vec![0, 0]];
    assert_eq!(find_thread(&need, &vec![-1], &vec![false, false], 2), None);
    assert_eq!(find_thread(&need, &vec![0], &vec![false, false], 2), Some(0));
}

#[test]
fn safe_state_with_an_order() {
    // The classic example: only the order 1, 0, 2 or 1, 2, 0 lets all finish.
    let need = vec![vec![2, 1, 3]];
    let allocation = vec![vec![1, 2, 0]];
    assert!(is_safe_state(&need, vec![1], &allocation, 3));
    // With one unit less nobody can start.
    assert!(!is_safe_state(&need, vec![0], &allocation, 3));
}

#[test]
fn unsafe_state_where_two_tasks_wait_for_each_other() {
    let need = vec![vec![0, 1], vec![1, 0]];
    let allocation = vec![vec![1, 0], vec![0, 1]];
    assert!(!is_safe_state(&need, vec![0, 0], &allocation, 2));
    assert!(is_safe_state(&need, vec![1, 0], &allocation, 2));
}

#[test]
fn safe_state_without_tasks_or_resources() {
    assert!(is_safe_state(&vec![], vec![], &vec![], 0));
    assert!(is_safe_state(&vec![], vec![], &vec![], 4));
    assert!(is_safe_state(&vec![vec![9]], vec![0], &vec![vec![]], 0));
}

#[test]
fn safe_state_with_very_large_holdings() {
    let need = vec![vec![0, isize::MAX as usize]];
    let allocation = vec![vec![usize::MAX, 0]];
    assert!(is_safe_state(&need, vec![5], &allocation, 2));
    assert!(!is_safe_state(&need, vec![5], &vec![vec![7, 0]], 2));
}

#[test]
fn detector_finds_the_cycle_of_two_locks() {
    // A holds L0 and is queued for L1; B holds L1 and asks for L0.
    let mut p = process_with_tasks(2);
    p.mutex_list.create(Lock::new(true));
    p.mutex_list.create(Lock::new(true));
    let (a, b) = (0usize, 1usize);
    assert!(p.deadlock_detection(a, 0));
    assert_eq!(p.mutex_list.slots[0].as_mut().unwrap().lock(a), Suspend::Continue);
    assert!(p.deadlock_detection(b, 1));
    assert_eq!(p.mutex_list.slots[1].as_mut().unwrap().lock(b), Suspend::Continue);
    assert!(p.deadlock_detection(a, 1));
    assert_eq!(p.mutex_list.slots[1].as_mut().unwrap().lock(a), Suspend::Block);
    assert!(!p.deadlock_detection(b, 0));
    // A third task that holds nothing does not change that, and can itself
    // be served once B and then A have finished.
    p.tasks.push(Some(TaskControlBlock { tid: 2 }));
    assert!(!p.deadlock_detection(b, 0));
    assert!(p.deadlock_detection(2, 0));
}

#[test]
fn detector_accepts_a_request_that_the_holder_can_satisfy() {
    let mut p = process_with_tasks(3);
    p.mutex_list.create(Lock::new(true));
    p.mutex_list.slots[0].as_mut().unwrap().lock(1);
    assert!(p.deadlock_detection(2, 0));
    // The holder itself asking again can never be served.
    assert!(!p.deadlock_detection(1, 0));
}

#[test]
fn detector_sees_the_holder_of_a_spin_lock() {
    let mut p = process_with_tasks(2);
    p.mutex_list.create(Lock::new(false));
    p.mutex_list.slots[0].as_mut().unwrap().lock(0);
    assert!(p.deadlock_detection(1, 0));
    assert!(!p.deadlock_detection(0, 0));
}

#[test]
fn detector_checks_semaphores_only_without_locks() {
    let mut p = process_with_tasks(2);
    p.semaphore_list.create(Semaphore::new(0));
    // No lock table: the semaphore has no unit for the request.
    assert!(!p.deadlock_detection(0, 0));
    // With a lock in the table the locks are checked, and the lock is free.
    p.mutex_list.create(Lock::new(true));
    assert!(p.deadlock_detection(0, 0));
    // An emptied slot still counts as a lock table, and has nothing to give.
    p.mutex_list.slots[0] = None;
    assert!(!p.deadlock_detection(0, 0));
    assert!(p.deadlock_detection(0, 1));
}

#[test]
fn detector_without_resources_is_satisfied() {
    let p = process_with_tasks(3);
    assert!(p.deadlock_detection(0, 0));
    assert!(p.deadlock_detection(2, 7));
}

#[test]
fn detector_ignores_a_request_for_a_resource_that_is_not_there() {
    let mut p = process_with_tasks(2);
    p.mutex_list.create(Lock::new(true));
    p.mutex_list.slots[0].as_mut().unwrap().lock(0);
    assert!(p.deadlock_detection(0, 5));
    assert!(!p.deadlock_detection(0, 0));
}

#[test]
fn detector_with_semaphores_follows_the_units() {
    let mut p = process_with_tasks(3);
    p.semaphore_list.create(Semaphore::new(1));
    p.semaphore_list.create(Semaphore::new(1));
    assert!(p.deadlock_detection(1, 0));
    p.semaphore_list.slots[0].as_mut().unwrap().down(1);
    assert!(p.deadlock_detection(2, 1));
    p.semaphore_list.slots[1].as_mut().unwrap().down(2);
    // Task 1 asks for the unit that task 2 holds: task 2 can finish first.
    assert!(p.deadlock_detection(1, 1));
    assert_eq!(p.semaphore_list.slots[1].as_mut().unwrap().down(1), Suspend::Block);
    // The count of semaphore 1 is now negative.
    assert!(!p.deadlock_detection(2, 0));
}

#[test]
fn process_counts_and_hands_out_its_tasks() {
    let mut p = process_with_tasks(2);
    assert_eq!(p.thread_count(), 2);
    assert_eq!(p.get_task(1), TaskControlBlock { tid: 1 });
    p.tasks.push(None);
    assert_eq!(p.thread_count(), 3);
}

#[test]
fn process_keeps_its_id() {
    let mut p = ProcessControlBlock::new(42);
    assert_eq!(p.getpid(), 42);
    {
        let inner = p.inner_exclusive_access();
        assert_eq!(inner.thread_count(), 0);
        inner.tasks.push(Some(TaskControlBlock { tid: 0 }));
        inner.is_enable_deadlock_detection = true;
    }
    assert_eq!(p.getpid(), 42);
    let inner = p.inner_exclusive_access();
    assert_eq!(inner.thread_count(), 1);
    assert!(inner.is_enable_deadlock_detection);
}

/// Whether the tasks can finish in the given order, by the rule itself.
fn order_works(need: &[Vec<usize>], work: &[isize], allocation: &[Vec<usize>], order: &[usize]) -> bool {
    let mut free: Vec<i128> = work.iter().map(|w| *w as i128).collect();
    for &t in order {
        for r in 0..free.len() {
            if need[r][t] as i128 > free[r] {
                return false;
            }
        }
        for r in 0..free.len() {
            free[r] += allocation[r][t] as i128;
        }
    }
    true
}

fn matrices(resources: usize, tasks: usize, top: usize) -> Vec<Vec<Vec<usize>>> {
    let cells = resources * tasks;
    let mut all = Vec::new();
    let mut code = vec![0usize; cells];
    loop {
        let m: Vec<Vec<usize>> =
            (0..resources).map(|r| code[r * tasks..(r + 1) * tasks].to_vec()).collect();
        all.push(m);
        let mut i = 0;
        while i < cells && code[i] == top {
            code[i] = 0;
            i += 1;
        }
        if i == cells {
            return all;
        }
        code[i] += 1;
    }
}

#[test]
fn safe_state_agrees_with_trying_every_order_of_three_tasks() {
    let orders: [[usize; 3]; 6] =
        [[0, 1, 2], [0, 2, 1], [1, 0, 2], [1, 2, 0], [2, 0, 1], [2, 1, 0]];
    let all = matrices(1, 3, 2);
    for need in &all {
        for allocation in &all {
            for w in -1isize..=2 {
                let work = vec![w];
                let expected = orders.iter().any(|o| order_works(need, &work, allocation, o));
                assert_eq!(is_safe_state(need, work, allocation, 3), expected);
            }
        }
    }
}

#[test]
fn safe_state_agrees_with_trying_every_order_of_two_tasks() {
    let orders: [[usize; 2]; 2] = [[0, 1], [1, 0]];
    let all = matrices(2, 2, 2);
    for need in &all {
        for allocation in &all {
            for w0 in -1isize..=1 {
                for w1 in 0isize..=2 {
                    let work = vec![w0, w1];
                    let expected = orders.iter().any(|o| order_works(need, &work, allocation, o));
                    assert_eq!(is_safe_state(need, work, allocation, 2), expected);
                }
            }
        }
    }
}
