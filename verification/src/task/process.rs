//! A process, the resources it owns, and the deadlock detector that guards
//! them.

use crate::sync::condvar::Condvar;
use crate::sync::mutex::{Lock, Mutex};
use crate::sync::semaphore::{held, Semaphore};
use crate::sync::waiters::{
    count_entry, is_histogram, lemma_pending_absent, lemma_pending_le_len, pending,
};
use crate::table::{occupied, ResourceTable};
use crate::task::safety::{
    can_finish_in_order, cell, is_safe, is_safe_order, lemma_cycle_is_unsafe,
    lemma_lone_request_is_safe, lemma_reclaimed_covers_member, lemma_reclaimed_non_negative,
    lemma_room_for_one_more, lemma_safe_same_cells, lemma_stuck_is_unsafe, no_negative_cell,
    others_first, reclaimed, runnable, work_after,
};
use vstd::prelude::*;

verus! {

/// The matrix that a table of rows stands for.
pub open spec fn matrix(m: Seq<Vec<usize>>) -> Seq<Seq<int>> {
    Seq::new(m.len(), |r: int| m[r]@.map_values(|x: usize| x as int))
}

/// The free units that a vector of counts stands for.
pub open spec fn ints(w: Seq<isize>) -> Seq<int> {
    w.map_values(|x: isize| x as int)
}

/// `x`, or the largest signed machine word if `x` is larger than that.
spec fn capped(x: int) -> int {
    if x > isize::MAX {
        isize::MAX as int
    } else {
        x
    }
}

/// Every entry of the matrix fits in a signed machine word.
pub open spec fn entries_fit(m: Seq<Seq<int>>) -> bool {
    forall|r: int, t: int| #[trigger] cell(m, r, t) <= isize::MAX
}

/// The first task, by id, among the first `threads` that has not finished and
/// that can be given what it asks for of every resource; `None` if there is no
/// such task. `need[r][t]` is what task `t` asks of resource `r`, `work[r]` what
/// is free of it; a row of `need` that is short of an entry for a task, and a
/// resource without a row, ask nothing. No task can be given anything while
/// some `work[r]` is negative.
pub fn find_thread(
    need: &Vec<Vec<usize>>,
    work: &Vec<isize>,
    finish: &Vec<bool>,
    threads: usize,
) -> (r: Option<usize>)
    requires
        threads <= finish@.len(),
    ensures
        match r {
            Some(t) => {
                &&& t < threads
                &&& !finish@[t as int]
                &&& runnable(matrix(need@), ints(work@), t as int)
                &&& forall|u: int|
                    0 <= u < t ==> finish@[u] || !runnable(matrix(need@), ints(work@), u)
            },
            None => forall|u: int|
                0 <= u < threads ==> finish@[u] || !runnable(matrix(need@), ints(work@), u),
        },
{
    let l1: usize = work.len();
    let mut t: usize = 0;
    while t < threads
        invariant
            l1 == work@.len(),
            t <= threads <= finish@.len(),
            forall|u: int| 0 <= u < t ==> finish@[u] || !runnable(matrix(need@), ints(work@), u),
        decreases threads - t,
    {
        if !finish[t] {
            let mut flag: bool = false;
            let mut i: usize = 0;
            while i < l1 && !flag
                invariant
                    l1 == work@.len(),
                    i <= l1,
                    !flag ==> forall|r: int|
                        0 <= r < i ==> cell(matrix(need@), r, t as int) <= #[trigger] ints(work@)[r],
                    flag ==> !runnable(matrix(need@), ints(work@), t as int),
                decreases l1 - i + if flag { 0int } else { 1int },
            {
                let wanted: usize = if i < need.len() && need[i].len() > t {
                    need[i][t]
                } else {
                    0
                };
                let free: isize = work[i];
                assert(cell(matrix(need@), i as int, t as int) == wanted);
                assert(ints(work@)[i as int] == free);
                if free < 0 || wanted > free as usize {
                    flag = true;
                }
                i += 1;
            }
            if !flag {
                return Some(t);
            }
        }
        t += 1;
    }
    None
}

/// Whether every task has finished.
#[allow(non_snake_case)]
pub fn check_Finish(finish: &Vec<bool>) -> (r: bool)
    ensures
        r == (forall|i: int| 0 <= i < finish@.len() ==> finish@[i]),
{
    let l: usize = finish.len();
    let mut i: usize = 0;
    while i < l
        invariant
            l == finish@.len(),
            i <= l,
            forall|j: int| 0 <= j < i ==> finish@[j],
        decreases l - i,
    {
        if !finish[i] {
            return false;
        }
        i += 1;
    }
    true
}

/// With free units cut off at the largest signed machine word, and no task
/// asking for more than that of anything, a task can be given what it asks for
/// exactly when it could with the free units as they are.
proof fn lemma_runnable_capped(need: Seq<Seq<int>>, free: Seq<int>, held: Seq<int>, t: int)
    requires
        entries_fit(need),
        held.len() == free.len(),
        forall|r: int| 0 <= r < free.len() ==> #[trigger] held[r] == capped(free[r]),
    ensures
        runnable(need, held, t) == runnable(need, free, t),
{
    if runnable(need, held, t) {
        assert forall|r: int| 0 <= r < free.len() implies cell(need, r, t) <= #[trigger] free[r] by {
            assert(cell(need, r, t) <= held[r]);
        }
    }
    if runnable(need, free, t) {
        assert forall|r: int| 0 <= r < held.len() implies cell(need, r, t) <= #[trigger] held[r] by {
            assert(cell(need, r, t) <= free[r]);
            assert(cell(need, r, t) <= isize::MAX);
        }
    }
}

/// Adds to each free count what task `t` holds of that resource, stopping at
/// the largest signed machine word.
fn give_back_all(work: &mut Vec<isize>, allocation: &Vec<Vec<usize>>, t: usize)
    ensures
        final(work)@.len() == old(work)@.len(),
        forall|r: int|
            0 <= r < old(work)@.len() ==> (#[trigger] final(work)@[r]) as int == capped(
                old(work)@[r] + cell(matrix(allocation@), r, t as int),
            ),
{
    let n: usize = work.len();
    let mut i: usize = 0;
    while i < n
        invariant
            n == work@.len(),
            n == old(work)@.len(),
            i <= n,
            forall|r: int|
                0 <= r < i ==> (#[trigger] work@[r]) as int == capped(
                    old(work)@[r] + cell(matrix(allocation@), r, t as int),
                ),
            forall|r: int| i <= r < n ==> work@[r] == old(work)@[r],
        decreases n - i,
    {
        if i < allocation.len() && t < allocation[i].len() {
            let sum: i128 = work[i] as i128 + allocation[i][t] as i128;
            let kept: isize = if sum > isize::MAX as i128 {
                isize::MAX
            } else {
                sum as isize
            };
            work.set(i, kept);
        }
        i += 1;
    }
}

/// Whether the state is safe: whether there is an order in which all `threads`
/// tasks can finish, each being given what it asks for out of what is free and
/// what the tasks before it held. `work[r]` is what is free of resource `r`,
/// `need[r][t]` what task `t` asks of it and `allocation[r][t]` what task `t`
/// holds of it; missing rows and entries count as zero.
///
/// The answer is found by letting finish, again and again, the first task that
/// can, until none is left or none can.
pub fn is_safe_state(
    need: &Vec<Vec<usize>>,
    work: Vec<isize>,
    allocation: &Vec<Vec<usize>>,
    threads: usize,
) -> (safe: bool)
    requires
        entries_fit(matrix(need@)),
    ensures
        safe == is_safe(ints(work@), matrix(need@), matrix(allocation@), threads as int),
{
    let ghost free = ints(work@);
    let ghost asked = matrix(need@);
    let ghost owned = matrix(allocation@);
    let mut work = work;
    let mut finish: Vec<bool> = Vec::new();
    while finish.len() < threads
        invariant
            finish@.len() <= threads,
            forall|t: int| 0 <= t < finish@.len() ==> !finish@[t],
        decreases threads - finish@.len(),
    {
        finish.push(false);
    }
    let ghost mut done: Seq<int> = Seq::empty();
    proof {
        assert(no_negative_cell(owned));
        assert forall|r: int| 0 <= r < free.len() implies (#[trigger] work@[r]) as int == capped(
            work_after(free, owned, done)[r],
        ) by {}
    }
    loop
        invariant
            asked == matrix(need@),
            owned == matrix(allocation@),
            entries_fit(asked),
            no_negative_cell(owned),
            finish@.len() == threads,
            work@.len() == free.len(),
            can_finish_in_order(free, asked, owned, threads as int, done),
            forall|t: int| 0 <= t < threads ==> finish@[t] == done.contains(t),
            forall|r: int|
                0 <= r < free.len() ==> (#[trigger] work@[r]) as int == capped(
                    work_after(free, owned, done)[r],
                ),
        ensures
            forall|t: int|
                0 <= t < threads && !done.contains(t) ==> !runnable(
                    asked,
                    work_after(free, owned, done),
                    t,
                ),
        decreases threads - done.len(),
    {
        let found = find_thread(need, &work, &finish, threads);
        proof {
            assert forall|t: int| 0 <= t < threads implies runnable(asked, ints(work@), t)
                == runnable(asked, work_after(free, owned, done), t) by {
                lemma_runnable_capped(asked, work_after(free, owned, done), ints(work@), t);
            }
        }
        match found {
            None => {
                break ;
            },
            Some(t) => {
                let ghost before = work@;
                give_back_all(&mut work, allocation, t);
                finish.set(t, true);
                proof {
                    let next = done.push(t as int);
                    lemma_room_for_one_more(done, threads as int, t as int);
                    assert(next.drop_last() == done);
                    assert(!done.contains(t as int));
                    assert(next.no_duplicates());
                    assert forall|i: int| 0 <= i < next.len() implies 0 <= (#[trigger] next[i])
                        < threads by {
                        if i < done.len() {
                            assert(next[i] == done[i]);
                        }
                    }
                    assert forall|k: int| 0 <= k < next.len() implies runnable(
                        asked,
                        work_after(free, owned, #[trigger] next.take(k)),
                        next[k],
                    ) by {
                        if k < done.len() {
                            assert(next.take(k) == done.take(k));
                            assert(next[k] == done[k]);
                        } else {
                            assert(next.take(k) == done);
                            assert(next[k] == t);
                        }
                    }
                    assert forall|u: int| 0 <= u < threads implies finish@[u] == next.contains(
                        u,
                    ) by {
                        if u == t {
                            assert(next[done.len() as int] == u);
                        } else if done.contains(u) {
                            let i = choose|i: int| 0 <= i < done.len() && done[i] == u;
                            assert(next[i] == u);
                        }
                    }
                    assert forall|r: int| 0 <= r < free.len() implies (#[trigger] work@[r]) as int
                        == capped(work_after(free, owned, next)[r]) by {
                        assert(before[r] as int == capped(work_after(free, owned, done)[r]));
                        assert(reclaimed(owned, r, next) == reclaimed(owned, r, done) + cell(
                            owned,
                            r,
                            t as int,
                        ));
                        assert(cell(owned, r, t as int) >= 0);
                    }
                    done = next;
                }
            },
        }
    }
    let all = check_Finish(&finish);
    proof {
        if all {
            assert(is_safe_order(free, asked, owned, threads as int, done));
        } else {
            let left = choose|t: int| 0 <= t < threads && !finish@[t];
            lemma_stuck_is_unsafe(free, asked, owned, threads as int, done, left);
        }
    }
    all
}

/// One unit for the request under test: task `tid` asks for resource `id`.
pub open spec fn asked_now(r: int, t: int, tid: usize, id: usize) -> int {
    if r == id && t == tid {
        1
    } else {
        0
    }
}

/// How many times task `t` is queued for the lock in a slot. An empty slot has
/// no queue.
pub open spec fn lock_waiting(slot: Option<Lock>, t: int) -> int {
    match slot {
        Some(m) => if 0 <= t <= usize::MAX {
            pending(m@.waiters, t as usize) as int
        } else {
            0
        },
        None => 0,
    }
}

/// What task `t` holds of the lock in a slot: one unit if it is the holder.
pub open spec fn lock_held(slot: Option<Lock>, t: int) -> int {
    match slot {
        Some(m) => if m@.owner.is_some() && m@.owner.unwrap() == t {
            1
        } else {
            0
        },
        None => 0,
    }
}

/// What is free of each lock: one unit of a lock that nobody holds, nothing of
/// a lock that is held or of an empty slot.
pub open spec fn lock_work(locks: Seq<Option<Lock>>) -> Seq<int> {
    Seq::new(
        locks.len(),
        |r: int|
            match locks[r] {
                Some(m) => m@.available(),
                None => 0,
            },
    )
}

/// What each of `threads` tasks asks of each lock: one unit each time it is
/// queued for it, and one more for the request under test.
pub open spec fn lock_need(locks: Seq<Option<Lock>>, threads: nat, tid: usize, id: usize) -> Seq<
    Seq<int>,
> {
    Seq::new(
        locks.len(),
        |r: int| Seq::new(threads, |t: int| lock_waiting(locks[r], t) + asked_now(r, t, tid, id)),
    )
}

/// What each of `threads` tasks holds of each lock.
pub open spec fn lock_allocation(locks: Seq<Option<Lock>>, threads: nat) -> Seq<Seq<int>> {
    Seq::new(locks.len(), |r: int| Seq::new(threads, |t: int| lock_held(locks[r], t)))
}

/// How many times task `t` is queued for the semaphore in a slot.
pub open spec fn sem_waiting(slot: Option<Semaphore>, t: int) -> int {
    match slot {
        Some(s) => if 0 <= t <= usize::MAX {
            pending(s@.waiters, t as usize) as int
        } else {
            0
        },
        None => 0,
    }
}

/// Units that task `t` holds of the semaphore in a slot.
pub open spec fn sem_held(slot: Option<Semaphore>, t: int) -> int {
    match slot {
        Some(s) => held(s@.allocation, t),
        None => 0,
    }
}

/// What is free of each semaphore: its count, which is negative while tasks
/// wait for it; nothing of an empty slot.
pub open spec fn sem_work(sems: Seq<Option<Semaphore>>) -> Seq<int> {
    Seq::new(
        sems.len(),
        |r: int|
            match sems[r] {
                Some(s) => s@.count,
                None => 0,
            },
    )
}

/// What each of `threads` tasks asks of each semaphore: one unit each time it
/// is queued for it, and one more for the request under test.
pub open spec fn sem_need(sems: Seq<Option<Semaphore>>, threads: nat, tid: usize, id: usize) -> Seq<
    Seq<int>,
> {
    Seq::new(
        sems.len(),
        |r: int| Seq::new(threads, |t: int| sem_waiting(sems[r], t) + asked_now(r, t, tid, id)),
    )
}

/// What each of `threads` tasks holds of each semaphore.
pub open spec fn sem_allocation(sems: Seq<Option<Semaphore>>, threads: nat) -> Seq<Seq<int>> {
    Seq::new(sems.len(), |r: int| Seq::new(threads, |t: int| sem_held(sems[r], t)))
}

/// Every lock in the table is well formed.
pub open spec fn locks_wf(locks: Seq<Option<Lock>>) -> bool {
    forall|r: int|
        0 <= r < locks.len() ==> ((#[trigger] locks[r]) matches Some(m) ==> m@.wf())
}

/// Every semaphore in the table is well formed.
pub open spec fn sems_wf(sems: Seq<Option<Semaphore>>) -> bool {
    forall|r: int| 0 <= r < sems.len() ==> ((#[trigger] sems[r]) matches Some(s) ==> s@.wf())
}

/// A row that counts the entries of `queue` has, for every task, the number of
/// its entries or, past its end, nothing where the task has none.
proof fn lemma_histogram_cell(hist: Seq<usize>, queue: Seq<usize>, t: usize)
    requires
        is_histogram(hist, queue),
    ensures
        (if t < hist.len() {
            hist[t as int] as int
        } else {
            0
        }) == pending(queue, t),
        pending(queue, t) <= queue.len(),
{
    lemma_pending_le_len(queue, t);
    if t >= hist.len() {
        if queue.contains(t) {
            let i = choose|i: int| 0 <= i < queue.len() && queue[i] == t;
            assert(queue[i] < hist.len());
        }
        lemma_pending_absent(queue, t);
    }
}

/// Work, Need and Allocation of the locks, as they stand.
fn lock_snapshot(locks: &Vec<Option<Lock>>, threads: usize) -> (snap: (
    Vec<isize>,
    Vec<Vec<usize>>,
    Vec<Vec<usize>>,
))
    requires
        locks_wf(locks@),
    ensures
        ints(snap.0@) == lock_work(locks@),
        snap.1@.len() == locks@.len(),
        snap.2@.len() == locks@.len(),
        forall|r: int, t: int|
            0 <= r < locks@.len() ==> #[trigger] cell(matrix(snap.1@), r, t) == lock_waiting(
                locks@[r],
                t,
            ),
        forall|r: int, t: int|
            0 <= r < locks@.len() && 0 <= t < threads ==> #[trigger] cell(matrix(snap.2@), r, t)
                == lock_held(locks@[r], t),
        forall|r: int, t: int|
            0 <= r < locks@.len() ==> #[trigger] lock_waiting(locks@[r], t) < isize::MAX,
{
    let n: usize = locks.len();
    let mut work: Vec<isize> = Vec::new();
    let mut need: Vec<Vec<usize>> = Vec::new();
    let mut allocation: Vec<Vec<usize>> = Vec::new();
    let mut i: usize = 0;
    while i < n
        invariant
            n == locks@.len(),
            i <= n,
            locks_wf(locks@),
            work@.len() == i,
            need@.len() == i,
            allocation@.len() == i,
            forall|r: int| 0 <= r < i ==> (#[trigger] work@[r]) as int == lock_work(locks@)[r],
            forall|r: int, t: int|
                0 <= r < i ==> #[trigger] cell(matrix(need@), r, t) == lock_waiting(locks@[r], t),
            forall|r: int, t: int|
                0 <= r < i && 0 <= t < threads ==> #[trigger] cell(matrix(allocation@), r, t)
                    == lock_held(locks@[r], t),
            forall|r: int, t: int|
                0 <= r < i ==> #[trigger] lock_waiting(locks@[r], t) < isize::MAX,
        decreases n - i,
    {
        let ghost slot = locks@[i as int];
        let ghost old_need = need@;
        let ghost old_allocation = allocation@;
        let mut row: Vec<usize> = Vec::new();
        let mut owned: Vec<usize> = Vec::new();
        match &locks[i] {
            Some(m) => {
                work.push(m.get_count());
                match m.get_waiting_tids() {
                    Some(res) => {
                        row = res;
                    },
                    None => {},
                }
                match m.get_allocate_tid() {
                    Some(owner) => {
                        if owner < threads {
                            count_entry(&mut owned, owner);
                        }
                    },
                    None => {},
                }
                proof {
                    assert(slot == Some(*m));
                    assert(m@.wf());
                    assert(row@.len() == row.len());
                    assert forall|t: int|
                        (if 0 <= t < row@.len() {
                            row@[t] as int
                        } else {
                            0
                        }) == #[trigger] lock_waiting(slot, t) && lock_waiting(slot, t)
                            < isize::MAX by {
                        if 0 <= t <= usize::MAX {
                            if m@.waiters.len() > 0 {
                                assert(is_histogram(row@, m@.waiters));
                                lemma_histogram_cell(row@, m@.waiters, t as usize);
                            } else {
                                assert(row@.len() == 0);
                                lemma_pending_le_len(m@.waiters, t as usize);
                            }
                        }
                    }
                }
            },
            None => {
                work.push(0);
            },
        }
        need.push(row);
        allocation.push(owned);
        proof {
            assert forall|r: int, t: int| 0 <= r < i + 1 implies #[trigger] cell(
                matrix(need@),
                r,
                t,
            ) == lock_waiting(locks@[r], t) by {
                if r < i {
                    assert(need@[r] == old_need[r]);
                    assert(cell(matrix(old_need), r, t) == lock_waiting(locks@[r], t));
                } else {
                    assert(need@[r] == row);
                    assert(lock_waiting(slot, t) == if 0 <= t < row@.len() {
                        row@[t] as int
                    } else {
                        0
                    });
                }
            }
            assert forall|r: int, t: int| 0 <= r < i + 1 && 0 <= t < threads implies #[trigger] cell(
                matrix(allocation@),
                r,
                t,
            ) == lock_held(locks@[r], t) by {
                if r < i {
                    assert(allocation@[r] == old_allocation[r]);
                    assert(cell(matrix(old_allocation), r, t) == lock_held(locks@[r], t));
                } else {
                    assert(allocation@[r] == owned);
                }
            }
            assert forall|r: int, t: int| 0 <= r < i + 1 implies #[trigger] lock_waiting(
                locks@[r],
                t,
            ) < isize::MAX by {
                if r == i {
                    assert(lock_waiting(slot, t) < isize::MAX);
                }
            }
        }
        i += 1;
    }
    assert(ints(work@) =~= lock_work(locks@));
    (work, need, allocation)
}

/// Work, Need and Allocation of the semaphores, as they stand.
fn sem_snapshot(sems: &Vec<Option<Semaphore>>) -> (snap: (
    Vec<isize>,
    Vec<Vec<usize>>,
    Vec<Vec<usize>>,
))
    requires
        sems_wf(sems@),
    ensures
        ints(snap.0@) == sem_work(sems@),
        snap.1@.len() == sems@.len(),
        snap.2@.len() == sems@.len(),
        forall|r: int, t: int|
            0 <= r < sems@.len() ==> #[trigger] cell(matrix(snap.1@), r, t) == sem_waiting(
                sems@[r],
                t,
            ),
        forall|r: int, t: int|
            0 <= r < sems@.len() ==> #[trigger] cell(matrix(snap.2@), r, t) == sem_held(
                sems@[r],
                t,
            ),
        forall|r: int, t: int|
            0 <= r < sems@.len() ==> #[trigger] sem_waiting(sems@[r], t) < isize::MAX,
{
    let n: usize = sems.len();
    let mut work: Vec<isize> = Vec::new();
    let mut need: Vec<Vec<usize>> = Vec::new();
    let mut allocation: Vec<Vec<usize>> = Vec::new();
    let mut i: usize = 0;
    while i < n
        invariant
            n == sems@.len(),
            i <= n,
            sems_wf(sems@),
            work@.len() == i,
            need@.len() == i,
            allocation@.len() == i,
            forall|r: int| 0 <= r < i ==> (#[trigger] work@[r]) as int == sem_work(sems@)[r],
            forall|r: int, t: int|
                0 <= r < i ==> #[trigger] cell(matrix(need@), r, t) == sem_waiting(sems@[r], t),
            forall|r: int, t: int|
                0 <= r < i ==> #[trigger] cell(matrix(allocation@), r, t) == sem_held(sems@[r], t),
            forall|r: int, t: int| 0 <= r < i ==> #[trigger] sem_waiting(sems@[r], t) < isize::MAX,
        decreases n - i,
    {
        let ghost slot = sems@[i as int];
        let ghost old_need = need@;
        let ghost old_allocation = allocation@;
        let mut row: Vec<usize> = Vec::new();
        let mut owned: Vec<usize> = Vec::new();
        match &sems[i] {
            Some(sem) => {
                work.push(sem.get_count());
                match sem.get_waiting_tids() {
                    Some(res) => {
                        row = res;
                    },
                    None => {},
                }
                match sem.get_allocated_tids() {
                    Some(res) => {
                        owned = res;
                    },
                    None => {},
                }
                proof {
                    assert(slot == Some(*sem));
                    assert(sem@.wf());
                    assert(row@.len() == row.len());
                    assert forall|t: int|
                        (if 0 <= t < row@.len() {
                            row@[t] as int
                        } else {
                            0
                        }) == #[trigger] sem_waiting(slot, t) && sem_waiting(slot, t)
                            < isize::MAX by {
                        if 0 <= t <= usize::MAX {
                            if sem@.waiters.len() > 0 {
                                assert(is_histogram(row@, sem@.waiters));
                                lemma_histogram_cell(row@, sem@.waiters, t as usize);
                            } else {
                                assert(row@.len() == 0);
                                lemma_pending_le_len(sem@.waiters, t as usize);
                            }
                        }
                    }
                    assert(owned@.map_values(|x: usize| x as int) == sem@.allocation);
                }
            },
            None => {
                work.push(0);
            },
        }
        need.push(row);
        allocation.push(owned);
        proof {
            assert forall|r: int, t: int| 0 <= r < i + 1 implies #[trigger] cell(
                matrix(need@),
                r,
                t,
            ) == sem_waiting(sems@[r], t) by {
                if r < i {
                    assert(need@[r] == old_need[r]);
                    assert(cell(matrix(old_need), r, t) == sem_waiting(sems@[r], t));
                } else {
                    assert(need@[r] == row);
                    assert(sem_waiting(slot, t) == if 0 <= t < row@.len() {
                        row@[t] as int
                    } else {
                        0
                    });
                }
            }
            assert forall|r: int, t: int| 0 <= r < i + 1 implies #[trigger] cell(
                matrix(allocation@),
                r,
                t,
            ) == sem_held(sems@[r], t) by {
                if r < i {
                    assert(allocation@[r] == old_allocation[r]);
                    assert(cell(matrix(old_allocation), r, t) == sem_held(sems@[r], t));
                } else {
                    assert(allocation@[r] == owned);
                }
            }
            assert forall|r: int, t: int| 0 <= r < i + 1 implies #[trigger] sem_waiting(
                sems@[r],
                t,
            ) < isize::MAX by {
                if r == i {
                    assert(sem_waiting(slot, t) < isize::MAX);
                }
            }
        }
        i += 1;
    }
    assert(ints(work@) =~= sem_work(sems@));
    (work, need, allocation)
}

/// Adds to `need` the unit that task `tid` asks of resource `id`, where there
/// is such a resource and such a task.
fn add_request(need: &mut Vec<Vec<usize>>, threads: usize, tid: usize, id: usize)
    requires
        forall|r: int, t: int| #[trigger] cell(matrix(old(need)@), r, t) < isize::MAX,
    ensures
        final(need)@.len() == old(need)@.len(),
        forall|r: int, t: int|
            0 <= r < old(need)@.len() && 0 <= t < threads ==> #[trigger] cell(
                matrix(final(need)@),
                r,
                t,
            ) == cell(matrix(old(need)@), r, t) + asked_now(r, t, tid, id),
        entries_fit(matrix(final(need)@)),
{
    if id < need.len() && tid < threads {
        assert(cell(matrix(need@), id as int, tid as int) < isize::MAX);
        count_entry(&mut need[id], tid);
        proof {
            assert forall|r: int, t: int| #[trigger] cell(matrix(need@), r, t) <= isize::MAX by {
                if 0 <= r < need@.len() {
                    if r != id {
                        assert(need@[r] == old(need)@[r]);
                    }
                    assert(cell(matrix(old(need)@), r, t) < isize::MAX);
                }
            }
            assert forall|r: int, t: int|
                0 <= r < old(need)@.len() && 0 <= t < threads implies #[trigger] cell(
                matrix(need@),
                r,
                t,
            ) == cell(matrix(old(need)@), r, t) + asked_now(r, t, tid, id) by {
                if r != id {
                    assert(need@[r] == old(need)@[r]);
                }
            }
        }
    } else {
        proof {
            assert forall|r: int, t: int| #[trigger] cell(matrix(need@), r, t) <= isize::MAX by {
                assert(cell(matrix(old(need)@), r, t) < isize::MAX);
            }
        }
    }
}

/// A task, as far as this library knows it: by its id within its process.
#[derive(Clone, Copy, Debug, PartialEq, Eq, Structural)]
pub struct TaskControlBlock {
    pub tid: usize,
}

/// What a process owns: its tasks, its locks, semaphores and condition
/// variables, each kind in a table of its own, and the switch of the deadlock
/// detector.
pub struct ProcessControlBlockInner {
    pub tasks: Vec<Option<TaskControlBlock>>,
    pub mutex_list: ResourceTable<Lock>,
    pub semaphore_list: ResourceTable<Semaphore>,
    pub condvar_list: ResourceTable<Condvar>,
    pub is_enable_deadlock_detection: bool,
}

impl ProcessControlBlockInner {
    /// Every lock and every semaphore of the process is well formed.
    pub open spec fn wf(&self) -> bool {
        &&& locks_wf(self.mutex_list@)
        &&& sems_wf(self.semaphore_list@)
    }

    /// Whether the request of task `tid` for resource `id` leaves the process
    /// in a safe state. The resources are the locks if the process has a lock
    /// table with any slot in it, and `id` is then a lock; only if it has none
    /// are they the semaphores, and `id` a semaphore. A process without either
    /// is safe.
    pub open spec fn request_is_safe(&self, tid: usize, id: usize) -> bool {
        if self.mutex_list@.len() > 0 {
            is_safe(
                lock_work(self.mutex_list@),
                lock_need(self.mutex_list@, self.tasks@.len(), tid, id),
                lock_allocation(self.mutex_list@, self.tasks@.len()),
                self.tasks@.len() as int,
            )
        } else if self.semaphore_list@.len() > 0 {
            is_safe(
                sem_work(self.semaphore_list@),
                sem_need(self.semaphore_list@, self.tasks@.len(), tid, id),
                sem_allocation(self.semaphore_list@, self.tasks@.len()),
                self.tasks@.len() as int,
            )
        } else {
            true
        }
    }

    /// A process without tasks or resources, with the detector switched off.
    pub fn new() -> (p: Self)
        ensures
            p.tasks@.len() == 0,
            p.mutex_list@.len() == 0,
            p.semaphore_list@.len() == 0,
            p.condvar_list@.len() == 0,
            !p.is_enable_deadlock_detection,
            p.wf(),
    {
        ProcessControlBlockInner {
            tasks: Vec::new(),
            mutex_list: ResourceTable::new(),
            semaphore_list: ResourceTable::new(),
            condvar_list: ResourceTable::new(),
            is_enable_deadlock_detection: false,
        }
    }

    /// Number of task slots of the process.
    pub fn thread_count(&self) -> (n: usize)
        ensures
            n == self.tasks@.len(),
    {
        self.tasks.len()
    }

    /// The task with id `tid`.
    pub fn get_task(&self, tid: usize) -> (task: TaskControlBlock)
        requires
            tid < self.tasks@.len(),
            self.tasks@[tid as int].is_some(),
        ensures
            Some(task) == self.tasks@[tid as int],
    {
        self.tasks[tid].unwrap()
    }

    /// Decides whether task `tid` may ask for resource `id`: whether, with one
    /// more unit of `id` asked for by `tid` than the queues show, there is
    /// still an order in which every task can finish. Changes nothing.
    pub fn deadlock_detection(&self, tid: usize, id: usize) -> (safe: bool)
        requires
            self.wf(),
        ensures
            safe == self.request_is_safe(tid, id),
    {
        let l_tasks: usize = self.tasks.len();
        if self.mutex_list.len() > 0 {
            let (work, mut need, allocation) = lock_snapshot(&self.mutex_list.slots, l_tasks);
            add_request(&mut need, l_tasks, tid, id);
            proof {
                lemma_safe_same_cells(
                    ints(work@),
                    matrix(need@),
                    matrix(allocation@),
                    lock_need(self.mutex_list@, l_tasks as nat, tid, id),
                    lock_allocation(self.mutex_list@, l_tasks as nat),
                    l_tasks as int,
                );
            }
            is_safe_state(&need, work, &allocation, l_tasks)
        } else if self.semaphore_list.len() > 0 {
            let (work, mut need, allocation) = sem_snapshot(&self.semaphore_list.slots);
            add_request(&mut need, l_tasks, tid, id);
            proof {
                lemma_safe_same_cells(
                    ints(work@),
                    matrix(need@),
                    matrix(allocation@),
                    sem_need(self.semaphore_list@, l_tasks as nat, tid, id),
                    sem_allocation(self.semaphore_list@, l_tasks as nat),
                    l_tasks as int,
                );
            }
            is_safe_state(&need, work, &allocation, l_tasks)
        } else {
            true
        }
    }
}

/// The detector refuses the request that would close a cycle of two locks.
/// Where task `first` holds one lock and is queued for another, which task
/// `second` holds, `second` may not ask for the lock that `first` holds.
pub proof fn lemma_lock_cycle_is_refused(
    p: ProcessControlBlockInner,
    first: usize,
    second: usize,
    held_by_first: usize,
    held_by_second: usize,
)
    requires
        first < p.tasks@.len(),
        second < p.tasks@.len(),
        first != second,
        occupied(p.mutex_list@, held_by_first),
        occupied(p.mutex_list@, held_by_second),
        p.mutex_list@[held_by_first as int].unwrap()@.owner == Some(first),
        p.mutex_list@[held_by_second as int].unwrap()@.owner == Some(second),
        p.mutex_list@[held_by_second as int].unwrap()@.waiters.contains(first),
    ensures
        !p.request_is_safe(second, held_by_first),
{
    let locks = p.mutex_list@;
    let threads = p.tasks@.len();
    let work = lock_work(locks);
    let need = lock_need(locks, threads, second, held_by_first);
    let allocation = lock_allocation(locks, threads);
    let queue = locks[held_by_second as int].unwrap()@.waiters;
    assert(pending(queue, first) >= 1) by {
        broadcast use vstd::seq_lib::group_to_multiset_ensures;
    }
    assert(cell(need, held_by_second as int, first as int) >= 1);
    assert(cell(need, held_by_first as int, second as int) >= 1);
    assert forall|t: int| t != first implies #[trigger] cell(allocation, held_by_first as int, t)
        <= 0 by {}
    assert forall|t: int| t != second implies #[trigger] cell(
        allocation,
        held_by_second as int,
        t,
    ) <= 0 by {}
    lemma_cycle_is_unsafe(
        work,
        need,
        allocation,
        threads as int,
        first as int,
        second as int,
        held_by_first as int,
        held_by_second as int,
    );
}

/// The detector accepts a request for a semaphore while nobody waits. Where
/// the process has no lock table, no task is queued for any semaphore and no
/// count is negative, task `tid` may ask for semaphore `id` if that has a unit
/// free or another task, `other`, holds one of its units.
pub proof fn lemma_semaphore_request_is_accepted(
    p: ProcessControlBlockInner,
    tid: usize,
    id: usize,
    other: usize,
)
    requires
        p.wf(),
        p.mutex_list@.len() == 0,
        tid < p.tasks@.len(),
        occupied(p.semaphore_list@, id),
        forall|r: int|
            0 <= r < p.semaphore_list@.len() ==> ((#[trigger] p.semaphore_list@[r]) matches Some(s)
                ==> s@.count >= 0 && s@.waiters.len() == 0),
        p.semaphore_list@[id as int].unwrap()@.count >= 1 || (other != tid && other
            < p.tasks@.len() && held(
            p.semaphore_list@[id as int].unwrap()@.allocation,
            other as int,
        ) >= 1),
    ensures
        p.request_is_safe(tid, id),
{
    let sems = p.semaphore_list@;
    let threads = p.tasks@.len();
    let work = sem_work(sems);
    let need = sem_need(sems, threads, tid, id);
    let allocation = sem_allocation(sems, threads);
    let order = others_first(threads as int, tid as int);
    assert forall|r: int, t: int| #[trigger] cell(allocation, r, t) >= 0 by {
        if 0 <= r < sems.len() && 0 <= t < threads {
            assert(sems[r] matches Some(s) ==> s@.wf());
        }
    }
    assert forall|r: int| 0 <= r < work.len() implies (#[trigger] work[r]) >= 0 by {
        assert(sems[r] matches Some(s) ==> s@.count >= 0);
    }
    assert forall|r: int, t: int| 0 <= r < sems.len() && 0 <= t <= usize::MAX implies sem_waiting(
        sems[r],
        t,
    ) == 0 by {
        if let Some(s) = sems[r] {
            lemma_pending_absent(s@.waiters, t as usize);
        }
    }
    assert forall|r: int, t: int| t != tid implies #[trigger] cell(need, r, t) <= 0 by {}
    assert forall|r: int| 0 <= r < work.len() implies #[trigger] cell(need, r, tid as int)
        <= work[r] + reclaimed(allocation, r, order.drop_last()) by {
        lemma_reclaimed_non_negative(allocation, r, order.drop_last());
        if r == id && sems[r].unwrap()@.count < 1 {
            if other < tid {
                assert(order.drop_last()[other as int] == other);
            } else {
                assert(order.drop_last()[other - 1] == other);
            }
            lemma_reclaimed_covers_member(allocation, r, order.drop_last(), other as int);
        }
    }
    lemma_lone_request_is_safe(work, need, allocation, threads as int, tid as int);
}

/// The detector accepts a request for a lock while nobody waits. Where no
/// task is queued for any lock, task `tid` may ask for lock `id` if that is
/// free or held by another task of the process.
pub proof fn lemma_lock_request_is_accepted(p: ProcessControlBlockInner, tid: usize, id: usize)
    requires
        tid < p.tasks@.len(),
        occupied(p.mutex_list@, id),
        forall|r: int|
            0 <= r < p.mutex_list@.len() ==> ((#[trigger] p.mutex_list@[r]) matches Some(m)
                ==> m@.waiters.len() == 0),
        p.mutex_list@[id as int].unwrap()@.owner matches Some(holder) ==> holder != tid && holder
            < p.tasks@.len(),
    ensures
        p.request_is_safe(tid, id),
{
    let locks = p.mutex_list@;
    let threads = p.tasks@.len();
    let work = lock_work(locks);
    let need = lock_need(locks, threads, tid, id);
    let allocation = lock_allocation(locks, threads);
    let order = others_first(threads as int, tid as int);
    assert forall|r: int, t: int| #[trigger] cell(allocation, r, t) >= 0 by {}
    assert forall|r: int, t: int| 0 <= r < locks.len() && 0 <= t <= usize::MAX implies lock_waiting(
        locks[r],
        t,
    ) == 0 by {
        if let Some(m) = locks[r] {
            lemma_pending_absent(m@.waiters, t as usize);
        }
    }
    assert forall|r: int, t: int| t != tid implies #[trigger] cell(need, r, t) <= 0 by {}
    assert forall|r: int| 0 <= r < work.len() implies #[trigger] cell(need, r, tid as int)
        <= work[r] + reclaimed(allocation, r, order.drop_last()) by {
        lemma_reclaimed_non_negative(allocation, r, order.drop_last());
        if r == id {
            if let Some(holder) = locks[r].unwrap()@.owner {
                if holder < tid {
                    assert(order.drop_last()[holder as int] == holder);
                } else {
                    assert(order.drop_last()[holder - 1] == holder);
                }
                lemma_reclaimed_covers_member(allocation, r, order.drop_last(), holder as int);
            }
        }
    }
    lemma_lone_request_is_safe(work, need, allocation, threads as int, tid as int);
}

/// A process: its id, which never changes, and what it owns. What it owns is
/// reached through one exclusive borrow at a time.
pub struct ProcessControlBlock {
    pub pid: usize,
    inner: ProcessControlBlockInner,
}

impl ProcessControlBlock {
    /// What the process owns.
    pub closed spec fn inner(&self) -> ProcessControlBlockInner {
        self.inner
    }

    /// The id of the process.
    pub closed spec fn spec_getpid(&self) -> usize {
        self.pid
    }

    /// A process with id `pid` that owns nothing yet.
    pub fn new(pid: usize) -> (p: Self)
        ensures
            p.getpid() == pid,
            p.inner().wf(),
            p.inner().tasks@.len() == 0,
            p.inner().mutex_list@.len() == 0,
            p.inner().semaphore_list@.len() == 0,
            p.inner().condvar_list@.len() == 0,
            !p.inner().is_enable_deadlock_detection,
    {
        ProcessControlBlock { pid, inner: ProcessControlBlockInner::new() }
    }

    /// Exclusive access to what the process owns.
    pub fn inner_exclusive_access(&mut self) -> (inner: &mut ProcessControlBlockInner)
        ensures
            *inner == old(self).inner(),
            final(self).inner() == *final(inner),
            final(self).getpid() == old(self).getpid(),
    {
        &mut self.inner
    }

    /// The id of the process.
    #[verifier::when_used_as_spec(spec_getpid)]
    pub fn getpid(&self) -> (pid: usize)
        ensures
            pid == self.getpid(),
    {
        self.pid
    }
}

} // verus!
