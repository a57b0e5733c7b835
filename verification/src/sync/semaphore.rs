//! Counting semaphores.

use crate::sched::Suspend;
use crate::sync::waiters::{count_entry, is_histogram, tally};
use std::collections::VecDeque;
use vstd::prelude::*;

verus! {

/// What a semaphore is, seen from outside.
pub struct SemaphoreView {
    /// Units that can still be taken; below zero, demand that is not met.
    pub count: int,
    /// The suspended tasks, longest waiting first.
    pub waiters: Seq<usize>,
    /// Units held, by task id. The table is as long as the largest task id
    /// that was ever granted a unit requires.
    pub allocation: Seq<int>,
}

/// Units that task `tid` holds according to the table `allocation`.
pub open spec fn held(allocation: Seq<int>, tid: int) -> int {
    if 0 <= tid < allocation.len() {
        allocation[tid]
    } else {
        0
    }
}

/// The table after task `tid` was granted one more unit. The table grows as
/// far as it must to have an entry for `tid`.
pub open spec fn grant(allocation: Seq<int>, tid: usize) -> Seq<int> {
    Seq::new(
        if allocation.len() > tid {
            allocation.len()
        } else {
            (tid + 1) as nat
        },
        |t: int|
            held(allocation, t) + if t == tid {
                1int
            } else {
                0int
            },
    )
}

/// The table after task `tid` gave a unit back, if it held one.
pub open spec fn give_back(allocation: Seq<int>, tid: usize) -> Seq<int> {
    if held(allocation, tid as int) > 0 {
        allocation.update(tid as int, allocation[tid as int] - 1)
    } else {
        allocation
    }
}

/// Sum of the entries of a table.
pub open spec fn total(allocation: Seq<int>) -> int
    decreases allocation.len(),
{
    if allocation.len() == 0 {
        0
    } else {
        total(allocation.drop_last()) + allocation.last()
    }
}

impl SemaphoreView {
    /// A semaphore with `count` units, nobody waiting and nothing handed out.
    pub open spec fn fresh(count: int) -> SemaphoreView {
        SemaphoreView { count, waiters: Seq::empty(), allocation: Seq::empty() }
    }

    /// The state can be held in memory and no task holds a negative number of
    /// units.
    pub open spec fn wf(self) -> bool {
        &&& isize::MIN <= self.count <= isize::MAX
        &&& self.waiters.len() < isize::MAX
        &&& forall|i: int| 0 <= i < self.waiters.len() ==> (#[trigger] self.waiters[i]) < usize::MAX
        &&& self.allocation.len() <= usize::MAX
        &&& forall|t: int|
            0 <= t < self.allocation.len() ==> 0 <= (#[trigger] self.allocation[t]) <= usize::MAX
    }
}

/// Task `tid` gives a unit to the semaphore. The count goes up by one, and the
/// caller's entry in the table goes down by one if it held a unit. If the new
/// count is not positive and a task waits, the one at the head of the queue
/// leaves it, is granted a unit and becomes runnable.
pub open spec fn sem_up(v: SemaphoreView, tid: usize) -> (SemaphoreView, Option<usize>) {
    let count = v.count + 1;
    let allocation = give_back(v.allocation, tid);
    if count <= 0 && v.waiters.len() > 0 {
        (
            SemaphoreView {
                count,
                waiters: v.waiters.drop_first(),
                allocation: grant(allocation, v.waiters[0]),
            },
            Some(v.waiters[0]),
        )
    } else {
        (SemaphoreView { count, waiters: v.waiters, allocation }, None)
    }
}

/// Task `tid` asks the semaphore for a unit. The count goes down by one. If it
/// is then negative the caller joins the back of the queue and is suspended;
/// if not, the caller is granted a unit at once.
pub open spec fn sem_down(v: SemaphoreView, tid: usize) -> (SemaphoreView, Suspend) {
    let count = v.count - 1;
    if count < 0 {
        (
            SemaphoreView { count, waiters: v.waiters.push(tid), allocation: v.allocation },
            Suspend::Block,
        )
    } else {
        (
            SemaphoreView { count, waiters: v.waiters, allocation: grant(v.allocation, tid) },
            Suspend::Continue,
        )
    }
}

/// The count that a semaphore created for `res_count` units starts with: the
/// number itself while a signed machine word holds it, and beyond that the
/// negative number with the same bit pattern.
pub open spec fn initial_count(res_count: usize) -> int {
    if res_count <= isize::MAX {
        res_count as int
    } else {
        res_count - usize::MAX - 1
    }
}

/// State of a semaphore.
pub struct SemaphoreInner {
    pub count: isize,
    pub wait_queue: VecDeque<usize>,
    pub allocated_queue: Vec<usize>,
}

/// A counting semaphore with a queue of waiters, served first come first, and
/// a table of the units each task holds.
pub struct Semaphore {
    pub inner: SemaphoreInner,
}

/// Grants task `tid` one more unit in `table`.
fn grant_unit(table: &mut Vec<usize>, tid: usize)
    requires
        tid < usize::MAX,
        held(old(table)@.map_values(|x: usize| x as int), tid as int) < usize::MAX,
    ensures
        final(table)@.map_values(|x: usize| x as int) == grant(
            old(table)@.map_values(|x: usize| x as int),
            tid,
        ),
{
    count_entry(table, tid);
    assert(table@.map_values(|x: usize| x as int) =~= grant(
        old(table)@.map_values(|x: usize| x as int),
        tid,
    ));
}

impl Semaphore {
    /// Count, queue and table.
    pub open spec fn view(&self) -> SemaphoreView {
        SemaphoreView {
            count: self.inner.count as int,
            waiters: self.inner.wait_queue@,
            allocation: self.inner.allocated_queue@.map_values(|x: usize| x as int),
        }
    }

    /// A semaphore for `res_count` units.
    pub fn new(res_count: usize) -> (s: Self)
        ensures
            s@ == SemaphoreView::fresh(initial_count(res_count)),
            s@.wf(),
    {
        let count: isize = if res_count <= isize::MAX as usize {
            res_count as isize
        } else {
            let short: usize = usize::MAX - res_count;
            -1 - (short as isize)
        };
        let s = Semaphore {
            inner: SemaphoreInner { count, wait_queue: VecDeque::new(), allocated_queue: Vec::new() },
        };
        assert(s@.allocation =~= Seq::<int>::empty());
        s
    }

    /// Task `tid` gives a unit to the semaphore. Returns the waiter that was
    /// granted a unit and has to be made runnable, if there is one.
    pub fn up(&mut self, tid: usize) -> (woken: Option<usize>)
        requires
            sem_up(old(self)@, tid).0.wf(),
        ensures
            (final(self)@, woken) == sem_up(old(self)@, tid),
    {
        self.inner.count += 1;
        if tid < self.inner.allocated_queue.len() && self.inner.allocated_queue[tid] > 0 {
            let c: usize = self.inner.allocated_queue[tid];
            self.inner.allocated_queue.set(tid, c - 1);
        }
        assert(self@.allocation =~= give_back(old(self)@.allocation, tid));
        if self.inner.count <= 0 {
            match self.inner.wait_queue.pop_front() {
                Some(task_tid) => {
                    proof {
                        let after = grant(self@.allocation, task_tid);
                        assert(after[task_tid as int] == held(self@.allocation, task_tid as int) + 1);
                    }
                    grant_unit(&mut self.inner.allocated_queue, task_tid);
                    assert(self@.waiters =~= old(self)@.waiters.drop_first());
                    Some(task_tid)
                },
                None => None,
            }
        } else {
            None
        }
    }

    /// Task `tid` asks for a unit. Returns whether the caller goes on or is
    /// suspended until a unit is given to it.
    pub fn down(&mut self, tid: usize) -> (r: Suspend)
        requires
            sem_down(old(self)@, tid).0.wf(),
        ensures
            (final(self)@, r) == sem_down(old(self)@, tid),
    {
        self.inner.count -= 1;
        if self.inner.count < 0 {
            self.inner.wait_queue.push_back(tid);
            Suspend::Block
        } else {
            proof {
                let after = grant(self@.allocation, tid);
                assert(after.len() > tid);
                assert(after[tid as int] == held(self@.allocation, tid as int) + 1);
            }
            grant_unit(&mut self.inner.allocated_queue, tid);
            Suspend::Continue
        }
    }

    /// Units that can still be taken; below zero, demand that is not met.
    pub fn get_count(&self) -> (r: isize)
        ensures
            r == self@.count,
    {
        self.inner.count
    }

    /// Units held, by task id; `None` while no task was ever granted one.
    pub fn get_allocated_tids(&self) -> (r: Option<Vec<usize>>)
        ensures
            r.is_some() <==> self@.allocation.len() > 0,
            r matches Some(table) ==> table@.map_values(|x: usize| x as int) == self@.allocation,
    {
        if self.inner.allocated_queue.len() > 0 {
            let table = self.inner.allocated_queue.clone();
            assert(table@ =~= self.inner.allocated_queue@);
            Some(table)
        } else {
            None
        }
    }

    /// How many times each task is queued, by task id; `None` if nobody is
    /// queued.
    pub fn get_waiting_tids(&self) -> (r: Option<Vec<usize>>)
        requires
            self@.wf(),
        ensures
            r.is_some() <==> self@.waiters.len() > 0,
            r matches Some(hist) ==> is_histogram(hist@, self@.waiters),
    {
        if self.inner.wait_queue.len() > 0 {
            Some(tally(&self.inner.wait_queue))
        } else {
            None
        }
    }
}

/// One request made of a semaphore, with the task that makes it.
pub enum SemOp {
    Up(usize),
    Down(usize),
}

/// The semaphore after one request.
pub open spec fn sem_apply(v: SemaphoreView, op: SemOp) -> SemaphoreView {
    match op {
        SemOp::Up(tid) => sem_up(v, tid).0,
        SemOp::Down(tid) => sem_down(v, tid).0,
    }
}

/// The semaphore after the requests `ops`, made one after the other.
pub open spec fn sem_run(v: SemaphoreView, ops: Seq<SemOp>) -> SemaphoreView
    decreases ops.len(),
{
    if ops.len() == 0 {
        v
    } else {
        sem_apply(sem_run(v, ops.drop_last()), ops.last())
    }
}

/// Number of `up` requests among `ops`.
pub open spec fn ups(ops: Seq<SemOp>) -> nat
    decreases ops.len(),
{
    if ops.len() == 0 {
        0
    } else {
        ups(ops.drop_last()) + if ops.last() is Up {
            1nat
        } else {
            0nat
        }
    }
}

/// Number of `down` requests among `ops`.
pub open spec fn downs(ops: Seq<SemOp>) -> nat
    decreases ops.len(),
{
    if ops.len() == 0 {
        0
    } else {
        downs(ops.drop_last()) + if ops.last() is Down {
            1nat
        } else {
            0nat
        }
    }
}

/// Number of units granted while `ops` ran: one for each `down` that was met
/// at once and one for each waiter that an `up` released.
pub open spec fn grants(v: SemaphoreView, ops: Seq<SemOp>) -> nat
    decreases ops.len(),
{
    if ops.len() == 0 {
        0
    } else {
        let before = sem_run(v, ops.drop_last());
        grants(v, ops.drop_last()) + match ops.last() {
            SemOp::Up(tid) => if sem_up(before, tid).1.is_some() {
                1nat
            } else {
                0nat
            },
            SemOp::Down(tid) => if sem_down(before, tid).1 == Suspend::Continue {
                1nat
            } else {
                0nat
            },
        }
    }
}

/// Number of units given back while `ops` ran: one for each `up` whose caller
/// held a unit.
pub open spec fn handed_back(v: SemaphoreView, ops: Seq<SemOp>) -> nat
    decreases ops.len(),
{
    if ops.len() == 0 {
        0
    } else {
        let before = sem_run(v, ops.drop_last());
        handed_back(v, ops.drop_last()) + match ops.last() {
            SemOp::Up(tid) => if held(before.allocation, tid as int) > 0 {
                1nat
            } else {
                0nat
            },
            SemOp::Down(_) => 0nat,
        }
    }
}

/// Every `up` among `ops` is made by a task that holds a unit at that moment.
pub open spec fn ups_by_holders(v: SemaphoreView, ops: Seq<SemOp>) -> bool {
    forall|i: int|
        0 <= i < ops.len() ==> ((#[trigger] ops[i]) matches SemOp::Up(tid) ==> held(
            sem_run(v, ops.take(i)).allocation,
            tid as int,
        ) > 0)
}

/// The tasks that have queued for the semaphore, first come first: those that
/// were queued at the start, then each task that a `down` among `ops`
/// suspended.
pub open spec fn sem_arrivals(v: SemaphoreView, ops: Seq<SemOp>) -> Seq<usize>
    decreases ops.len(),
{
    if ops.len() == 0 {
        v.waiters
    } else {
        let before = sem_run(v, ops.drop_last());
        let earlier = sem_arrivals(v, ops.drop_last());
        match ops.last() {
            SemOp::Down(tid) => if sem_down(before, tid).1 == Suspend::Block {
                earlier.push(tid)
            } else {
                earlier
            },
            SemOp::Up(_) => earlier,
        }
    }
}

/// The waiters that an `up` among `ops` released, in the order of their
/// release.
pub open spec fn sem_wakeups(v: SemaphoreView, ops: Seq<SemOp>) -> Seq<usize>
    decreases ops.len(),
{
    if ops.len() == 0 {
        Seq::empty()
    } else {
        let before = sem_run(v, ops.drop_last());
        let earlier = sem_wakeups(v, ops.drop_last());
        match ops.last() {
            SemOp::Down(_) => earlier,
            SemOp::Up(tid) => match sem_up(before, tid).1 {
                Some(woken) => earlier.push(woken),
                None => earlier,
            },
        }
    }
}

/// Changing one entry of a table changes the sum by as much.
proof fn lemma_total_update(allocation: Seq<int>, t: int, x: int)
    requires
        0 <= t < allocation.len(),
    ensures
        total(allocation.update(t, x)) == total(allocation) - allocation[t] + x,
    decreases allocation.len(),
{
    let last = allocation.len() - 1;
    if t == last {
        assert(allocation.update(t, x).drop_last() == allocation.drop_last());
    } else {
        assert(allocation.update(t, x).drop_last() == allocation.drop_last().update(t, x));
        lemma_total_update(allocation.drop_last(), t, x);
    }
}

/// Appending zeros to a table leaves the sum as it is.
proof fn lemma_total_padding(allocation: Seq<int>, len: nat)
    requires
        allocation.len() <= len,
    ensures
        total(Seq::new(len, |t: int| held(allocation, t))) == total(allocation),
    decreases len - allocation.len(),
{
    let padded = Seq::new(len, |t: int| held(allocation, t));
    if len == allocation.len() {
        assert(padded == allocation);
    } else {
        let shorter = Seq::new((len - 1) as nat, |t: int| held(allocation, t));
        assert(padded.drop_last() == shorter);
        lemma_total_padding(allocation, (len - 1) as nat);
    }
}

/// Granting a unit adds one to the sum of the table.
proof fn lemma_total_grant(allocation: Seq<int>, tid: usize)
    ensures
        total(grant(allocation, tid)) == total(allocation) + 1,
{
    let len: nat = if allocation.len() > tid {
        allocation.len()
    } else {
        (tid + 1) as nat
    };
    let padded = Seq::new(len, |t: int| held(allocation, t));
    lemma_total_padding(allocation, len);
    assert(grant(allocation, tid) == padded.update(tid as int, padded[tid as int] + 1));
    lemma_total_update(padded, tid as int, padded[tid as int] + 1);
}

/// Giving a unit back takes one from the sum of the table if the task held
/// one, and changes nothing if it did not.
proof fn lemma_total_give_back(allocation: Seq<int>, tid: usize)
    ensures
        total(give_back(allocation, tid)) == total(allocation) - if held(allocation, tid as int)
            > 0 {
            1int
        } else {
            0int
        },
{
    if held(allocation, tid as int) > 0 {
        lemma_total_update(allocation, tid as int, allocation[tid as int] - 1);
    }
}

/// Conservation of the count. After any requests the count is what it was,
/// plus the number of `up`s, minus the number of `down`s.
pub proof fn lemma_count_conservation(v: SemaphoreView, ops: Seq<SemOp>)
    ensures
        sem_run(v, ops).count == v.count + ups(ops) - downs(ops),
    decreases ops.len(),
{
    if ops.len() > 0 {
        lemma_count_conservation(v, ops.drop_last());
    }
}

/// Conservation of the units handed out. After any requests the sum of the
/// table is what it was, plus the units granted, minus the units given back.
pub proof fn lemma_allocation_conservation(v: SemaphoreView, ops: Seq<SemOp>)
    ensures
        total(sem_run(v, ops).allocation) == total(v.allocation) + grants(v, ops) - handed_back(
            v,
            ops,
        ),
    decreases ops.len(),
{
    if ops.len() > 0 {
        lemma_allocation_conservation(v, ops.drop_last());
        let before = sem_run(v, ops.drop_last());
        match ops.last() {
            SemOp::Up(tid) => {
                lemma_total_give_back(before.allocation, tid);
                if before.waiters.len() > 0 {
                    lemma_total_grant(give_back(before.allocation, tid), before.waiters[0]);
                }
            },
            SemOp::Down(tid) => {
                lemma_total_grant(before.allocation, tid);
            },
        }
    }
}

/// Where every `up` comes from a task that holds a unit, each `up` gives one
/// back.
proof fn lemma_handed_back_are_ups(v: SemaphoreView, ops: Seq<SemOp>)
    requires
        ups_by_holders(v, ops),
    ensures
        handed_back(v, ops) == ups(ops),
    decreases ops.len(),
{
    if ops.len() > 0 {
        let init = ops.drop_last();
        assert forall|i: int| 0 <= i < init.len() implies ((#[trigger] init[i]) matches SemOp::Up(
            tid,
        ) ==> held(sem_run(v, init.take(i)).allocation, tid as int) > 0) by {
            assert(init.take(i) == ops.take(i));
            assert(init[i] == ops[i]);
        }
        lemma_handed_back_are_ups(v, init);
        let last = ops.len() - 1;
        assert(ops.take(last) == init);
        assert(ops[last] == ops.last());
    }
}

/// Conservation, for a semaphore that starts with nothing handed out and on
/// which only holders call `up`: the sum of the table is the number of units
/// granted minus the number of `up`s.
pub proof fn lemma_semaphore_conservation(v: SemaphoreView, ops: Seq<SemOp>)
    requires
        total(v.allocation) == 0,
        ups_by_holders(v, ops),
    ensures
        sem_run(v, ops).count == v.count + ups(ops) - downs(ops),
        total(sem_run(v, ops).allocation) == grants(v, ops) - ups(ops),
{
    lemma_count_conservation(v, ops);
    lemma_allocation_conservation(v, ops);
    lemma_handed_back_are_ups(v, ops);
}

/// No entry of the table is negative.
pub open spec fn non_negative(allocation: Seq<int>) -> bool {
    forall|t: int| 0 <= t < allocation.len() ==> (#[trigger] allocation[t]) >= 0
}

/// No task ever holds a negative number of units: if that is so at the start,
/// it is so after any requests.
pub proof fn lemma_allocation_never_negative(v: SemaphoreView, ops: Seq<SemOp>)
    requires
        non_negative(v.allocation),
    ensures
        non_negative(sem_run(v, ops).allocation),
    decreases ops.len(),
{
    if ops.len() > 0 {
        lemma_allocation_never_negative(v, ops.drop_last());
        let before = sem_run(v, ops.drop_last()).allocation;
        match ops.last() {
            SemOp::Up(tid) => {
                let middle = give_back(before, tid);
                assert(non_negative(middle));
                assert forall|w: usize| non_negative(#[trigger] grant(middle, w)) by {
                    assert forall|t: int| 0 <= t < grant(middle, w).len() implies (#[trigger] grant(
                        middle,
                        w,
                    )[t]) >= 0 by {
                        assert(held(middle, t) >= 0);
                    }
                }
            },
            SemOp::Down(tid) => {
                assert forall|t: int| 0 <= t < grant(before, tid).len() implies (#[trigger] grant(
                    before,
                    tid,
                )[t]) >= 0 by {
                    assert(held(before, t) >= 0);
                }
            },
        }
    }
}

/// Demand that the semaphore has not met: what its count is below zero.
pub open spec fn unmet(v: SemaphoreView) -> int {
    if v.count < 0 {
        -v.count
    } else {
        0
    }
}

/// The count tracks the queue. Where the number of waiters is the demand that
/// is not met, as it is for a new semaphore with a count that is not negative,
/// it stays so after any requests. On such a semaphore an `up` that leaves the
/// count at zero or below always finds a waiter to release.
pub proof fn lemma_waiters_are_unmet_demand(v: SemaphoreView, ops: Seq<SemOp>)
    requires
        v.waiters.len() == unmet(v),
    ensures
        sem_run(v, ops).waiters.len() == unmet(sem_run(v, ops)),
    decreases ops.len(),
{
    if ops.len() > 0 {
        lemma_waiters_are_unmet_demand(v, ops.drop_last());
    }
}

/// First come, first served. The waiters that were released are the first of
/// the tasks that queued, in the order in which they queued, and the rest are
/// still queued in that order. So of two tasks suspended on the same
/// semaphore, the one that came first is never released after the other.
pub proof fn lemma_sem_fifo(v: SemaphoreView, ops: Seq<SemOp>)
    ensures
        sem_wakeups(v, ops).len() <= sem_arrivals(v, ops).len(),
        sem_wakeups(v, ops) == sem_arrivals(v, ops).take(sem_wakeups(v, ops).len() as int),
        sem_run(v, ops).waiters == sem_arrivals(v, ops).skip(sem_wakeups(v, ops).len() as int),
    decreases ops.len(),
{
    if ops.len() > 0 {
        lemma_sem_fifo(v, ops.drop_last());
    }
}

} // verus!
