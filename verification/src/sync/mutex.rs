//! Mutual-exclusion locks: one that spins and one that queues its waiters.

use crate::sched::Suspend;
use crate::sync::waiters::{is_histogram, tally};
use std::collections::VecDeque;
use vstd::prelude::*;

verus! {

/// What a lock is, seen from outside: who holds it and who is queued for it,
/// longest waiting first.
pub struct LockView {
    pub owner: Option<usize>,
    pub waiters: Seq<usize>,
}

impl LockView {
    /// A lock that nobody holds and nobody waits for.
    pub open spec fn free() -> LockView {
        LockView { owner: None, waiters: Seq::empty() }
    }

    /// Units of the lock that can be taken right now: one if it is free, none
    /// if it is held.
    pub open spec fn available(self) -> int {
        if self.owner.is_some() {
            0
        } else {
            1
        }
    }

    /// The state can be held in memory: the queue has a length that a signed
    /// machine word can count, with one to spare, and every queued task id
    /// leaves room for a table indexed by it.
    pub open spec fn fits(self) -> bool {
        &&& self.waiters.len() < isize::MAX
        &&& forall|i: int| 0 <= i < self.waiters.len() ==> (#[trigger] self.waiters[i]) < usize::MAX
    }

    /// What holds of every lock: it fits, and tasks wait only for a lock that
    /// is held.
    pub open spec fn wf(self) -> bool {
        &&& self.fits()
        &&& self.owner.is_none() ==> self.waiters.len() == 0
    }
}

/// Task `tid` asks for the lock. A free lock is taken at once. A held spin lock
/// is left as it is and the caller has to yield and ask again; a held blocking
/// lock puts the caller at the back of its queue and suspends it.
pub open spec fn lock_step(blocking: bool, v: LockView, tid: usize) -> (LockView, Suspend) {
    if v.owner.is_none() {
        (LockView { owner: Some(tid), waiters: v.waiters }, Suspend::Continue)
    } else if blocking {
        (LockView { owner: v.owner, waiters: v.waiters.push(tid) }, Suspend::Block)
    } else {
        (v, Suspend::Yield)
    }
}

/// The lock is released. A spin lock becomes free. A blocking lock passes to
/// the task at the head of its queue, which becomes runnable, and is never free
/// in between; with nobody queued it becomes free.
pub open spec fn unlock_step(blocking: bool, v: LockView) -> (LockView, Option<usize>) {
    if blocking && v.waiters.len() > 0 {
        (
            LockView { owner: Some(v.waiters[0]), waiters: v.waiters.drop_first() },
            Some(v.waiters[0]),
        )
    } else {
        (LockView { owner: None, waiters: v.waiters }, None)
    }
}

/// Whether task `tid` may release the lock. Anyone may release a spin lock,
/// which does not check who holds it; a blocking lock is released by its
/// holder.
pub open spec fn may_unlock(blocking: bool, v: LockView, tid: usize) -> bool {
    blocking ==> v.owner == Some(tid)
}

/// The capability that both kinds of lock offer.
pub trait Mutex {
    /// Holder and queue.
    spec fn view(&self) -> LockView;

    /// Whether waiters are queued and suspended (`true`) or left to spin.
    spec fn blocking(&self) -> bool;

    /// Task `tid` asks for the lock.
    fn lock(&mut self, tid: usize) -> (r: Suspend)
        requires
            lock_step(old(self).blocking(), old(self)@, tid).0.fits(),
        ensures
            final(self).blocking() == old(self).blocking(),
            (final(self)@, r) == lock_step(old(self).blocking(), old(self)@, tid),
            final(self)@.wf(),
    ;

    /// Task `tid` releases the lock. Returns the task that now holds it and has
    /// to be made runnable, if there is one.
    fn unlock(&mut self, tid: usize) -> (woken: Option<usize>)
        requires
            old(self)@.wf(),
            may_unlock(old(self).blocking(), old(self)@, tid),
        ensures
            final(self).blocking() == old(self).blocking(),
            (final(self)@, woken) == unlock_step(old(self).blocking(), old(self)@),
            final(self)@.wf(),
    ;

    /// The task that holds the lock, if it is held.
    fn get_allocate_tid(&self) -> (r: Option<usize>)
        ensures
            r == self@.owner,
    ;

    /// How many times each task is queued for the lock, by task id; `None` if
    /// nobody is queued.
    fn get_waiting_tids(&self) -> (r: Option<Vec<usize>>)
        requires
            self@.wf(),
        ensures
            r.is_some() <==> self@.waiters.len() > 0,
            r matches Some(hist) ==> is_histogram(hist@, self@.waiters),
    ;

    /// Units that can be taken right now: 1 if the lock is free, 0 if not.
    fn get_count(&self) -> (r: isize)
        ensures
            r == self@.available(),
    ;
}

/// A lock whose waiters poll it, yielding the processor between attempts. It
/// keeps no record of them and serves them in no particular order.
pub struct MutexSpin {
    locked: bool,
    allocate_tid: usize,
}

impl MutexSpin {
    /// A free lock.
    pub fn new() -> (m: Self)
        ensures
            m@ == LockView::free(),
            !m.blocking(),
    {
        MutexSpin { locked: false, allocate_tid: 0 }
    }
}

impl Mutex for MutexSpin {
    closed spec fn view(&self) -> LockView {
        LockView {
            owner: if self.locked {
                Some(self.allocate_tid)
            } else {
                None
            },
            waiters: Seq::empty(),
        }
    }

    open spec fn blocking(&self) -> bool {
        false
    }

    fn lock(&mut self, tid: usize) -> (r: Suspend) {
        if self.locked {
            Suspend::Yield
        } else {
            self.locked = true;
            self.allocate_tid = tid;
            Suspend::Continue
        }
    }

    fn unlock(&mut self, tid: usize) -> (woken: Option<usize>) {
        self.locked = false;
        None
    }

    fn get_allocate_tid(&self) -> (r: Option<usize>) {
        if self.locked {
            Some(self.allocate_tid)
        } else {
            None
        }
    }

    fn get_waiting_tids(&self) -> (r: Option<Vec<usize>>) {
        None
    }

    fn get_count(&self) -> (r: isize) {
        if self.locked {
            0
        } else {
            1
        }
    }
}

/// State of a blocking lock.
pub struct MutexBlockingInner {
    locked: bool,
    allocate_tid: usize,
    wait_queue: VecDeque<usize>,
}

/// A lock that queues the tasks waiting for it and hands itself to them in the
/// order in which they came.
pub struct MutexBlocking {
    inner: MutexBlockingInner,
}

impl MutexBlocking {
    /// A free lock with nobody waiting.
    pub fn new() -> (m: Self)
        ensures
            m@ == LockView::free(),
            m.blocking(),
    {
        MutexBlocking {
            inner: MutexBlockingInner { locked: false, allocate_tid: 0, wait_queue: VecDeque::new() },
        }
    }
}

impl Mutex for MutexBlocking {
    closed spec fn view(&self) -> LockView {
        LockView {
            owner: if self.inner.locked {
                Some(self.inner.allocate_tid)
            } else {
                None
            },
            waiters: self.inner.wait_queue@,
        }
    }

    open spec fn blocking(&self) -> bool {
        true
    }

    fn lock(&mut self, tid: usize) -> (r: Suspend) {
        if self.inner.locked {
            self.inner.wait_queue.push_back(tid);
            Suspend::Block
        } else {
            self.inner.locked = true;
            self.inner.allocate_tid = tid;
            Suspend::Continue
        }
    }

    fn unlock(&mut self, tid: usize) -> (woken: Option<usize>) {
        match self.inner.wait_queue.pop_front() {
            Some(waking) => {
                self.inner.allocate_tid = waking;
                Some(waking)
            },
            None => {
                self.inner.locked = false;
                None
            },
        }
    }

    fn get_allocate_tid(&self) -> (r: Option<usize>) {
        if self.inner.locked {
            Some(self.inner.allocate_tid)
        } else {
            None
        }
    }

    fn get_waiting_tids(&self) -> (r: Option<Vec<usize>>) {
        if self.inner.locked {
            if self.inner.wait_queue.len() == 0 {
                None
            } else {
                Some(tally(&self.inner.wait_queue))
            }
        } else {
            None
        }
    }

    fn get_count(&self) -> (r: isize) {
        if self.inner.locked {
            0
        } else {
            1
        }
    }
}

/// A lock of either kind, as the lock table of a process holds it.
pub enum Lock {
    Spin(MutexSpin),
    Blocking(MutexBlocking),
}

impl Lock {
    /// A free lock: blocking if `blocking` is set, spinning if not.
    pub fn new(blocking: bool) -> (m: Self)
        ensures
            m@ == LockView::free(),
            m.blocking() == blocking,
    {
        if blocking {
            Lock::Blocking(MutexBlocking::new())
        } else {
            Lock::Spin(MutexSpin::new())
        }
    }

    /// Whether this is a blocking lock.
    pub fn is_blocking(&self) -> (r: bool)
        ensures
            r == self.blocking(),
    {
        match self {
            Lock::Spin(_) => false,
            Lock::Blocking(_) => true,
        }
    }
}

impl Mutex for Lock {
    open spec fn view(&self) -> LockView {
        match self {
            Lock::Spin(m) => m@,
            Lock::Blocking(m) => m@,
        }
    }

    open spec fn blocking(&self) -> bool {
        self is Blocking
    }

    fn lock(&mut self, tid: usize) -> (r: Suspend) {
        match self {
            Lock::Spin(m) => m.lock(tid),
            Lock::Blocking(m) => m.lock(tid),
        }
    }

    fn unlock(&mut self, tid: usize) -> (woken: Option<usize>) {
        match self {
            Lock::Spin(m) => m.unlock(tid),
            Lock::Blocking(m) => m.unlock(tid),
        }
    }

    fn get_allocate_tid(&self) -> (r: Option<usize>) {
        match self {
            Lock::Spin(m) => m.get_allocate_tid(),
            Lock::Blocking(m) => m.get_allocate_tid(),
        }
    }

    fn get_waiting_tids(&self) -> (r: Option<Vec<usize>>) {
        match self {
            Lock::Spin(m) => m.get_waiting_tids(),
            Lock::Blocking(m) => m.get_waiting_tids(),
        }
    }

    fn get_count(&self) -> (r: isize) {
        match self {
            Lock::Spin(m) => m.get_count(),
            Lock::Blocking(m) => m.get_count(),
        }
    }
}

/// One request made of a lock, with the task that makes it.
pub enum LockOp {
    Lock(usize),
    Unlock(usize),
}

/// The lock after one request.
pub open spec fn lock_apply(blocking: bool, v: LockView, op: LockOp) -> LockView {
    match op {
        LockOp::Lock(tid) => lock_step(blocking, v, tid).0,
        LockOp::Unlock(_) => unlock_step(blocking, v).0,
    }
}

/// The lock after the requests `ops`, made one after the other.
pub open spec fn lock_run(blocking: bool, v: LockView, ops: Seq<LockOp>) -> LockView
    decreases ops.len(),
{
    if ops.len() == 0 {
        v
    } else {
        lock_apply(blocking, lock_run(blocking, v, ops.drop_last()), ops.last())
    }
}

/// Every release among `ops` is made by the task that holds the lock at that
/// moment.
pub open spec fn released_by_holder(blocking: bool, v: LockView, ops: Seq<LockOp>) -> bool {
    forall|i: int|
        0 <= i < ops.len() ==> ((#[trigger] ops[i]) matches LockOp::Unlock(tid) ==> lock_run(
            blocking,
            v,
            ops.take(i),
        ).owner == Some(tid))
}

/// The tasks that have queued for the lock, first come first: those that were
/// queued at the start, then each task that a request among `ops` suspended.
pub open spec fn lock_arrivals(blocking: bool, v: LockView, ops: Seq<LockOp>) -> Seq<usize>
    decreases ops.len(),
{
    if ops.len() == 0 {
        v.waiters
    } else {
        let before = lock_run(blocking, v, ops.drop_last());
        let earlier = lock_arrivals(blocking, v, ops.drop_last());
        match ops.last() {
            LockOp::Lock(tid) => if lock_step(blocking, before, tid).1 == Suspend::Block {
                earlier.push(tid)
            } else {
                earlier
            },
            LockOp::Unlock(_) => earlier,
        }
    }
}

/// The tasks that releases among `ops` handed the lock to, in the order in
/// which they got it.
pub open spec fn lock_wakeups(blocking: bool, v: LockView, ops: Seq<LockOp>) -> Seq<usize>
    decreases ops.len(),
{
    if ops.len() == 0 {
        Seq::empty()
    } else {
        let before = lock_run(blocking, v, ops.drop_last());
        let earlier = lock_wakeups(blocking, v, ops.drop_last());
        match ops.last() {
            LockOp::Lock(_) => earlier,
            LockOp::Unlock(_) => match unlock_step(blocking, before).1 {
                Some(tid) => earlier.push(tid),
                None => earlier,
            },
        }
    }
}

/// A lock has one holder at most, and no request for the lock takes it from the
/// task that holds it: a hold ends only with a release.
pub proof fn lemma_hold_ends_with_release(blocking: bool, v: LockView, op: LockOp)
    requires
        v.owner.is_some(),
        lock_apply(blocking, v, op).owner != v.owner,
    ensures
        op is Unlock,
{
}

/// Mutual exclusion. A task that holds a lock goes on holding it, whatever
/// requests the other tasks make and in whatever order, until it releases the
/// lock itself: no other task comes to hold the lock in between. Releases are
/// taken to come from the holder, which a blocking lock demands and a spin lock
/// does not check.
pub proof fn lemma_mutual_exclusion(blocking: bool, v: LockView, ops: Seq<LockOp>, holder: usize)
    requires
        v.owner == Some(holder),
        released_by_holder(blocking, v, ops),
        forall|i: int| 0 <= i < ops.len() ==> ops[i] != LockOp::Unlock(holder),
    ensures
        lock_run(blocking, v, ops).owner == Some(holder),
    decreases ops.len(),
{
    if ops.len() > 0 {
        let init = ops.drop_last();
        assert forall|i: int| 0 <= i < init.len() implies ((#[trigger] init[i]) matches LockOp::Unlock(
            tid,
        ) ==> lock_run(blocking, v, init.take(i)).owner == Some(tid)) by {
            assert(init.take(i) == ops.take(i));
            assert(init[i] == ops[i]);
        }
        lemma_mutual_exclusion(blocking, v, init, holder);
        let last = ops.len() - 1;
        assert(ops.take(last) == init);
        assert(ops[last] == ops.last());
    }
}

/// A lock that is well formed stays so under any requests that fit in memory.
pub proof fn lemma_lock_step_wf(blocking: bool, v: LockView, tid: usize)
    requires
        v.wf(),
        blocking || v.waiters.len() == 0,
    ensures
        lock_step(blocking, v, tid).0.fits() ==> lock_step(blocking, v, tid).0.wf(),
        unlock_step(blocking, v).0.wf(),
{
}

/// A queue in which no task stands twice stays so, as long as no task asks for
/// the lock while it is already queued for it.
pub proof fn lemma_queue_without_duplicates(blocking: bool, v: LockView, tid: usize)
    requires
        v.waiters.no_duplicates(),
    ensures
        !v.waiters.contains(tid) ==> lock_step(blocking, v, tid).0.waiters.no_duplicates(),
        unlock_step(blocking, v).0.waiters.no_duplicates(),
{
    if !v.waiters.contains(tid) {
        let after = v.waiters.push(tid);
        assert forall|i: int, j: int| 0 <= i < after.len() && 0 <= j < after.len() && i != j implies after[i]
            != after[j] by {
            if i < v.waiters.len() && j < v.waiters.len() {
                assert(v.waiters[i] != v.waiters[j]);
            } else if i < v.waiters.len() {
                assert(v.waiters.contains(v.waiters[i]));
            } else {
                assert(v.waiters.contains(v.waiters[j]));
            }
        }
    }
    if v.waiters.len() > 0 {
        let rest = v.waiters.drop_first();
        assert forall|i: int, j: int| 0 <= i < rest.len() && 0 <= j < rest.len() && i != j implies rest[i]
            != rest[j] by {
            assert(v.waiters[i + 1] != v.waiters[j + 1]);
        }
    }
}

/// First come, first served. The tasks that were handed the lock are the
/// first of those that queued for it, in the order in which they queued, and
/// the rest are still queued in that order. So of two tasks queued for the
/// same lock, the one that came first is never woken after the other.
pub proof fn lemma_lock_fifo(blocking: bool, v: LockView, ops: Seq<LockOp>)
    ensures
        lock_wakeups(blocking, v, ops).len() <= lock_arrivals(blocking, v, ops).len(),
        lock_wakeups(blocking, v, ops) == lock_arrivals(blocking, v, ops).take(
            lock_wakeups(blocking, v, ops).len() as int,
        ),
        lock_run(blocking, v, ops).waiters == lock_arrivals(blocking, v, ops).skip(
            lock_wakeups(blocking, v, ops).len() as int,
        ),
    decreases ops.len(),
{
    if ops.len() > 0 {
        lemma_lock_fifo(blocking, v, ops.drop_last());
    }
}

} // verus!
