//! Condition variables: a queue of tasks that wait to be signalled, used
//! together with a lock.

use crate::sync::mutex::{may_unlock, unlock_step, Mutex};
use std::collections::VecDeque;
use vstd::prelude::*;

verus! {

/// State of a condition variable.
pub struct CondvarInner {
    pub wait_queue: VecDeque<usize>,
}

/// A condition variable. Its waiters are signalled first come, first served.
pub struct Condvar {
    pub inner: CondvarInner,
}

impl Condvar {
    /// The waiting tasks, longest waiting first.
    pub open spec fn view(&self) -> Seq<usize> {
        self.inner.wait_queue@
    }

    /// A condition variable with nobody waiting.
    pub fn new() -> (c: Self)
        ensures
            c@ == Seq::<usize>::empty(),
    {
        Condvar { inner: CondvarInner { wait_queue: VecDeque::new() } }
    }

    /// Releases the waiter at the head of the queue, if there is one, and
    /// returns it: it has to be made runnable.
    pub fn signal(&mut self) -> (woken: Option<usize>)
        ensures
            old(self)@.len() == 0 ==> woken.is_none() && final(self)@ == old(self)@,
            old(self)@.len() > 0 ==> woken == Some(old(self)@[0]) && final(self)@ == old(
                self,
            )@.drop_first(),
    {
        let woken = self.inner.wait_queue.pop_front();
        assert(old(self)@.len() > 0 ==> self@ =~= old(self)@.drop_first());
        woken
    }

    /// Task `tid` starts to wait: it releases `mutex` and joins the back of the
    /// queue. Returns the task that the release handed the lock to, which has
    /// to be made runnable. The caller is to be suspended, and has to ask for
    /// `mutex` again once it runs again.
    pub fn wait<M: Mutex>(&mut self, mutex: &mut M, tid: usize) -> (woken: Option<usize>)
        requires
            old(mutex)@.wf(),
            may_unlock(old(mutex).blocking(), old(mutex)@, tid),
        ensures
            final(self)@ == old(self)@.push(tid),
            final(mutex).blocking() == old(mutex).blocking(),
            (final(mutex)@, woken) == unlock_step(old(mutex).blocking(), old(mutex)@),
            final(mutex)@.wf(),
    {
        let woken = mutex.unlock(tid);
        self.inner.wait_queue.push_back(tid);
        woken
    }
}

} // verus!
