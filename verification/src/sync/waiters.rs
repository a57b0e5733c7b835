//! Counting the entries of a wait queue by task.

use std::collections::VecDeque;
use vstd::prelude::*;

verus! {

/// Number of entries of `queue` that belong to task `tid`.
pub open spec fn pending(queue: Seq<usize>, tid: usize) -> nat {
    queue.to_multiset().count(tid)
}

/// `hist` counts the entries of `queue` by task: `hist[t]` is the number of
/// entries of task `t`, and `hist` is exactly long enough to have an entry for
/// the largest task id in `queue`.
pub open spec fn is_histogram(hist: Seq<usize>, queue: Seq<usize>) -> bool {
    &&& forall|i: int| 0 <= i < queue.len() ==> (#[trigger] queue[i]) < hist.len()
    &&& forall|t: usize| t < hist.len() ==> (#[trigger] hist[t as int]) == pending(queue, t)
    &&& hist.len() > 0 ==> queue.contains((hist.len() - 1) as usize)
}

/// A task that has no entry in `queue` has nothing pending.
pub proof fn lemma_pending_absent(queue: Seq<usize>, tid: usize)
    requires
        !queue.contains(tid),
    ensures
        pending(queue, tid) == 0,
{
    broadcast use vstd::seq_lib::group_to_multiset_ensures;
}

/// No task has more entries than the queue is long.
pub proof fn lemma_pending_le_len(queue: Seq<usize>, tid: usize)
    ensures
        pending(queue, tid) <= queue.len(),
{
    broadcast use vstd::seq_lib::group_to_multiset_ensures;
    assert(queue.to_multiset().len() == queue.len());
}

/// Appending an entry adds one to its task and leaves the others alone.
proof fn lemma_pending_push(queue: Seq<usize>, tid: usize, other: usize)
    ensures
        pending(queue.push(tid), other) == pending(queue, other) + if other == tid {
            1nat
        } else {
            0nat
        },
{
    broadcast use vstd::seq_lib::group_to_multiset_ensures;
    broadcast use vstd::multiset::group_multiset_properties;
}

/// Counts one more entry for task `tid` in the table `hist`, which grows by
/// zeros as far as it must to have an entry for `tid`.
pub fn count_entry(hist: &mut Vec<usize>, tid: usize)
    requires
        tid < usize::MAX,
        tid < old(hist)@.len() ==> old(hist)@[tid as int] < usize::MAX,
    ensures
        final(hist)@.len() == if old(hist)@.len() > tid {
            old(hist)@.len()
        } else {
            (tid + 1) as nat
        },
        forall|t: int|
            0 <= t < final(hist)@.len() ==> (#[trigger] final(hist)@[t]) == if t < old(hist)@.len() {
                old(hist)@[t] as int
            } else {
                0int
            } + if t == tid {
                1int
            } else {
                0int
            },
{
    while hist.len() <= tid
        invariant
            tid < usize::MAX,
            old(hist)@.len() <= hist@.len(),
            hist@.len() <= tid + 1 || hist@ == old(hist)@,
            forall|t: int| 0 <= t < old(hist)@.len() ==> hist@[t] == old(hist)@[t],
            forall|t: int| old(hist)@.len() <= t < hist@.len() ==> hist@[t] == 0,
        decreases tid + 1 - hist@.len(),
    {
        hist.push(0);
    }
    let c: usize = hist[tid];
    hist.set(tid, c + 1);
}

/// Counts the entries of `queue` by task.
pub fn tally(queue: &VecDeque<usize>) -> (hist: Vec<usize>)
    requires
        forall|i: int| 0 <= i < queue@.len() ==> (#[trigger] queue@[i]) < usize::MAX,
    ensures
        is_histogram(hist@, queue@),
{
    let l: usize = queue.len();
    let mut res: Vec<usize> = Vec::new();
    let mut i: usize = 0;
    while i < l
        invariant
            l == queue@.len(),
            i <= l,
            forall|k: int| 0 <= k < queue@.len() ==> (#[trigger] queue@[k]) < usize::MAX,
            is_histogram(res@, queue@.take(i as int)),
        decreases l - i,
    {
        let td: usize = queue[i];
        let ghost seen = queue@.take(i as int);
        let ghost before = res@;
        proof {
            lemma_pending_le_len(seen, td);
        }
        count_entry(&mut res, td);
        proof {
            let now = queue@.take(i as int + 1);
            assert(now == seen.push(td));
            assert forall|t: usize| t < res@.len() implies (#[trigger] res@[t as int]) == pending(
                now,
                t,
            ) by {
                lemma_pending_push(seen, td, t);
                if t >= before.len() {
                    assert(!seen.contains(t));
                    lemma_pending_absent(seen, t);
                } else {
                    assert(before[t as int] == pending(seen, t));
                }
            }
            assert forall|k: int| 0 <= k < now.len() implies (#[trigger] now[k]) < res@.len() by {
                if k < seen.len() {
                    assert(now[k] == seen[k]);
                }
            }
            if res@.len() == before.len() {
                let top = (before.len() - 1) as usize;
                let w = choose|k: int| 0 <= k < seen.len() && seen[k] == top;
                assert(now[w] == top);
            } else {
                assert(now[i as int] == td);
            }
        }
        i += 1;
    }
    proof {
        assert(queue@.take(l as int) == queue@);
    }
    res
}

} // verus!
