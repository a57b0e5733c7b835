//! What it means for a process to be in a safe state: every task can still run
//! to its end, in some order, with the resources that are free and those that
//! the tasks before it give back.

use vstd::prelude::*;

verus! {

/// Entry of the matrix `m` for resource `r` and task `t`. A row need not have an
/// entry for every task, nor the matrix a row for every resource: what is
/// missing counts as zero.
pub open spec fn cell(m: Seq<Seq<int>>, r: int, t: int) -> int {
    if 0 <= r < m.len() && 0 <= t < m[r].len() {
        m[r][t]
    } else {
        0
    }
}

/// No entry of the matrix is negative.
pub open spec fn no_negative_cell(m: Seq<Seq<int>>) -> bool {
    forall|r: int, t: int| #[trigger] cell(m, r, t) >= 0
}

/// Task `t` can be given all it still asks for: for each resource, no more
/// than `work` has of it. A resource of which less than nothing is free, one
/// that is owed to tasks that wait for it, satisfies nobody, not even a task
/// that asks nothing of it.
pub open spec fn runnable(need: Seq<Seq<int>>, work: Seq<int>, t: int) -> bool {
    forall|r: int| 0 <= r < work.len() ==> cell(need, r, t) <= #[trigger] work[r]
}

/// Units of resource `r` that the tasks `done` hold between them.
pub open spec fn reclaimed(allocation: Seq<Seq<int>>, r: int, done: Seq<int>) -> int
    decreases done.len(),
{
    if done.len() == 0 {
        0
    } else {
        reclaimed(allocation, r, done.drop_last()) + cell(allocation, r, done.last())
    }
}

/// What is free of each resource once the tasks `done` have finished and given
/// back what they held.
pub open spec fn work_after(work: Seq<int>, allocation: Seq<Seq<int>>, done: Seq<int>) -> Seq<
    int,
> {
    Seq::new(work.len(), |r: int| work[r] + reclaimed(allocation, r, done))
}

/// The tasks `done` can finish one after the other in that order: each of
/// them is a task, none comes twice, and each can be given what it asks for
/// once those before it have finished.
pub open spec fn can_finish_in_order(
    work: Seq<int>,
    need: Seq<Seq<int>>,
    allocation: Seq<Seq<int>>,
    threads: int,
    done: Seq<int>,
) -> bool {
    &&& done.no_duplicates()
    &&& forall|i: int| 0 <= i < done.len() ==> 0 <= (#[trigger] done[i]) < threads
    &&& forall|k: int|
        0 <= k < done.len() ==> runnable(
            need,
            work_after(work, allocation, #[trigger] done.take(k)),
            done[k],
        )
}

/// `order` is an order in which all tasks can finish.
pub open spec fn is_safe_order(
    work: Seq<int>,
    need: Seq<Seq<int>>,
    allocation: Seq<Seq<int>>,
    threads: int,
    order: Seq<int>,
) -> bool {
    &&& can_finish_in_order(work, need, allocation, threads, order)
    &&& forall|t: int| 0 <= t < threads ==> order.contains(t)
}

/// The state is safe: there is an order in which all `threads` tasks can
/// finish. `work[r]` is what is free of resource `r`, `need[r][t]` what task
/// `t` still asks of it, `allocation[r][t]` what task `t` holds of it.
pub open spec fn is_safe(
    work: Seq<int>,
    need: Seq<Seq<int>>,
    allocation: Seq<Seq<int>>,
    threads: int,
) -> bool {
    exists|order: Seq<int>| is_safe_order(work, need, allocation, threads, order)
}

/// Taking a task out of a list takes what it holds out of the sum.
proof fn lemma_reclaimed_remove(allocation: Seq<Seq<int>>, r: int, done: Seq<int>, j: int)
    requires
        0 <= j < done.len(),
    ensures
        reclaimed(allocation, r, done) == reclaimed(allocation, r, done.remove(j)) + cell(
            allocation,
            r,
            done[j],
        ),
    decreases done.len(),
{
    let last = done.len() - 1;
    if j == last {
        assert(done.remove(j) == done.drop_last());
    } else {
        assert(done.remove(j).drop_last() == done.drop_last().remove(j));
        assert(done.remove(j).last() == done.last());
        lemma_reclaimed_remove(allocation, r, done.drop_last(), j);
    }
}

/// Tasks that are all among the tasks `all` hold no more between them than
/// those do.
proof fn lemma_reclaimed_subset(
    allocation: Seq<Seq<int>>,
    r: int,
    some: Seq<int>,
    all: Seq<int>,
)
    requires
        no_negative_cell(allocation),
        some.no_duplicates(),
        forall|i: int| 0 <= i < some.len() ==> all.contains(#[trigger] some[i]),
    ensures
        reclaimed(allocation, r, some) <= reclaimed(allocation, r, all),
    decreases some.len(),
{
    if some.len() == 0 {
        lemma_reclaimed_non_negative(allocation, r, all);
    } else {
        let x = some.last();
        let rest = some.drop_last();
        assert(all.contains(some[some.len() - 1]));
        let j = choose|j: int| 0 <= j < all.len() && all[j] == x;
        let others = all.remove(j);
        lemma_reclaimed_remove(allocation, r, all, j);
        assert forall|i: int| 0 <= i < rest.len() implies others.contains(#[trigger] rest[i]) by {
            assert(rest[i] == some[i]);
            assert(all.contains(some[i]));
            let k = choose|k: int| 0 <= k < all.len() && all[k] == some[i];
            assert(some[i] != x);
            if k < j {
                assert(others[k] == all[k]);
            } else {
                assert(others[k - 1] == all[k]);
            }
        }
        lemma_reclaimed_subset(allocation, r, rest, others);
    }
}

/// What tasks hold between them is not negative.
pub proof fn lemma_reclaimed_non_negative(allocation: Seq<Seq<int>>, r: int, done: Seq<int>)
    requires
        no_negative_cell(allocation),
    ensures
        reclaimed(allocation, r, done) >= 0,
    decreases done.len(),
{
    if done.len() > 0 {
        lemma_reclaimed_non_negative(allocation, r, done.drop_last());
        assert(cell(allocation, r, done.last()) >= 0);
    }
}

/// A list of distinct tasks that leaves one task out is shorter than the
/// number of tasks.
pub proof fn lemma_room_for_one_more(done: Seq<int>, threads: int, t: int)
    requires
        done.no_duplicates(),
        forall|i: int| 0 <= i < done.len() ==> 0 <= (#[trigger] done[i]) < threads,
        0 <= t < threads,
        !done.contains(t),
    ensures
        done.len() < threads,
{
    done.unique_seq_to_set();
    let all = Set::new(|x: int| 0 <= x < threads);
    vstd::set_lib::lemma_int_range(0, threads);
    assert(all == vstd::set_lib::set_int_range(0, threads));
    let without = all.remove(t);
    assert forall|x: int| done.to_set().contains(x) implies without.contains(x) by {
        let i = choose|i: int| 0 <= i < done.len() && done[i] == x;
        assert(0 <= done[i] < threads);
    }
    vstd::set_lib::lemma_len_subset(done.to_set(), without);
}

/// The first place in `order` of a task that is not among `done`.
proof fn lemma_first_not_done(order: Seq<int>, done: Seq<int>, from: int) -> (k: int)
    requires
        0 <= from <= order.len(),
        forall|j: int| 0 <= j < from ==> done.contains(#[trigger] order[j]),
        exists|j: int| from <= j < order.len() && !done.contains(order[j]),
    ensures
        from <= k < order.len(),
        !done.contains(order[k]),
        forall|j: int| 0 <= j < k ==> done.contains(#[trigger] order[j]),
    decreases order.len() - from,
{
    if !done.contains(order[from]) {
        from
    } else {
        lemma_first_not_done(order, done, from + 1)
    }
}

/// Where the tasks `done` have finished and none of the others can be given
/// what it asks for, no order lets all tasks finish: going on with whichever
/// task can run never spoils a state that is safe.
pub proof fn lemma_stuck_is_unsafe(
    work: Seq<int>,
    need: Seq<Seq<int>>,
    allocation: Seq<Seq<int>>,
    threads: int,
    done: Seq<int>,
    left: int,
)
    requires
        no_negative_cell(allocation),
        0 <= left < threads,
        !done.contains(left),
        forall|t: int|
            0 <= t < threads && !done.contains(t) ==> !runnable(
                need,
                work_after(work, allocation, done),
                t,
            ),
    ensures
        !is_safe(work, need, allocation, threads),
{
    if is_safe(work, need, allocation, threads) {
        let order = choose|order: Seq<int>| is_safe_order(work, need, allocation, threads, order);
        assert(order.contains(left));
        let k = lemma_first_not_done(order, done, 0);
        let t = order[k];
        let before = order.take(k);
        assert forall|i: int| 0 <= i < before.len() implies done.contains(#[trigger] before[i]) by {
            assert(before[i] == order[i]);
        }
        let free_then = work_after(work, allocation, before);
        let free_now = work_after(work, allocation, done);
        assert(runnable(need, free_then, t));
        assert forall|r: int| 0 <= r < free_now.len() implies cell(need, r, t)
            <= #[trigger] free_now[r] by {
            lemma_reclaimed_subset(allocation, r, before, done);
            assert(cell(need, r, t) <= free_then[r]);
        }
        assert(runnable(need, free_now, t));
        assert(false);
    }
}

/// Two matrices that agree on the first `threads` tasks of every resource give
/// the same sum for tasks among those.
proof fn lemma_reclaimed_same_cells(
    first: Seq<Seq<int>>,
    second: Seq<Seq<int>>,
    r: int,
    threads: int,
    done: Seq<int>,
)
    requires
        forall|t: int| 0 <= t < threads ==> cell(first, r, t) == cell(second, r, t),
        forall|i: int| 0 <= i < done.len() ==> 0 <= (#[trigger] done[i]) < threads,
    ensures
        reclaimed(first, r, done) == reclaimed(second, r, done),
    decreases done.len(),
{
    if done.len() > 0 {
        let rest = done.drop_last();
        assert forall|i: int| 0 <= i < rest.len() implies 0 <= (#[trigger] rest[i]) < threads by {
            assert(rest[i] == done[i]);
        }
        lemma_reclaimed_same_cells(first, second, r, threads, rest);
        assert(0 <= done[done.len() - 1] < threads);
    }
}

/// An order in which all tasks can finish is one for every snapshot with the
/// same free units and the same entries for the resources and tasks there are.
proof fn lemma_safe_order_same_cells(
    work: Seq<int>,
    need: Seq<Seq<int>>,
    allocation: Seq<Seq<int>>,
    other_need: Seq<Seq<int>>,
    other_allocation: Seq<Seq<int>>,
    threads: int,
    order: Seq<int>,
)
    requires
        forall|r: int, t: int|
            0 <= r < work.len() && 0 <= t < threads ==> #[trigger] cell(need, r, t) == cell(
                other_need,
                r,
                t,
            ),
        forall|r: int, t: int|
            0 <= r < work.len() && 0 <= t < threads ==> #[trigger] cell(allocation, r, t) == cell(
                other_allocation,
                r,
                t,
            ),
        is_safe_order(work, need, allocation, threads, order),
    ensures
        is_safe_order(work, other_need, other_allocation, threads, order),
{
    assert forall|k: int| 0 <= k < order.len() implies runnable(
        other_need,
        work_after(work, other_allocation, #[trigger] order.take(k)),
        order[k],
    ) by {
        let before = order.take(k);
        let free = work_after(work, allocation, before);
        let other_free = work_after(work, other_allocation, before);
        assert(runnable(need, free, order[k]));
        assert(0 <= order[k] < threads);
        assert forall|r: int| 0 <= r < other_free.len() implies cell(other_need, r, order[k])
            <= #[trigger] other_free[r] by {
            assert forall|i: int| 0 <= i < before.len() implies 0 <= (#[trigger] before[i])
                < threads by {
                assert(before[i] == order[i]);
            }
            assert forall|t: int| 0 <= t < threads implies cell(allocation, r, t) == cell(
                other_allocation,
                r,
                t,
            ) by {}
            lemma_reclaimed_same_cells(allocation, other_allocation, r, threads, before);
            assert(cell(need, r, order[k]) <= free[r]);
            assert(cell(need, r, order[k]) == cell(other_need, r, order[k]));
        }
    }
}

/// Whether a state is safe depends only on what is free and on the entries for
/// the resources and tasks there are.
pub proof fn lemma_safe_same_cells(
    work: Seq<int>,
    need: Seq<Seq<int>>,
    allocation: Seq<Seq<int>>,
    other_need: Seq<Seq<int>>,
    other_allocation: Seq<Seq<int>>,
    threads: int,
)
    requires
        forall|r: int, t: int|
            0 <= r < work.len() && 0 <= t < threads ==> #[trigger] cell(need, r, t) == cell(
                other_need,
                r,
                t,
            ),
        forall|r: int, t: int|
            0 <= r < work.len() && 0 <= t < threads ==> #[trigger] cell(allocation, r, t) == cell(
                other_allocation,
                r,
                t,
            ),
    ensures
        is_safe(work, need, allocation, threads) == is_safe(
            work,
            other_need,
            other_allocation,
            threads,
        ),
{
    if is_safe(work, need, allocation, threads) {
        let order = choose|order: Seq<int>| is_safe_order(work, need, allocation, threads, order);
        lemma_safe_order_same_cells(
            work,
            need,
            allocation,
            other_need,
            other_allocation,
            threads,
            order,
        );
    }
    if is_safe(work, other_need, other_allocation, threads) {
        let order = choose|order: Seq<int>|
            is_safe_order(work, other_need, other_allocation, threads, order);
        lemma_safe_order_same_cells(
            work,
            other_need,
            other_allocation,
            need,
            allocation,
            threads,
            order,
        );
    }
}

/// Tasks among which the only holder of a resource is missing hold nothing of
/// it.
proof fn lemma_reclaimed_without_holder(
    allocation: Seq<Seq<int>>,
    r: int,
    done: Seq<int>,
    holder: int,
)
    requires
        forall|t: int| t != holder ==> #[trigger] cell(allocation, r, t) <= 0,
        !done.contains(holder),
    ensures
        reclaimed(allocation, r, done) <= 0,
    decreases done.len(),
{
    if done.len() > 0 {
        let rest = done.drop_last();
        assert forall|i: int| 0 <= i < rest.len() implies rest[i] != holder by {
            assert(rest[i] == done[i]);
            assert(done.contains(done[i]));
        }
        lemma_reclaimed_without_holder(allocation, r, rest, holder);
        assert(done.contains(done[done.len() - 1]));
        assert(cell(allocation, r, done.last()) <= 0);
    }
}

/// In an order in which all tasks can finish, a task that asks for a resource
/// of which nothing is free and which only one other task holds comes after
/// that task.
proof fn lemma_waits_for_holder(
    work: Seq<int>,
    need: Seq<Seq<int>>,
    allocation: Seq<Seq<int>>,
    threads: int,
    order: Seq<int>,
    r: int,
    asker: int,
    holder: int,
    at: int,
)
    requires
        is_safe_order(work, need, allocation, threads, order),
        0 <= r < work.len(),
        work[r] <= 0,
        cell(need, r, asker) >= 1,
        forall|t: int| t != holder ==> #[trigger] cell(allocation, r, t) <= 0,
        0 <= at < order.len(),
        order[at] == asker,
    ensures
        order.take(at).contains(holder),
{
    let before = order.take(at);
    if !before.contains(holder) {
        lemma_reclaimed_without_holder(allocation, r, before, holder);
        assert(runnable(need, work_after(work, allocation, before), order[at]));
        assert(cell(need, r, asker) <= work_after(work, allocation, before)[r]);
        assert(false);
    }
}

/// Two tasks that each ask for a resource of which nothing is free and which
/// only the other holds cannot both finish: the state is not safe.
pub proof fn lemma_cycle_is_unsafe(
    work: Seq<int>,
    need: Seq<Seq<int>>,
    allocation: Seq<Seq<int>>,
    threads: int,
    first: int,
    second: int,
    held_by_first: int,
    held_by_second: int,
)
    requires
        0 <= first < threads,
        0 <= second < threads,
        0 <= held_by_first < work.len(),
        0 <= held_by_second < work.len(),
        work[held_by_first] <= 0,
        work[held_by_second] <= 0,
        cell(need, held_by_second, first) >= 1,
        cell(need, held_by_first, second) >= 1,
        forall|t: int| t != first ==> #[trigger] cell(allocation, held_by_first, t) <= 0,
        forall|t: int| t != second ==> #[trigger] cell(allocation, held_by_second, t) <= 0,
    ensures
        !is_safe(work, need, allocation, threads),
{
    if is_safe(work, need, allocation, threads) {
        let order = choose|order: Seq<int>| is_safe_order(work, need, allocation, threads, order);
        assert(order.contains(first));
        assert(order.contains(second));
        let i = choose|i: int| 0 <= i < order.len() && order[i] == first;
        let j = choose|j: int| 0 <= j < order.len() && order[j] == second;
        lemma_waits_for_holder(
            work,
            need,
            allocation,
            threads,
            order,
            held_by_second,
            first,
            second,
            i,
        );
        lemma_waits_for_holder(
            work,
            need,
            allocation,
            threads,
            order,
            held_by_first,
            second,
            first,
            j,
        );
        let jj = choose|k: int| 0 <= k < i && order.take(i)[k] == second;
        let ii = choose|k: int| 0 <= k < j && order.take(j)[k] == first;
        assert(order[jj] == second && order[ii] == first);
        assert(jj == j && ii == i);
        assert(false);
    }
}

/// The tasks `0..threads` with task `last` moved to the end.
pub open spec fn others_first(threads: int, last: int) -> Seq<int> {
    Seq::new(
        threads as nat,
        |i: int|
            if i < last {
                i
            } else if i < threads - 1 {
                i + 1
            } else {
                last
            },
    )
}

/// Where nothing is owed, one task alone asks for anything, and what it asks
/// for is free or held by the others, the state is safe: the others can finish
/// in any order, and then the one that asks.
pub proof fn lemma_lone_request_is_safe(
    work: Seq<int>,
    need: Seq<Seq<int>>,
    allocation: Seq<Seq<int>>,
    threads: int,
    asker: int,
)
    requires
        0 <= asker < threads,
        no_negative_cell(allocation),
        forall|r: int| 0 <= r < work.len() ==> (#[trigger] work[r]) >= 0,
        forall|r: int, t: int| t != asker ==> #[trigger] cell(need, r, t) <= 0,
        forall|r: int|
            0 <= r < work.len() ==> #[trigger] cell(need, r, asker) <= work[r] + reclaimed(
                allocation,
                r,
                others_first(threads, asker).drop_last(),
            ),
    ensures
        is_safe(work, need, allocation, threads),
{
    let order = others_first(threads, asker);
    assert forall|t: int| 0 <= t < threads implies order.contains(t) by {
        if t < asker {
            assert(order[t] == t);
        } else if t > asker {
            assert(order[t - 1] == t);
        } else {
            assert(order[threads - 1] == t);
        }
    }
    assert forall|k: int| 0 <= k < order.len() implies runnable(
        need,
        work_after(work, allocation, #[trigger] order.take(k)),
        order[k],
    ) by {
        let before = order.take(k);
        let free = work_after(work, allocation, before);
        assert forall|r: int| 0 <= r < free.len() implies cell(need, r, order[k])
            <= #[trigger] free[r] by {
            if k < threads - 1 {
                lemma_reclaimed_non_negative(allocation, r, before);
                assert(order[k] != asker);
                assert(cell(need, r, order[k]) <= 0);
                assert(work[r] >= 0);
            } else {
                assert(before == order.drop_last());
            }
        }
    }
    assert(is_safe_order(work, need, allocation, threads, order));
}

/// Tasks hold between them at least what any one of them holds.
pub proof fn lemma_reclaimed_covers_member(
    allocation: Seq<Seq<int>>,
    r: int,
    done: Seq<int>,
    member: int,
)
    requires
        no_negative_cell(allocation),
        done.contains(member),
    ensures
        reclaimed(allocation, r, done) >= cell(allocation, r, member),
{
    let one = seq![member];
    assert(one.drop_last() == Seq::<int>::empty());
    assert(reclaimed(allocation, r, one) == reclaimed(allocation, r, one.drop_last()) + cell(
        allocation,
        r,
        one.last(),
    ));
    assert(reclaimed(allocation, r, Seq::<int>::empty()) == 0);
    lemma_reclaimed_subset(allocation, r, one, done);
}

} // verus!
