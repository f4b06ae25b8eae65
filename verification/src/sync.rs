//! Synchronization primitives and deadlock detection.

pub mod deadlock;
pub mod mutex;
pub mod semaphore;

use vstd::prelude::*;

use crate::sync::deadlock::{
    column_total, covered, deadlocked, detect_deadlock, finished_before, fits_in_word, held,
    is_safe_order, law_more_requests_stay_deadlocked, lemma_column_single,
    lemma_released_includes, lemma_released_without_holder, released, rows, well_shaped,
    work_after,
};
use crate::sync::mutex::Mutex;
use crate::sync::semaphore::Semaphore;

verus! {

/// What a task that asked for a lock or a semaphore unit must do next.
#[derive(PartialEq, Eq, Structural, Debug, Clone, Copy)]
pub enum LockStep {
    /// The task now holds the resource and goes on running.
    Acquired,
    /// The task was queued and must block until it is woken up; whoever wakes it
    /// hands the resource over to it.
    Blocked,
    /// The resource is taken: the task yields the processor and tries again later.
    Retry,
}

/// Free units of each mutex: 1 when it exists and is not locked.
pub open spec fn mutex_available<M: Mutex>(list: Seq<Option<M>>) -> Seq<usize> {
    Seq::new(
        list.len(),
        |i: int|
            match list[i] {
                Some(x) => if x.locked_view() {
                    0usize
                } else {
                    1usize
                },
                None => 0usize,
            },
    )
}

/// Task `t` holds mutex `i` when the mutex is locked and `t` is its owner.
pub open spec fn mutex_allocation<M: Mutex>(list: Seq<Option<M>>, n: nat) -> Seq<Seq<usize>> {
    Seq::new(
        n,
        |t: int|
            Seq::new(
                list.len(),
                |i: int|
                    match list[i] {
                        Some(x) => if x.locked_view() && x.owner_view() == t {
                            1usize
                        } else {
                            0usize
                        },
                        None => 0usize,
                    },
            ),
    )
}

/// Task `t` asks for mutex `i` when it is alive and waits for it, and the current
/// task asks for the target mutex.
pub open spec fn mutex_request<M: Mutex>(
    list: Seq<Option<M>>,
    alive: Seq<bool>,
    current: int,
    target: int,
) -> Seq<Seq<usize>> {
    Seq::new(
        alive.len(),
        |t: int|
            Seq::new(
                list.len(),
                |i: int|
                    if (t == current && i == target) || (alive[t] && match list[i] {
                        Some(x) => x.waiting_view(t as usize),
                        None => false,
                    }) {
                        1usize
                    } else {
                        0usize
                    },
            ),
    )
}

/// Whether the request of the current task for the target mutex is refused
/// without looking further: no such mutex, or the task already holds it.
pub open spec fn mutex_request_invalid<M: Mutex>(
    list: Seq<Option<M>>,
    current: usize,
    target: usize,
) -> bool {
    ||| target >= list.len()
    ||| list[target as int] is None
    ||| list[target as int]->0.locked_view() && list[target as int]->0.owner_view()
        == current as isize
}

/// Whether `deadlock_check` refuses the request.
pub open spec fn mutex_request_refused<M: Mutex>(
    list: Seq<Option<M>>,
    alive: Seq<bool>,
    current: usize,
    target: usize,
) -> bool {
    ||| mutex_request_invalid(list, current, target)
    ||| deadlocked(
        mutex_available(list),
        mutex_allocation(list, alive.len()),
        mutex_request(list, alive, current as int, target as int),
        alive,
    )
}

/// Adding waiters never hides a reported deadlock: when two mutex lists agree on
/// which mutexes exist, are locked and by whom, and every task that waits in the
/// first also waits in the second, a request that `deadlock_check` refuses under
/// the first it refuses under the second.
pub proof fn law_more_waiters_still_refused<M: Mutex>(
    fewer: Seq<Option<M>>,
    more: Seq<Option<M>>,
    alive: Seq<bool>,
    current: usize,
    target: usize,
)
    requires
        fewer.len() == more.len(),
        forall|i: int|
            0 <= i < fewer.len() ==> (#[trigger] fewer[i] is Some <==> more[i] is Some),
        forall|i: int|
            0 <= i < fewer.len() && #[trigger] fewer[i] is Some ==> fewer[i]->0.locked_view()
                == more[i]->0.locked_view() && fewer[i]->0.owner_view() == more[i]->0.owner_view(),
        forall|i: int, t: usize|
            0 <= i < fewer.len() && fewer[i] is Some && #[trigger] fewer[i]->0.waiting_view(t)
                ==> more[i]->0.waiting_view(t),
    ensures
        mutex_request_refused(fewer, alive, current, target) ==> mutex_request_refused(
            more,
            alive,
            current,
            target,
        ),
{
    let n = alive.len();
    assert(mutex_available(fewer) =~= mutex_available(more));
    assert forall|t: int| 0 <= t < n implies #[trigger] mutex_allocation(fewer, n)[t]
        =~= mutex_allocation(more, n)[t] by {
        assert forall|i: int| 0 <= i < fewer.len() implies mutex_allocation(fewer, n)[t][i]
            == mutex_allocation(more, n)[t][i] by {
            if fewer[i] is Some {
            }
        }
    }
    assert(mutex_allocation(fewer, n) =~= mutex_allocation(more, n));
    let r1 = mutex_request(fewer, alive, current as int, target as int);
    let r2 = mutex_request(more, alive, current as int, target as int);
    assert forall|t: int, i: int| 0 <= t < n && 0 <= i < fewer.len() implies #[trigger] r1[t][i]
        <= #[trigger] r2[t][i] by {
        if fewer[i] is Some && fewer[i]->0.waiting_view(t as usize) {
            assert(more[i]->0.waiting_view(t as usize));
        }
    }
    law_more_requests_stay_deadlocked(
        mutex_available(fewer),
        mutex_allocation(fewer, n),
        r1,
        r2,
        alive,
    );
    if target < fewer.len() && fewer[target as int] is Some {
        assert(fewer[target as int]->0.locked_view() == more[target as int]->0.locked_view());
    }
}

/// A request that closes a cycle of two live tasks is refused: when the target
/// mutex is held by task `o`, which waits for mutex `j`, held by the current task,
/// neither can ever go first.
pub proof fn law_two_task_cycle_refused<M: Mutex>(
    list: Seq<Option<M>>,
    alive: Seq<bool>,
    current: usize,
    target: usize,
    o: usize,
    j: usize,
)
    requires
        target < list.len(),
        list[target as int] is Some,
        list[target as int]->0.locked_view(),
        list[target as int]->0.owner_view() as int == o as int,
        j < list.len(),
        list[j as int] is Some,
        list[j as int]->0.locked_view(),
        list[j as int]->0.owner_view() as int == current as int,
        list[j as int]->0.waiting_view(o),
        o < alive.len(),
        current < alive.len(),
        alive[o as int],
        alive[current as int],
        o != current,
    ensures
        mutex_request_refused(list, alive, current, target),
{
    let n = alive.len();
    let av = mutex_available(list);
    let al = mutex_allocation(list, n);
    let rq = mutex_request(list, alive, current as int, target as int);
    assert forall|order: Seq<int>| !is_safe_order(av, al, rq, alive, order) by {
        if is_safe_order(av, al, rq, alive, order) {
            assert(order.contains(o as int));
            assert(order.contains(current as int));
            let ko = choose|k: int| 0 <= k < order.len() && order[k] == o as int;
            let kc = choose|k: int| 0 <= k < order.len() && order[k] == current as int;
            if kc < ko {
                let fb = finished_before(order, kc, n);
                assert(!fb[o as int]) by {
                    if order.take(kc).contains(o as int) {
                        let l = choose|l: int| 0 <= l < kc && order.take(kc)[l] == o as int;
                        assert(order[l] == order[ko]);
                    }
                }
                assert forall|t: int| 0 <= t < al.len() implies #[trigger] al[t][target as int] == (
                if t == o as int {
                    1usize
                } else {
                    0usize
                }) by {}
                lemma_released_without_holder(al, alive, fb, target as int, o as int, n as int);
                assert(covered(av, al, alive, rq[current as int], fb));
                assert(rq[current as int][target as int] == 1);
                assert(work_after(av, al, alive, fb, target as int) == 0);
            } else {
                let fb = finished_before(order, ko, n);
                assert(!fb[current as int]) by {
                    if order.take(ko).contains(current as int) {
                        let l = choose|l: int|
                            0 <= l < ko && order.take(ko)[l] == current as int;
                        assert(order[l] == order[kc]);
                    }
                }
                assert forall|t: int| 0 <= t < al.len() implies #[trigger] al[t][j as int] == (
                if t == current as int {
                    1usize
                } else {
                    0usize
                }) by {}
                lemma_released_without_holder(al, alive, fb, j as int, current as int, n as int);
                assert(covered(av, al, alive, rq[o as int], fb));
                assert(rq[o as int][j as int] == 1);
                assert(work_after(av, al, alive, fb, j as int) == 0);
            }
        }
    }
}

/// Check whether granting mutex `target_mutex_id` to the task `current_tid` could
/// deadlock. `tasks[t]` tells whether task `t` exists. Returns `true` (refuse)
/// when the mutex does not exist, when the task already holds it, or when, with
/// the task waiting for it, the tasks could not all finish in any order.
pub fn deadlock_check<M: Mutex>(
    tasks: &Vec<bool>,
    mutex_list: &Vec<Option<M>>,
    current_tid: usize,
    target_mutex_id: usize,
) -> (r: bool)
    requires
        mutex_request_invalid(mutex_list@, current_tid, target_mutex_id) || current_tid
            < tasks.len(),
    ensures
        r == mutex_request_refused(mutex_list@, tasks@, current_tid, target_mutex_id),
{
    let n = tasks.len();
    let m = mutex_list.len();
    if target_mutex_id >= m || mutex_list[target_mutex_id].is_none() {
        return true;
    }
    match &mutex_list[target_mutex_id] {
        Some(mutex) => {
            if mutex.is_locked() && mutex.get_owner() == current_tid as isize {
                return true;
            }
        },
        None => {},
    }
    let ghost list = mutex_list@;
    let ghost alive = tasks@;

    let mut available: Vec<usize> = Vec::new();
    let mut i: usize = 0;
    while i < m
        invariant
            m == list.len(),
            list == mutex_list@,
            i <= m,
            available@ == mutex_available(list).take(i as int),
        decreases m - i,
    {
        let v: usize = match &mutex_list[i] {
            Some(mutex) => if !mutex.is_locked() {
                1
            } else {
                0
            },
            None => 0,
        };
        available.push(v);
        i = i + 1;
        assert(available@ =~= mutex_available(list).take(i as int));
    }
    assert(available@ =~= mutex_available(list));

    let mut allocation: Vec<Vec<usize>> = Vec::new();
    let mut t: usize = 0;
    while t < n
        invariant
            m == list.len(),
            list == mutex_list@,
            n == alive.len(),
            t <= n,
            allocation@.len() == t,
            forall|u: int| 0 <= u < t ==> #[trigger] allocation@[u]@ == mutex_allocation(list, n as nat)[u],
        decreases n - t,
    {
        let mut row: Vec<usize> = Vec::new();
        let mut i: usize = 0;
        while i < m
            invariant
                m == list.len(),
                list == mutex_list@,
                n == alive.len(),
                t < n,
                i <= m,
                row@ == mutex_allocation(list, n as nat)[t as int].take(i as int),
            decreases m - i,
        {
            let v: usize = match &mutex_list[i] {
                Some(mutex) => if mutex.is_locked() && mutex.get_owner() >= 0
                    && mutex.get_owner() as usize == t {
                    1
                } else {
                    0
                },
                None => 0,
            };
            row.push(v);
            i = i + 1;
            assert(row@ =~= mutex_allocation(list, n as nat)[t as int].take(i as int));
        }
        assert(row@ =~= mutex_allocation(list, n as nat)[t as int]);
        allocation.push(row);
        t = t + 1;
    }
    assert(rows(allocation@) =~= mutex_allocation(list, n as nat));

    let mut request: Vec<Vec<usize>> = Vec::new();
    let mut t: usize = 0;
    while t < n
        invariant
            m == list.len(),
            list == mutex_list@,
            n == alive.len(),
            alive == tasks@,
            t <= n,
            request@.len() == t,
            forall|u: int|
                0 <= u < t ==> #[trigger] request@[u]@ == mutex_request(
                    list,
                    alive,
                    current_tid as int,
                    target_mutex_id as int,
                )[u],
        decreases n - t,
    {
        let mut row: Vec<usize> = Vec::new();
        let mut i: usize = 0;
        while i < m
            invariant
                m == list.len(),
                list == mutex_list@,
                n == alive.len(),
                alive == tasks@,
                t < n,
                i <= m,
                row@ == mutex_request(list, alive, current_tid as int, target_mutex_id as int)[t as int].take(
                    i as int,
                ),
            decreases m - i,
        {
            let waiting = tasks[t] && match &mutex_list[i] {
                Some(mutex) => mutex.is_waiting(t),
                None => false,
            };
            let v: usize = if (t == current_tid && i == target_mutex_id) || waiting {
                1
            } else {
                0
            };
            row.push(v);
            i = i + 1;
            assert(row@ =~= mutex_request(list, alive, current_tid as int, target_mutex_id as int)[t as int].take(
                i as int,
            ));
        }
        assert(row@ =~= mutex_request(list, alive, current_tid as int, target_mutex_id as int)[t as int]);
        request.push(row);
        t = t + 1;
    }
    assert(rows(request@) =~= mutex_request(list, alive, current_tid as int, target_mutex_id as int));

    proof {
        let al = mutex_allocation(list, n as nat);
        assert forall|j: int| 0 <= j < m implies available@[j] + #[trigger] column_total(
            al,
            j,
            al.len() as int,
        ) <= usize::MAX by {
            let o: int = match list[j] {
                Some(x) => if x.locked_view() {
                    x.owner_view() as int
                } else {
                    -1
                },
                None => -1,
            };
            lemma_column_single(al, j, o, n as int);
        }
        assert(fits_in_word(available@, rows(allocation@)));
        assert(well_shaped(available@, rows(allocation@), rows(request@), alive));
    }
    detect_deadlock(&available, &allocation, &request, tasks)
}

/// Free units of each semaphore: its available count, 0 for a missing one.
pub open spec fn semaphore_available(list: Seq<Option<Semaphore>>) -> Seq<usize> {
    Seq::new(
        list.len(),
        |i: int|
            match list[i] {
                Some(s) => s.available() as usize,
                None => 0usize,
            },
    )
}

/// Task `t` holds one unit of semaphore `i` when no unit is left and `t` took the
/// last one.
pub open spec fn semaphore_allocation(list: Seq<Option<Semaphore>>, n: nat) -> Seq<Seq<usize>> {
    Seq::new(
        n,
        |t: int|
            Seq::new(
                list.len(),
                |i: int|
                    match list[i] {
                        Some(s) => if s.available() == 0 && s.owner() == t {
                            1usize
                        } else {
                            0usize
                        },
                        None => 0usize,
                    },
            ),
    )
}

/// Task `t` asks for semaphore `i` when it is alive and queued on it, and the
/// current task asks for the target semaphore.
pub open spec fn semaphore_request(
    list: Seq<Option<Semaphore>>,
    alive: Seq<bool>,
    current: int,
    target: int,
) -> Seq<Seq<usize>> {
    Seq::new(
        alive.len(),
        |t: int|
            Seq::new(
                list.len(),
                |i: int|
                    if (t == current && i == target) || (alive[t] && match list[i] {
                        Some(s) => s.queue().contains(t as usize),
                        None => false,
                    }) {
                        1usize
                    } else {
                        0usize
                    },
            ),
    )
}

/// Whether `deadlock_check_semaphore` refuses the request.
pub open spec fn semaphore_request_refused(
    list: Seq<Option<Semaphore>>,
    alive: Seq<bool>,
    current: usize,
    target: usize,
) -> bool {
    ||| target >= list.len()
    ||| list[target as int] is None
    ||| deadlocked(
        semaphore_available(list),
        semaphore_allocation(list, alive.len()),
        semaphore_request(list, alive, current as int, target as int),
        alive,
    )
}

/// The task that took the last unit of a semaphore holds it until it finishes,
/// also while other tasks are queued: when the recorded owner `o` of the target
/// semaphore is alive, is not the current task and waits for nothing, and every
/// other live task waits for no semaphore but the target, the request is not
/// refused. The owner can finish first and give its unit back, and then each
/// other task in turn is served.
pub proof fn law_semaphore_owner_gives_back(
    list: Seq<Option<Semaphore>>,
    alive: Seq<bool>,
    current: usize,
    target: usize,
    o: usize,
)
    requires
        target < list.len(),
        list[target as int] is Some,
        list[target as int]->0.owner() == o as int,
        alive.len() <= usize::MAX,
        o < alive.len(),
        alive[o as int],
        o != current,
        forall|i: int|
            0 <= i < list.len() && #[trigger] list[i] is Some ==> !list[i]->0.queue().contains(o),
        forall|t: usize, i: int|
            0 <= t < alive.len() && alive[t as int] && 0 <= i < list.len() && i != target
                && list[i] is Some ==> !(#[trigger] list[i]->0.queue().contains(t)),
    ensures
        !semaphore_request_refused(list, alive, current, target),
{
    let n = alive.len();
    let m = list.len();
    let av = semaphore_available(list);
    let al = semaphore_allocation(list, n);
    let rq = semaphore_request(list, alive, current as int, target as int);
    let oi = o as int;
    let order = Seq::new(
        n,
        |k: int|
            if k == 0 {
                oi
            } else if k <= oi {
                k - 1
            } else {
                k
            },
    );
    assert forall|a: int, b: int| 0 <= a < b < order.len() implies order[a] != order[b] by {}
    assert forall|i: int| 0 <= i < n implies order.contains(i) by {
        let k = if i == oi {
            0
        } else if i < oi {
            i + 1
        } else {
            i
        };
        assert(order[k] == i);
    }
    let s = list[target as int]->0;
    assert(s.count() <= isize::MAX);
    assert(av[target as int] as int == s.available());
    assert forall|k: int| 0 <= k < order.len() && alive[order[k]] implies covered(
        av,
        al,
        alive,
        #[trigger] rq[order[k]],
        finished_before(order, k, n),
    ) by {
        let fb = finished_before(order, k, n);
        let t = order[k];
        if k == 0 {
            assert forall|i: int| 0 <= i < m implies rq[t][i] <= #[trigger] work_after(
                av,
                al,
                alive,
                fb,
                i,
            ) by {
                assert(t == oi);
                if list[i] is Some {
                    assert(!list[i]->0.queue().contains(o));
                }
            }
        } else {
            assert(t != oi);
            assert(fb[oi]) by {
                assert(order.take(k)[0] == oi);
            }
            lemma_released_includes(al, alive, fb, target as int, oi, n as int);
            assert(work_after(av, al, alive, fb, target as int) >= 1);
            assert forall|i: int| 0 <= i < m implies rq[t][i] <= #[trigger] work_after(
                av,
                al,
                alive,
                fb,
                i,
            ) by {
                if i != target as int && list[i] is Some {
                    let tu = t as usize;
                    assert(tu as int == t);
                    assert(alive[tu as int]);
                    assert(!list[i]->0.queue().contains(tu));
                }
            }
        }
    }
    assert(is_safe_order(av, al, rq, alive, order));
}

/// Check whether granting a unit of semaphore `target_semaphore_id` to the task
/// `current_tid` could deadlock. Returns `true` (refuse) when the semaphore does
/// not exist, or when, with the task waiting for it, the tasks could not all
/// finish in any order.
pub fn deadlock_check_semaphore(
    tasks: &Vec<bool>,
    semaphore_list: &Vec<Option<Semaphore>>,
    current_tid: usize,
    target_semaphore_id: usize,
) -> (r: bool)
    requires
        target_semaphore_id >= semaphore_list.len() || semaphore_list@[target_semaphore_id as int] is None
            || current_tid < tasks.len(),
    ensures
        r == semaphore_request_refused(semaphore_list@, tasks@, current_tid, target_semaphore_id),
{
    let n = tasks.len();
    let m = semaphore_list.len();
    if target_semaphore_id >= m || semaphore_list[target_semaphore_id].is_none() {
        return true;
    }
    let ghost list = semaphore_list@;
    let ghost alive = tasks@;

    let mut available: Vec<usize> = Vec::new();
    let mut i: usize = 0;
    while i < m
        invariant
            m == list.len(),
            list == semaphore_list@,
            i <= m,
            available@ == semaphore_available(list).take(i as int),
        decreases m - i,
    {
        let v: usize = match &semaphore_list[i] {
            Some(sem) => sem.available_count(),
            None => 0,
        };
        available.push(v);
        i = i + 1;
        assert(available@ =~= semaphore_available(list).take(i as int));
    }
    assert(available@ =~= semaphore_available(list));

    let mut allocation: Vec<Vec<usize>> = Vec::new();
    let mut t: usize = 0;
    while t < n
        invariant
            m == list.len(),
            list == semaphore_list@,
            n == alive.len(),
            t <= n,
            allocation@.len() == t,
            forall|u: int|
                0 <= u < t ==> #[trigger] allocation@[u]@ == semaphore_allocation(list, n as nat)[u],
        decreases n - t,
    {
        let mut row: Vec<usize> = Vec::new();
        let mut i: usize = 0;
        while i < m
            invariant
                m == list.len(),
                list == semaphore_list@,
                n == alive.len(),
                t < n,
                i <= m,
                row@ == semaphore_allocation(list, n as nat)[t as int].take(i as int),
            decreases m - i,
        {
            let v: usize = match &semaphore_list[i] {
                Some(sem) => if sem.available_count() == 0 && sem.get_owner() >= 0
                    && sem.get_owner() as usize == t {
                    1
                } else {
                    0
                },
                None => 0,
            };
            row.push(v);
            i = i + 1;
            assert(row@ =~= semaphore_allocation(list, n as nat)[t as int].take(i as int));
        }
        assert(row@ =~= semaphore_allocation(list, n as nat)[t as int]);
        allocation.push(row);
        t = t + 1;
    }
    assert(rows(allocation@) =~= semaphore_allocation(list, n as nat));

    let mut request: Vec<Vec<usize>> = Vec::new();
    let mut t: usize = 0;
    while t < n
        invariant
            m == list.len(),
            list == semaphore_list@,
            n == alive.len(),
            alive == tasks@,
            t <= n,
            request@.len() == t,
            forall|u: int|
                0 <= u < t ==> #[trigger] request@[u]@ == semaphore_request(
                    list,
                    alive,
                    current_tid as int,
                    target_semaphore_id as int,
                )[u],
        decreases n - t,
    {
        let mut row: Vec<usize> = Vec::new();
        let mut i: usize = 0;
        while i < m
            invariant
                m == list.len(),
                list == semaphore_list@,
                n == alive.len(),
                alive == tasks@,
                t < n,
                i <= m,
                row@ == semaphore_request(
                    list,
                    alive,
                    current_tid as int,
                    target_semaphore_id as int,
                )[t as int].take(i as int),
            decreases m - i,
        {
            let waiting = tasks[t] && match &semaphore_list[i] {
                Some(sem) => sem.is_waiting(t),
                None => false,
            };
            let v: usize = if (t == current_tid && i == target_semaphore_id) || waiting {
                1
            } else {
                0
            };
            row.push(v);
            i = i + 1;
            assert(row@ =~= semaphore_request(
                list,
                alive,
                current_tid as int,
                target_semaphore_id as int,
            )[t as int].take(i as int));
        }
        assert(row@ =~= semaphore_request(
            list,
            alive,
            current_tid as int,
            target_semaphore_id as int,
        )[t as int]);
        request.push(row);
        t = t + 1;
    }
    assert(rows(request@) =~= semaphore_request(
        list,
        alive,
        current_tid as int,
        target_semaphore_id as int,
    ));

    proof {
        let al = semaphore_allocation(list, n as nat);
        assert forall|j: int| 0 <= j < m implies available@[j] + #[trigger] column_total(
            al,
            j,
            al.len() as int,
        ) <= usize::MAX by {
            let o: int = match list[j] {
                Some(s) => if s.available() == 0 {
                    s.owner()
                } else {
                    -1
                },
                None => -1,
            };
            lemma_column_single(al, j, o, n as int);
        }
        assert(fits_in_word(available@, rows(allocation@)));
        assert(well_shaped(available@, rows(allocation@), rows(request@), alive));
    }
    detect_deadlock(&available, &allocation, &request, tasks)
}

} // verus!
