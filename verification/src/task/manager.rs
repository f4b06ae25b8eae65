//! The ready queue of the stride scheduler.

use std::collections::VecDeque;
use vstd::prelude::*;

verus! {

/// What the scheduler keeps of a ready task.
#[derive(Clone, Copy, PartialEq, Eq, Structural, Debug)]
pub struct StrideTask {
    /// The task's id.
    pub id: usize,
    /// How far the task has advanced; the smallest runs first.
    pub stride: usize,
    /// How far the task advances each time it is picked.
    pub pass: usize,
}

/// A FIFO queue of ready tasks.
pub struct TaskManager {
    ready_queue: VecDeque<StrideTask>,
}

/// The smallest stride in a nonempty queue.
pub open spec fn min_stride(q: Seq<StrideTask>) -> usize
    decreases q.len(),
{
    if q.len() <= 1 {
        q[0].stride
    } else {
        let rest = min_stride(q.drop_last());
        if q.last().stride < rest {
            q.last().stride
        } else {
            rest
        }
    }
}

/// The first position at or after `k` whose stride is `s` (the length if none).
pub open spec fn first_with_stride(q: Seq<StrideTask>, s: usize, k: int) -> int
    decreases q.len() - k,
{
    if k < 0 || k >= q.len() {
        q.len() as int
    } else if q[k].stride == s {
        k
    } else {
        first_with_stride(q, s, k + 1)
    }
}

/// The position of the task that the scheduler picks: the first of smallest stride.
pub open spec fn picked(q: Seq<StrideTask>) -> int {
    first_with_stride(q, min_stride(q), 0)
}

/// A task after it ran once: its stride advanced by its pass.
pub open spec fn advanced(t: StrideTask) -> StrideTask {
    StrideTask { id: t.id, stride: (t.stride + t.pass) as usize, pass: t.pass }
}

/// The smallest stride is a lower bound of the strides and one of them.
pub proof fn lemma_min_stride(q: Seq<StrideTask>)
    requires
        q.len() > 0,
    ensures
        forall|k: int| 0 <= k < q.len() ==> min_stride(q) <= #[trigger] q[k].stride,
        exists|k: int| 0 <= k < q.len() && #[trigger] q[k].stride == min_stride(q),
    decreases q.len(),
{
    if q.len() > 1 {
        let r = q.drop_last();
        lemma_min_stride(r);
        assert forall|k: int| 0 <= k < q.len() implies min_stride(q) <= #[trigger] q[k].stride by {
            if k < q.len() - 1 {
                assert(q[k] == r[k]);
            }
        }
        if q.last().stride < min_stride(r) {
            assert(q[q.len() - 1].stride == min_stride(q));
        } else {
            let k = choose|k: int| 0 <= k < r.len() && #[trigger] r[k].stride == min_stride(r);
            assert(q[k].stride == min_stride(q));
        }
    } else {
        assert(q[0].stride == min_stride(q));
    }
}

proof fn lemma_first_with_stride(q: Seq<StrideTask>, s: usize, k: int, i: int)
    requires
        0 <= k <= i < q.len(),
        q[i].stride == s,
        forall|l: int| k <= l < i ==> q[l].stride != s,
    ensures
        first_with_stride(q, s, k) == i,
    decreases i - k,
{
    if k < i {
        lemma_first_with_stride(q, s, k + 1, i);
    }
}

/// The task picked from a nonempty queue has the smallest stride, and every task
/// before it has a larger one.
pub proof fn lemma_picked(q: Seq<StrideTask>)
    requires
        q.len() > 0,
    ensures
        0 <= picked(q) < q.len(),
        q[picked(q)].stride == min_stride(q),
        forall|k: int| 0 <= k < q.len() ==> q[picked(q)].stride <= #[trigger] q[k].stride,
        forall|k: int| 0 <= k < picked(q) ==> q[picked(q)].stride < #[trigger] q[k].stride,
{
    lemma_min_stride(q);
    let s = min_stride(q);
    let w = choose|k: int| 0 <= k < q.len() && #[trigger] q[k].stride == s;
    let i = lemma_first_index(q, s, 0, w);
    lemma_first_with_stride(q, s, 0, i);
}

proof fn lemma_first_index(q: Seq<StrideTask>, s: usize, lo: int, w: int) -> (i: int)
    requires
        0 <= lo <= w < q.len(),
        q[w].stride == s,
        forall|l: int| 0 <= l < lo ==> q[l].stride != s,
    ensures
        lo <= i <= w,
        q[i].stride == s,
        forall|l: int| 0 <= l < i ==> q[l].stride != s,
    decreases w - lo,
{
    if q[lo].stride == s {
        lo
    } else {
        lemma_first_index(q, s, lo + 1, w)
    }
}

/// A task that runs advances by exactly its pass: the advanced stride is the
/// old stride plus the pass as a whole number (so never smaller than the old
/// one) whenever that sum fits in a `usize`, and the id and pass stay.
pub proof fn law_advanced(t: StrideTask)
    requires
        t.stride + t.pass <= usize::MAX,
    ensures
        advanced(t).stride == t.stride + t.pass,
        advanced(t).stride >= t.stride,
        advanced(t).id == t.id,
        advanced(t).pass == t.pass,
{
}

/// The ready queue is first in, first out: adding a task at the back does not
/// change which task comes out next, and the added task comes out after all the
/// tasks queued before it.
pub proof fn law_fifo(q: Seq<StrideTask>, task: StrideTask)
    ensures
        q.push(task).len() > 0,
        q.len() == 0 ==> q.push(task)[0] == task && q.push(task).drop_first() == q,
        q.len() > 0 ==> q.push(task)[0] == q[0] && q.push(task).drop_first() == q.drop_first().push(
            task,
        ),
{
    if q.len() == 0 {
        assert(q.push(task).drop_first() =~= q);
    } else {
        assert(q.push(task).drop_first() =~= q.drop_first().push(task));
    }
}

impl TaskManager {
    /// The ready tasks, in queue order.
    pub closed spec fn queue(&self) -> Seq<StrideTask> {
        self.ready_queue@
    }

    /// Create an empty TaskManager.
    pub fn new() -> (m: Self)
        ensures
            m.queue() == Seq::<StrideTask>::empty(),
    {
        TaskManager { ready_queue: VecDeque::new() }
    }

    /// Add a task at the back of the ready queue.
    pub fn add(&mut self, task: StrideTask)
        ensures
            final(self).queue() == old(self).queue().push(task),
    {
        self.ready_queue.push_back(task);
    }

    /// Take the task at the front of the ready queue.
    pub fn fetch(&mut self) -> (r: Option<StrideTask>)
        ensures
            old(self).queue().len() == 0 ==> {
                &&& r == None::<StrideTask>
                &&& final(self).queue() == old(self).queue()
            },
            old(self).queue().len() > 0 ==> {
                &&& r == Some(old(self).queue()[0])
                &&& final(self).queue() == old(self).queue().drop_first()
            },
    {
        self.ready_queue.pop_front()
    }
}

/// Add a task to the ready queue.
pub fn add_task(manager: &mut TaskManager, task: StrideTask)
    ensures
        final(manager).queue() == old(manager).queue().push(task),
{
    manager.add(task);
}

/// The position of the first task with stride `s`.
fn position_of_stride(v: &Vec<StrideTask>, s: usize) -> (i: usize)
    requires
        exists|k: int| 0 <= k < v@.len() && v@[k].stride == s,
    ensures
        i < v@.len(),
        v@[i as int].stride == s,
        forall|l: int| 0 <= l < i ==> v@[l].stride != s,
{
    let mut i: usize = 0;
    while i < v.len()
        invariant
            i <= v@.len(),
            exists|k: int| i <= k < v@.len() && v@[k].stride == s,
            forall|l: int| 0 <= l < i ==> v@[l].stride != s,
        decreases v@.len() - i,
    {
        if v[i].stride == s {
            return i;
        }
        i = i + 1;
    }
    i
}

/// Whether the stride of the task that `fetch_task` would pick can advance by
/// its pass without leaving the range of `usize` (true for an empty queue).
pub fn pick_fits(manager: &TaskManager) -> (r: bool)
    ensures
        r == (manager.queue().len() > 0 ==> manager.queue()[picked(manager.queue())].stride
            + manager.queue()[picked(manager.queue())].pass <= usize::MAX),
{
    let ghost q = manager.queue();
    let n = manager.ready_queue.len();
    if n == 0 {
        return true;
    }
    let mut mini: usize = manager.ready_queue[0].stride;
    let mut i: usize = 1;
    proof {
        assert(q.take(1).len() == 1);
    }
    while i < n
        invariant
            n == q.len(),
            q == manager.queue(),
            1 <= i <= n,
            mini == min_stride(q.take(i as int)),
        decreases n - i,
    {
        proof {
            assert(q.take(i + 1).drop_last() =~= q.take(i as int));
            assert(q.take(i + 1).last() == q[i as int]);
        }
        if manager.ready_queue[i].stride < mini {
            mini = manager.ready_queue[i].stride;
        }
        i = i + 1;
    }
    proof {
        assert(q.take(n as int) =~= q);
        lemma_picked(q);
    }
    let mut k: usize = 0;
    while k < n
        invariant
            n == q.len(),
            q == manager.queue(),
            mini == min_stride(q),
            0 <= picked(q) < n,
            q[picked(q)].stride == mini,
            k <= picked(q),
            forall|l: int| 0 <= l < k ==> q[l].stride != mini,
        decreases n - k,
    {
        if manager.ready_queue[k].stride == mini {
            proof {
                lemma_first_with_stride(q, mini, 0, k as int);
            }
            let t = manager.ready_queue[k];
            return t.stride <= usize::MAX - t.pass;
        }
        proof {
            if k as int == picked(q) {
                assert(false);
            }
        }
        k = k + 1;
    }
    true
}

/// Take the task to run next out of the ready queue: the first of the tasks with
/// the smallest stride. Its stride advances by its pass; the other tasks stay
/// queued in their order. Returns `None` when no task is ready.
pub fn fetch_task(manager: &mut TaskManager) -> (r: Option<StrideTask>)
    requires
        old(manager).queue().len() > 0 ==> old(manager).queue()[picked(old(manager).queue())].stride
            + old(manager).queue()[picked(old(manager).queue())].pass <= usize::MAX,
    ensures
        old(manager).queue().len() == 0 ==> {
            &&& r == None::<StrideTask>
            &&& final(manager).queue() == old(manager).queue()
        },
        old(manager).queue().len() > 0 ==> {
            let q = old(manager).queue();
            &&& r == Some(advanced(q[picked(q)]))
            &&& r->0.id == q[picked(q)].id && r->0.pass == q[picked(q)].pass
            &&& r->0.stride == q[picked(q)].stride + q[picked(q)].pass
            &&& final(manager).queue() == q.remove(picked(q))
            &&& forall|k: int| 0 <= k < q.len() ==> q[picked(q)].stride <= #[trigger] q[k].stride
            &&& forall|k: int| 0 <= k < picked(q) ==> q[picked(q)].stride < #[trigger] q[k].stride
        },
{
    let ghost q = manager.queue();
    let first = manager.fetch();
    let mut ready_que: Vec<StrideTask> = Vec::new();
    let mut mini_stride: usize;
    match first {
        Some(task) => {
            mini_stride = task.stride;
            ready_que.push(task);
        },
        None => {
            return None;
        },
    }
    proof {
        assert(q.take(1).drop_last() =~= q.take(0));
        assert(ready_que@ =~= q.take(1));
    }
    loop
        invariant
            q.len() > 0,
            1 <= ready_que@.len() <= q.len(),
            ready_que@ == q.take(ready_que@.len() as int),
            manager.queue() == q.skip(ready_que@.len() as int),
            mini_stride == min_stride(q.take(ready_que@.len() as int)),
        ensures
            ready_que@ == q,
            manager.queue() == Seq::<StrideTask>::empty(),
            mini_stride == min_stride(q),
        decreases q.len() - ready_que@.len(),
    {
        let ghost k = ready_que@.len() as int;
        match manager.fetch() {
            Some(task) => {
                proof {
                    assert(q.skip(k)[0] == q[k]);
                    assert(q.skip(k).drop_first() =~= q.skip(k + 1));
                    assert(q.take(k + 1).drop_last() =~= q.take(k));
                    assert(q.take(k + 1).last() == q[k]);
                }
                if task.stride < mini_stride {
                    mini_stride = task.stride;
                }
                ready_que.push(task);
                proof {
                    assert(ready_que@ =~= q.take(k + 1));
                }
            },
            None => {
                proof {
                    assert(q.take(k) =~= q);
                }
                break;
            },
        }
    }
    proof {
        lemma_picked(q);
        lemma_first_with_stride(q, mini_stride, 0, picked(q));
    }
    let idx = position_of_stride(&ready_que, mini_stride);
    proof {
        lemma_first_with_stride(q, mini_stride, 0, idx as int);
    }
    let chosen = ready_que[idx];
    let task = StrideTask { id: chosen.id, stride: chosen.stride + chosen.pass, pass: chosen.pass };
    let mut i: usize = 0;
    while i < ready_que.len()
        invariant
            ready_que@ == q,
            idx < q.len(),
            i <= q.len(),
            manager.queue() == (if i <= idx {
                q.take(i as int)
            } else {
                q.take(idx as int) + q.subrange(idx + 1, i as int)
            }),
        decreases q.len() - i,
    {
        if i != idx {
            manager.add(ready_que[i]);
        }
        proof {
            if i < idx {
                assert(q.take(i + 1) =~= q.take(i as int).push(q[i as int]));
            } else if i == idx {
                assert(q.take(idx as int) + q.subrange(idx + 1, i + 1) =~= q.take(idx as int));
            } else {
                assert(q.take(idx as int) + q.subrange(idx + 1, i + 1) =~= (q.take(idx as int)
                    + q.subrange(idx + 1, i as int)).push(q[i as int]));
            }
        }
        i = i + 1;
    }
    proof {
        assert(q.take(idx as int) + q.subrange(idx + 1, q.len() as int) =~= q.remove(idx as int));
    }
    Some(task)
}

} // verus!
