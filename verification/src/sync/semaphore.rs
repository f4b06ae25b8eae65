//! Counting semaphore with a FIFO wait queue.

use std::collections::VecDeque;
use vstd::prelude::*;

use crate::sync::LockStep;

verus! {

/// The state of a semaphore.
pub struct SemaphoreInner {
    /// Units left; a negative count is the number of tasks waiting.
    pub count: isize,
    /// The ids of the blocked tasks, oldest first.
    pub wait_queue: VecDeque<usize>,
    /// The id of the task that took the last unit, or -1.
    pub owner: isize,
}

/// Semaphore structure.
pub struct Semaphore {
    /// Semaphore inner state.
    pub inner: SemaphoreInner,
}

/// The state of a semaphore as a mathematical value.
pub struct SemaphoreModel {
    /// Units left; negative when tasks wait.
    pub count: int,
    /// The ids of the waiting tasks, oldest first.
    pub queue: Seq<usize>,
    /// The recorded owner, -1 for none.
    pub owner: int,
}

impl SemaphoreModel {
    /// Exactly as many tasks wait as units are owed.
    pub open spec fn wf(self) -> bool {
        self.queue.len() == (if self.count < 0 {
            -self.count
        } else {
            0
        })
    }

    /// The state after `down` by the task `tid`.
    pub open spec fn down(self, tid: usize) -> SemaphoreModel {
        if self.count - 1 < 0 {
            SemaphoreModel { count: self.count - 1, queue: self.queue.push(tid), owner: self.owner }
        } else {
            SemaphoreModel { count: self.count - 1, queue: self.queue, owner: tid as isize as int }
        }
    }

    /// The state after `up`, and the task it wakes.
    pub open spec fn up(self) -> (SemaphoreModel, Option<usize>) {
        if self.count + 1 <= 0 {
            if self.queue.len() > 0 {
                (
                    SemaphoreModel {
                        count: self.count + 1,
                        queue: self.queue.drop_first(),
                        owner: self.queue[0] as isize as int,
                    },
                    Some(self.queue[0]),
                )
            } else {
                (SemaphoreModel { count: self.count + 1, queue: self.queue, owner: self.owner }, None)
            }
        } else {
            (SemaphoreModel { count: self.count + 1, queue: self.queue, owner: -1 }, None)
        }
    }
}

/// `new` sets up, and `up` and `down` keep, the balance between waiting tasks and
/// units owed.
pub proof fn law_semaphore_balance(s: SemaphoreModel, tid: usize)
    requires
        s.wf(),
    ensures
        s.down(tid).wf(),
        s.up().0.wf(),
        s.count + 1 <= 0 ==> s.up().1 == Some(s.queue[0]),
{
}

/// An `up` after a `down` restores the count; when the `down` did not block and
/// nobody waited, it restores the queue too.
pub proof fn law_down_then_up(s: SemaphoreModel, tid: usize)
    requires
        s.wf(),
    ensures
        s.down(tid).up().0.count == s.count,
        s.count > 0 ==> s.down(tid).up().0.queue == s.queue && s.down(tid).up().1 == None::<
            usize,
        >,
        s.count <= 0 ==> s.down(tid).up().1 == Some(s.down(tid).queue[0]),
{
}

impl Semaphore {
    /// The state as a mathematical value.
    pub open spec fn model(&self) -> SemaphoreModel {
        SemaphoreModel {
            count: self.inner.count as int,
            queue: self.inner.wait_queue@,
            owner: self.inner.owner as int,
        }
    }

    /// The units left (negative: tasks owed a unit).
    pub open spec fn count(&self) -> int {
        self.inner.count as int
    }

    /// The ids of the waiting tasks, oldest first.
    pub open spec fn queue(&self) -> Seq<usize> {
        self.inner.wait_queue@
    }

    /// The recorded owner.
    pub open spec fn owner(&self) -> int {
        self.inner.owner as int
    }

    /// The units that `available_count` reports: the count, or 0 when none is left.
    pub open spec fn available(&self) -> nat {
        if self.count() > 0 {
            self.count() as nat
        } else {
            0
        }
    }

    /// Create a new semaphore with `res_count` units.
    pub fn new(res_count: usize) -> (s: Self)
        ensures
            s.count() == res_count as isize,
            s.queue() == Seq::<usize>::empty(),
            s.owner() == -1,
            res_count <= isize::MAX ==> s.model().wf(),
    {
        Semaphore {
            inner: SemaphoreInner {
                count: res_count as isize,
                wait_queue: VecDeque::new(),
                owner: -1,
            },
        }
    }

    /// Get the owner of the semaphore.
    pub fn get_owner(&self) -> (r: isize)
        ensures
            r == self.owner(),
    {
        self.inner.owner
    }

    /// Check whether the task `tid` is waiting in the queue.
    pub fn is_waiting(&self, tid: usize) -> (r: bool)
        ensures
            r == self.queue().contains(tid),
    {
        let n = self.inner.wait_queue.len();
        let mut i: usize = 0;
        while i < n
            invariant
                n == self.queue().len(),
                i <= n,
                forall|k: int| 0 <= k < i ==> self.queue()[k] != tid,
            decreases n - i,
        {
            if self.inner.wait_queue[i] == tid {
                assert(self.queue()[i as int] == tid);
                return true;
            }
            i = i + 1;
        }
        false
    }

    /// The units currently available: never negative.
    pub fn available_count(&self) -> (r: usize)
        ensures
            r == self.available(),
    {
        let count = self.inner.count;
        if count > 0 {
            count as usize
        } else {
            0
        }
    }

    /// Release one unit. When a task was owed one, the oldest waiter becomes the
    /// owner and its id is returned: the caller wakes it up.
    pub fn up(&mut self) -> (woken: Option<usize>)
        requires
            old(self).count() < isize::MAX,
        ensures
            (final(self).model(), woken) == old(self).model().up(),
            old(self).model().wf() ==> final(self).model().wf(),
            old(self).model().wf() && old(self).count() + 1 <= 0 ==> woken is Some,
    {
        proof {
            if self.model().wf() {
                law_semaphore_balance(self.model(), 0);
            }
        }
        self.inner.count = self.inner.count + 1;
        if self.inner.count <= 0 {
            match self.inner.wait_queue.pop_front() {
                Some(task) => {
                    self.inner.owner = task as isize;
                    Some(task)
                },
                None => None,
            }
        } else {
            self.inner.owner = -1;
            None
        }
    }

    /// Take one unit for the task `tid`. When none is left the task is queued and
    /// must block; otherwise it becomes the owner.
    pub fn down(&mut self, tid: usize) -> (step: LockStep)
        requires
            old(self).count() > isize::MIN,
        ensures
            final(self).model() == old(self).model().down(tid),
            old(self).model().wf() ==> final(self).model().wf(),
            step == (if old(self).count() - 1 < 0 {
                LockStep::Blocked
            } else {
                LockStep::Acquired
            }),
    {
        proof {
            if self.model().wf() {
                law_semaphore_balance(self.model(), tid);
            }
        }
        self.inner.count = self.inner.count - 1;
        if self.inner.count < 0 {
            self.inner.wait_queue.push_back(tid);
            LockStep::Blocked
        } else {
            self.inner.owner = tid as isize;
            LockStep::Acquired
        }
    }
}

} // verus!
