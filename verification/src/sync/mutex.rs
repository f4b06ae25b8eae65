//! Mutexes: a spinning one and a blocking one.
//!
//! The state of a mutex is kept here; what a task must do after asking for it
//! (go on, block, or yield and try again) is returned as a `LockStep`, and the
//! task to wake after an unlock, if any, is returned by `unlock`.

use std::collections::VecDeque;
use vstd::prelude::*;

use crate::sync::LockStep;

verus! {

/// Mutex trait.
pub trait Mutex: Sized {
    /// Whether the mutex is held.
    spec fn locked_view(&self) -> bool;

    /// The recorded owner, -1 when there is none.
    spec fn owner_view(&self) -> isize;

    /// Whether the task `tid` waits for the mutex.
    spec fn waiting_view(&self, tid: usize) -> bool;

    /// Whether `unlock` may be called in this state.
    spec fn may_unlock(&self) -> bool;

    /// Ask for the mutex on behalf of the task `tid`.
    fn lock(&mut self, tid: usize) -> (step: LockStep);

    /// Release the mutex; returns the task to wake up, if any.
    fn unlock(&mut self) -> (woken: Option<usize>)
        requires
            old(self).may_unlock(),
    ;

    /// Check if the mutex is locked.
    fn is_locked(&self) -> (r: bool)
        ensures
            r == self.locked_view(),
    ;

    /// Get the owner of the mutex.
    fn get_owner(&self) -> (r: isize)
        ensures
            r == self.owner_view(),
    ;

    /// Check if the task `tid` waits for the mutex.
    fn is_waiting(&self, tid: usize) -> (r: bool)
        ensures
            r == self.waiting_view(tid),
    ;
}

/// The sequence `s` with every occurrence of `tid` taken out, order kept.
pub open spec fn without(s: Seq<usize>, tid: usize) -> Seq<usize> {
    s.filter(other_than(tid))
}

/// The test that keeps every id but `tid`.
pub open spec fn other_than(tid: usize) -> spec_fn(usize) -> bool {
    |t: usize| t != tid
}

proof fn lemma_without_push(s: Seq<usize>, e: usize, tid: usize)
    ensures
        without(s.push(e), tid) == (if e != tid {
            without(s, tid).push(e)
        } else {
            without(s, tid)
        }),
{
    s.lemma_filter_push(e, other_than(tid));
}

/// The state of a spinlock mutex as a mathematical value.
pub struct SpinModel {
    /// Whether the lock is held.
    pub locked: bool,
    /// The recorded owner, -1 for none.
    pub owner: int,
    /// The ids of the tasks that announced they wait, in order of arrival.
    pub waiters: Seq<usize>,
}

impl SpinModel {
    /// A free lock has no owner.
    pub open spec fn wf(self) -> bool {
        !self.locked ==> self.owner == -1
    }

    /// One attempt of the task `tid`: a free lock goes to it and the task leaves
    /// the waiters; a held lock is left alone and the task must try again.
    pub open spec fn attempt(self, tid: usize) -> (SpinModel, LockStep) {
        if self.locked {
            (self, LockStep::Retry)
        } else {
            (
                SpinModel {
                    locked: true,
                    owner: tid as isize as int,
                    waiters: without(self.waiters, tid),
                },
                LockStep::Acquired,
            )
        }
    }

    /// `lock`: the task joins the waiters, then makes its first attempt.
    pub open spec fn lock(self, tid: usize) -> (SpinModel, LockStep) {
        SpinModel { waiters: self.waiters.push(tid), ..self }.attempt(tid)
    }

    /// `unlock`: the lock is free and without owner; the waiters stay.
    pub open spec fn unlock(self) -> SpinModel {
        SpinModel { locked: false, owner: -1, waiters: self.waiters }
    }
}

/// The state of a blocking mutex as a mathematical value.
pub struct MutexModel {
    /// Whether the mutex is held.
    pub locked: bool,
    /// The recorded owner, -1 for none.
    pub owner: int,
    /// The ids of the blocked tasks, oldest first.
    pub queue: Seq<usize>,
}

impl MutexModel {
    /// A free mutex has no owner and nobody waiting.
    pub open spec fn wf(self) -> bool {
        !self.locked ==> self.owner == -1 && self.queue.len() == 0
    }

    /// `lock` by the task `tid`: a free mutex goes to it; a held one queues it.
    pub open spec fn lock(self, tid: usize) -> (MutexModel, LockStep) {
        if self.locked {
            (MutexModel { queue: self.queue.push(tid), ..self }, LockStep::Blocked)
        } else {
            (
                MutexModel { locked: true, owner: tid as isize as int, queue: self.queue },
                LockStep::Acquired,
            )
        }
    }

    /// `unlock`: the oldest waiter, if any, becomes the owner and is woken up;
    /// otherwise the mutex is free.
    pub open spec fn unlock(self) -> (MutexModel, Option<usize>) {
        if self.queue.len() > 0 {
            (
                MutexModel {
                    locked: self.locked,
                    owner: self.queue[0] as isize as int,
                    queue: self.queue.drop_first(),
                },
                Some(self.queue[0]),
            )
        } else {
            (MutexModel { locked: false, owner: -1, queue: self.queue }, None)
        }
    }
}

/// `new` sets up, and `lock`, `unlock` and every attempt keep: a free spinlock
/// has no owner.
pub proof fn law_spin_wf(s: SpinModel, tid: usize)
    requires
        s.wf(),
    ensures
        s.lock(tid).0.wf(),
        s.attempt(tid).0.wf(),
        s.unlock().wf(),
{
}

/// A task that gets the spinlock holds it and no longer counts among the waiters;
/// a task that finds it held changes neither its holder nor its state.
pub proof fn law_spin_acquire(s: SpinModel, tid: usize)
    ensures
        !s.locked ==> s.lock(tid).1 == LockStep::Acquired && s.lock(tid).0.owner == tid as isize
            && !s.lock(tid).0.waiters.contains(tid),
        s.locked ==> s.lock(tid).1 == LockStep::Retry && s.lock(tid).0.owner == s.owner
            && s.lock(tid).0.locked,
{
    if !s.locked {
        let w = s.waiters.push(tid);
        assert forall|i: int| 0 <= i < without(w, tid).len() implies without(w, tid)[i] != tid by {
            w.lemma_filter_pred(other_than(tid), i);
        }
    }
}

/// Taking out one id keeps every other waiter and drops that id.
pub proof fn lemma_without_contains(s: Seq<usize>, tid: usize, t: usize)
    ensures
        without(s, tid).contains(t) == (s.contains(t) && t != tid),
{
    if without(s, tid).contains(t) {
        s.lemma_filter_contains_rev(other_than(tid), t);
        let i = choose|i: int| 0 <= i < without(s, tid).len() && without(s, tid)[i] == t;
        s.lemma_filter_pred(other_than(tid), i);
    }
    if s.contains(t) && t != tid {
        let i = choose|i: int| 0 <= i < s.len() && s[i] == t;
        s.lemma_filter_contains(other_than(tid), i);
    }
}

/// `lock` by `tid` on a free spinlock records no new waiter and forgets no
/// waiter but `tid`: afterwards exactly the tasks other than `tid` that waited
/// before still wait, and `tid` does not. On a held spinlock `tid` joins the
/// waiters at the back and nobody leaves.
pub proof fn law_spin_lock_waiters(s: SpinModel, tid: usize, t: usize)
    ensures
        !s.locked ==> (s.lock(tid).0.waiters.contains(t) <==> (s.waiters.contains(t) && t != tid)),
        !s.locked ==> s.lock(tid).0.waiters.len() <= s.waiters.len(),
        s.locked ==> s.lock(tid).0.waiters.len() == s.waiters.len() + 1 && s.lock(tid).0.waiters.last()
            == tid && s.lock(tid).0.waiters.drop_last() == s.waiters,
{
    let w = s.waiters.push(tid);
    lemma_without_contains(w, tid, t);
    if !s.locked {
        assert(w.contains(t) == (s.waiters.contains(t) || t == tid)) by {
            if s.waiters.contains(t) {
                let i = choose|i: int| 0 <= i < s.waiters.len() && s.waiters[i] == t;
                assert(w[i] == t);
            }
            if w.contains(t) && t != tid {
                let i = choose|i: int| 0 <= i < w.len() && w[i] == t;
                assert(s.waiters[i] == t);
            }
            assert(w[s.waiters.len() as int] == tid);
        }
        lemma_without_push(s.waiters, tid, tid);
        w.lemma_filter_len(other_than(tid));
        s.waiters.lemma_filter_len(other_than(tid));
    } else {
        assert(w.drop_last() =~= s.waiters);
    }
}

/// `new` sets up, and `lock` and `unlock` keep: a free blocking mutex has no
/// owner and nobody waiting.
pub proof fn law_blocking_wf(s: MutexModel, tid: usize)
    requires
        s.wf(),
    ensures
        s.lock(tid).0.wf(),
        s.unlock().0.wf(),
{
}

/// Locking a free blocking mutex and unlocking it again gives back the free
/// mutex and wakes nobody.
pub proof fn law_blocking_lock_unlock(s: MutexModel, tid: usize)
    requires
        s.wf(),
        !s.locked,
    ensures
        s.lock(tid).1 == LockStep::Acquired,
        s.lock(tid).0.unlock() == (s, None::<usize>),
{
    assert(s.queue =~= Seq::<usize>::empty());
}

/// A held blocking mutex never changes hands on `lock`: the caller blocks, and
/// the next `unlock` hands the mutex to the oldest waiter, which the caller is
/// when nobody waited before it.
pub proof fn law_blocking_handoff(s: MutexModel, tid: usize)
    requires
        s.locked,
    ensures
        s.lock(tid).1 == LockStep::Blocked,
        s.lock(tid).0.owner == s.owner,
        s.lock(tid).0.locked,
        s.lock(tid).0.unlock().0.locked,
        s.queue.len() == 0 ==> s.lock(tid).0.unlock().1 == Some(tid) && s.lock(tid).0.unlock().0.owner
            == tid as isize,
{
}

/// Spinlock mutex state.
pub struct MutexSpinInner {
    owner: isize,
    locked: bool,
    wait_tids: Vec<usize>,
}

/// Spinlock mutex: a task that finds it taken yields and tries again.
pub struct MutexSpin {
    inner: MutexSpinInner,
}

impl MutexSpin {
    /// The ids of the tasks that announced they wait, in order of arrival.
    pub closed spec fn waiters(&self) -> Seq<usize> {
        self.inner.wait_tids@
    }

    /// The state as a mathematical value.
    pub open spec fn model(&self) -> SpinModel {
        SpinModel {
            locked: self.locked_view(),
            owner: self.owner_view() as int,
            waiters: self.waiters(),
        }
    }

    /// Create a new spinlock mutex: free, without owner, nobody waiting.
    pub fn new() -> (m: Self)
        ensures
            m.model() == (SpinModel { locked: false, owner: -1, waiters: Seq::empty() }),
            m.model().wf(),
    {
        MutexSpin { inner: MutexSpinInner { owner: -1, locked: false, wait_tids: Vec::new() } }
    }

    /// One attempt of the task `tid` at the lock. When the lock is free the task
    /// takes it and leaves the waiters; otherwise nothing changes and the task
    /// must yield and try again.
    pub fn try_acquire(&mut self, tid: usize) -> (step: LockStep)
        ensures
            (final(self).model(), step) == old(self).model().attempt(tid),
    {
        if self.inner.locked {
            LockStep::Retry
        } else {
            self.inner.locked = true;
            self.inner.owner = tid as isize;
            let ghost start = self.inner.wait_tids@;
            let mut kept: Vec<usize> = Vec::new();
            let mut i: usize = 0;
            while i < self.inner.wait_tids.len()
                invariant
                    start == self.inner.wait_tids@,
                    i <= start.len(),
                    kept@ == without(start.take(i as int), tid),
                decreases start.len() - i,
            {
                let t = self.inner.wait_tids[i];
                let ghost next = start.take(i + 1);
                proof {
                    assert(next =~= start.take(i as int).push(t));
                    lemma_without_push(start.take(i as int), t, tid);
                }
                if t != tid {
                    kept.push(t);
                }
                assert(kept@ == without(next, tid));
                i = i + 1;
            }
            proof {
                assert(start.take(start.len() as int) =~= start);
            }
            self.inner.wait_tids = kept;
            LockStep::Acquired
        }
    }
}

impl Mutex for MutexSpin {
    closed spec fn locked_view(&self) -> bool {
        self.inner.locked
    }

    closed spec fn owner_view(&self) -> isize {
        self.inner.owner
    }

    open spec fn waiting_view(&self, tid: usize) -> bool {
        self.waiters().contains(tid)
    }

    /// A spinlock may always be unlocked.
    open spec fn may_unlock(&self) -> bool {
        true
    }

    /// Lock the spinlock mutex: the task `tid` joins the waiters and makes its first
    /// attempt (see `try_acquire`).
    fn lock(&mut self, tid: usize) -> (step: LockStep)
        ensures
            (final(self).model(), step) == old(self).model().lock(tid),
    {
        self.inner.wait_tids.push(tid);
        self.try_acquire(tid)
    }

    /// Unlock the spinlock mutex: free and without owner; the waiters stay.
    fn unlock(&mut self) -> (woken: Option<usize>)
        ensures
            woken == None::<usize>,
            final(self).model() == old(self).model().unlock(),
    {
        self.inner.locked = false;
        self.inner.owner = -1;
        None
    }

    fn is_locked(&self) -> (r: bool) {
        self.inner.locked
    }

    fn get_owner(&self) -> (r: isize) {
        self.inner.owner
    }

    fn is_waiting(&self, tid: usize) -> (r: bool)
        ensures
            r == self.waiters().contains(tid),
    {
        let n = self.inner.wait_tids.len();
        let mut i: usize = 0;
        while i < n
            invariant
                n == self.inner.wait_tids@.len(),
                i <= n,
                forall|k: int| 0 <= k < i ==> self.inner.wait_tids@[k] != tid,
            decreases n - i,
        {
            if self.inner.wait_tids[i] == tid {
                return true;
            }
            i = i + 1;
        }
        false
    }
}

/// Blocking mutex state.
pub struct MutexBlockingInner {
    locked: bool,
    wait_queue: VecDeque<usize>,
    owner: isize,
}

/// Blocking mutex: a task that finds it taken is queued and blocks; unlocking
/// hands the mutex to the oldest waiter.
pub struct MutexBlocking {
    inner: MutexBlockingInner,
}

impl MutexBlocking {
    /// The ids of the blocked tasks, oldest first.
    pub closed spec fn queue(&self) -> Seq<usize> {
        self.inner.wait_queue@
    }

    /// The state as a mathematical value.
    pub open spec fn model(&self) -> MutexModel {
        MutexModel {
            locked: self.locked_view(),
            owner: self.owner_view() as int,
            queue: self.queue(),
        }
    }

    /// Create a new blocking mutex: free, without owner, nobody waiting.
    pub fn new() -> (m: Self)
        ensures
            m.model() == (MutexModel { locked: false, owner: -1, queue: Seq::empty() }),
            m.model().wf(),
    {
        MutexBlocking {
            inner: MutexBlockingInner { locked: false, wait_queue: VecDeque::new(), owner: -1 },
        }
    }
}

impl Mutex for MutexBlocking {
    closed spec fn locked_view(&self) -> bool {
        self.inner.locked
    }

    closed spec fn owner_view(&self) -> isize {
        self.inner.owner
    }

    open spec fn waiting_view(&self, tid: usize) -> bool {
        self.queue().contains(tid)
    }

    /// A blocking mutex may only be unlocked while it is held.
    open spec fn may_unlock(&self) -> bool {
        self.locked_view()
    }

    /// Lock the blocking mutex: a free mutex goes to the task `tid`; a held one
    /// queues the task, which must block.
    fn lock(&mut self, tid: usize) -> (step: LockStep)
        ensures
            (final(self).model(), step) == old(self).model().lock(tid),
    {
        if self.inner.locked {
            self.inner.wait_queue.push_back(tid);
            LockStep::Blocked
        } else {
            self.inner.owner = tid as isize;
            self.inner.locked = true;
            LockStep::Acquired
        }
    }

    /// Unlock the blocking mutex: the oldest waiter, if any, becomes the owner and
    /// must be woken up; otherwise the mutex is free.
    fn unlock(&mut self) -> (woken: Option<usize>)
        ensures
            (final(self).model(), woken) == old(self).model().unlock(),
    {
        match self.inner.wait_queue.pop_front() {
            Some(waking) => {
                self.inner.owner = waking as isize;
                Some(waking)
            },
            None => {
                self.inner.owner = -1;
                self.inner.locked = false;
                None
            },
        }
    }

    fn is_locked(&self) -> (r: bool) {
        self.inner.locked
    }

    fn get_owner(&self) -> (r: isize) {
        self.inner.owner
    }

    fn is_waiting(&self, tid: usize) -> (r: bool)
        ensures
            r == self.queue().contains(tid),
    {
        let n = self.inner.wait_queue.len();
        let mut i: usize = 0;
        while i < n
            invariant
                n == self.inner.wait_queue@.len(),
                i <= n,
                forall|k: int| 0 <= k < i ==> self.inner.wait_queue@[k] != tid,
            decreases n - i,
        {
            if self.inner.wait_queue[i] == tid {
                return true;
            }
            i = i + 1;
        }
        false
    }
}

/// A mutex of either kind, as a process keeps them side by side.
pub enum AnyMutex {
    /// A spinlock mutex.
    Spin(MutexSpin),
    /// A blocking mutex.
    Blocking(MutexBlocking),
}

impl Mutex for AnyMutex {
    open spec fn locked_view(&self) -> bool {
        match self {
            AnyMutex::Spin(m) => m.locked_view(),
            AnyMutex::Blocking(m) => m.locked_view(),
        }
    }

    open spec fn owner_view(&self) -> isize {
        match self {
            AnyMutex::Spin(m) => m.owner_view(),
            AnyMutex::Blocking(m) => m.owner_view(),
        }
    }

    open spec fn waiting_view(&self, tid: usize) -> bool {
        match self {
            AnyMutex::Spin(m) => m.waiting_view(tid),
            AnyMutex::Blocking(m) => m.waiting_view(tid),
        }
    }

    open spec fn may_unlock(&self) -> bool {
        match self {
            AnyMutex::Spin(m) => m.may_unlock(),
            AnyMutex::Blocking(m) => m.may_unlock(),
        }
    }

    /// Lock the mutex of whichever kind it is.
    fn lock(&mut self, tid: usize) -> (step: LockStep)
        ensures
            match *old(self) {
                AnyMutex::Spin(m) => *final(self) matches AnyMutex::Spin(m2) && (m2.model(), step)
                    == m.model().lock(tid),
                AnyMutex::Blocking(m) => *final(self) matches AnyMutex::Blocking(m2) && (
                    m2.model(),
                    step,
                ) == m.model().lock(tid),
            },
    {
        match self {
            AnyMutex::Spin(m) => m.lock(tid),
            AnyMutex::Blocking(m) => m.lock(tid),
        }
    }

    /// Unlock the mutex of whichever kind it is.
    fn unlock(&mut self) -> (woken: Option<usize>)
        ensures
            match *old(self) {
                AnyMutex::Spin(m) => *final(self) matches AnyMutex::Spin(m2) && m2.model()
                    == m.model().unlock() && woken == None::<usize>,
                AnyMutex::Blocking(m) => *final(self) matches AnyMutex::Blocking(m2) && (
                    m2.model(),
                    woken,
                ) == m.model().unlock(),
            },
    {
        match self {
            AnyMutex::Spin(m) => m.unlock(),
            AnyMutex::Blocking(m) => m.unlock(),
        }
    }

    fn is_locked(&self) -> (r: bool) {
        match self {
            AnyMutex::Spin(m) => m.is_locked(),
            AnyMutex::Blocking(m) => m.is_locked(),
        }
    }

    fn get_owner(&self) -> (r: isize) {
        match self {
            AnyMutex::Spin(m) => m.get_owner(),
            AnyMutex::Blocking(m) => m.get_owner(),
        }
    }

    fn is_waiting(&self, tid: usize) -> (r: bool) {
        match self {
            AnyMutex::Spin(m) => m.is_waiting(tid),
            AnyMutex::Blocking(m) => m.is_waiting(tid),
        }
    }
}

/// A mutex of either kind reports the state of the mutex it holds: whether it is
/// locked, its owner, and as waiters exactly the recorded waiters of a spinlock
/// or the queued tasks of a blocking mutex.
pub proof fn law_any_mutex_reports_inner(spin: MutexSpin, blocking: MutexBlocking, t: usize)
    ensures
        AnyMutex::Spin(spin).locked_view() == spin.model().locked,
        AnyMutex::Spin(spin).owner_view() as int == spin.model().owner,
        AnyMutex::Spin(spin).waiting_view(t) == spin.model().waiters.contains(t),
        AnyMutex::Spin(spin).may_unlock(),
        AnyMutex::Blocking(blocking).locked_view() == blocking.model().locked,
        AnyMutex::Blocking(blocking).owner_view() as int == blocking.model().owner,
        AnyMutex::Blocking(blocking).waiting_view(t) == blocking.model().queue.contains(t),
        AnyMutex::Blocking(blocking).may_unlock() == blocking.model().locked,
{
}

} // verus!
