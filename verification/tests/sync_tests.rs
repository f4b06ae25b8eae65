use os_kernel::sync::deadlock::detect_deadlock;
use os_kernel::sync::mutex::{AnyMutex, Mutex, MutexBlocking, MutexSpin};
use os_kernel::sync::semaphore::Semaphore;
use os_kernel::sync::{deadlock_check, deadlock_check_semaphore, LockStep};

#[test]
fn semaphore_down_until_blocked_then_up_wakes_oldest() {
    let mut s = Semaphore::new(2);
    assert_eq!(s.available_count(), 2);
    assert_eq!(s.get_owner(), -1);
    assert_eq!(s.down(1), LockStep::Acquired);
    assert_eq!(s.get_owner(), 1);
    assert_eq!(s.down(2), LockStep::Acquired);
    assert_eq!(s.available_count(), 0);
    assert_eq!(s.down(3), LockStep::Blocked);
    assert_eq!(s.down(4), LockStep::Blocked);
    assert_eq!(s.available_count(), 0);
    assert_eq!(s.inner.count, -2);
    assert!(s.is_waiting(3));
    assert!(s.is_waiting(4));
    assert!(!s.is_waiting(1));
    assert_eq!(s.get_owner(), 2);
    assert_eq!(s.up(), Some(3));
    assert_eq!(s.get_owner(), 3);
    assert!(!s.is_waiting(3));
    assert_eq!(s.up(), Some(4));
    assert_eq!(s.get_owner(), 4);
    assert_eq!(s.up(), None);
    assert_eq!(s.get_owner(), -1);
    assert_eq!(s.available_count(), 1);
}

#[test]
fn semaphore_down_then_up_restores_count() {
    let mut s = Semaphore::new(1);
    assert_eq!(s.down(7), LockStep::Acquired);
    assert_eq!(s.up(), None);
    assert_eq!(s.inner.count, 1);
    assert_eq!(s.inner.wait_queue.len(), 0);
    let mut t = Semaphore::new(0);
    assert_eq!(t.down(5), LockStep::Blocked);
    assert_eq!(t.up(), Some(5));
    assert_eq!(t.inner.count, 0);
}

#[test]
fn semaphore_balance_kept() {
    let mut s = Semaphore::new(0);
    for tid in 0..5 {
        assert_eq!(s.down(tid), LockStep::Blocked);
        assert_eq!(s.inner.wait_queue.len() as isize, -s.inner.count);
    }
    for tid in 0..5 {
        assert_eq!(s.up(), Some(tid));
        assert_eq!(s.inner.wait_queue.len() as isize, -s.inner.count);
    }
}

#[test]
fn semaphore_new_with_zero_units() {
    let s = Semaphore::new(0);
    assert_eq!(s.available_count(), 0);
    assert!(!s.is_waiting(0));
}

#[test]
fn spin_mutex_retry_until_unlocked() {
    let mut m = MutexSpin::new();
    assert!(!m.is_locked());
    assert_eq!(m.get_owner(), -1);
    assert_eq!(m.lock(1), LockStep::Acquired);
    assert!(m.is_locked());
    assert_eq!(m.get_owner(), 1);
    assert!(!m.is_waiting(1));
    assert_eq!(m.lock(2), LockStep::Retry);
    assert!(m.is_waiting(2));
    assert_eq!(m.get_owner(), 1);
    assert_eq!(m.try_acquire(2), LockStep::Retry);
    assert_eq!(m.unlock(), None);
    assert!(!m.is_locked());
    assert_eq!(m.get_owner(), -1);
    assert!(m.is_waiting(2));
    assert_eq!(m.try_acquire(2), LockStep::Acquired);
    assert_eq!(m.get_owner(), 2);
    assert!(!m.is_waiting(2));
}

#[test]
fn spin_mutex_acquire_removes_every_entry_of_the_task() {
    let mut m = MutexSpin::new();
    assert_eq!(m.lock(1), LockStep::Acquired);
    assert_eq!(m.lock(3), LockStep::Retry);
    assert_eq!(m.lock(3), LockStep::Retry);
    assert_eq!(m.lock(4), LockStep::Retry);
    m.unlock();
    assert_eq!(m.try_acquire(3), LockStep::Acquired);
    assert!(!m.is_waiting(3));
    assert!(m.is_waiting(4));
}

#[test]
fn blocking_mutex_hands_over_in_order() {
    let mut m = MutexBlocking::new();
    assert!(!m.is_locked());
    assert_eq!(m.lock(1), LockStep::Acquired);
    assert_eq!(m.lock(2), LockStep::Blocked);
    assert_eq!(m.lock(3), LockStep::Blocked);
    assert_eq!(m.get_owner(), 1);
    assert!(m.is_waiting(2));
    assert!(m.is_waiting(3));
    assert_eq!(m.unlock(), Some(2));
    assert!(m.is_locked());
    assert_eq!(m.get_owner(), 2);
    assert!(!m.is_waiting(2));
    assert_eq!(m.unlock(), Some(3));
    assert_eq!(m.get_owner(), 3);
    assert_eq!(m.unlock(), None);
    assert!(!m.is_locked());
    assert_eq!(m.get_owner(), -1);
}

#[test]
fn blocking_mutex_lock_unlock_restores_free_state() {
    let mut m = MutexBlocking::new();
    assert_eq!(m.lock(9), LockStep::Acquired);
    assert_eq!(m.unlock(), None);
    assert!(!m.is_locked());
    assert_eq!(m.get_owner(), -1);
    assert!(!m.is_waiting(9));
}

fn two_blocking_mutexes_in_a_cycle() -> Vec<Option<MutexBlocking>> {
    let mut m0 = MutexBlocking::new();
    let mut m1 = MutexBlocking::new();
    assert_eq!(m0.lock(0), LockStep::Acquired);
    assert_eq!(m1.lock(1), LockStep::Acquired);
    assert_eq!(m1.lock(0), LockStep::Blocked);
    vec![Some(m0), Some(m1)]
}

#[test]
fn deadlock_check_finds_a_cycle() {
    let list = two_blocking_mutexes_in_a_cycle();
    // task 1 holds mutex 1 and asks for mutex 0, held by task 0, which waits for mutex 1
    assert!(deadlock_check(&vec![true, true], &list, 1, 0));
}

#[test]
fn deadlock_check_allows_a_chain() {
    let mut m0 = MutexBlocking::new();
    let mut m1 = MutexBlocking::new();
    assert_eq!(m0.lock(0), LockStep::Acquired);
    assert_eq!(m1.lock(1), LockStep::Acquired);
    let list = vec![Some(m0), Some(m1)];
    // task 0 asks nothing else: it can finish and give mutex 0 back
    assert!(!deadlock_check(&vec![true, true], &list, 1, 0));
}

#[test]
fn deadlock_check_on_free_mutex() {
    let list = vec![Some(MutexBlocking::new())];
    assert!(!deadlock_check(&vec![true], &list, 0, 0));
}

#[test]
fn deadlock_check_refuses_missing_mutex() {
    let list: Vec<Option<MutexBlocking>> = vec![None, Some(MutexBlocking::new())];
    assert!(deadlock_check(&vec![true], &list, 0, 0));
    assert!(deadlock_check(&vec![true], &list, 0, 2));
    assert!(deadlock_check(&vec![true], &list, 0, 99));
}

#[test]
fn deadlock_check_refuses_relocking_own_mutex() {
    let mut m = MutexSpin::new();
    assert_eq!(m.lock(0), LockStep::Acquired);
    let list = vec![Some(m)];
    assert!(deadlock_check(&vec![true, true], &list, 0, 0));
    // another task asking for it just waits for the holder
    let mut m = MutexSpin::new();
    assert_eq!(m.lock(0), LockStep::Acquired);
    let list = vec![Some(m)];
    assert!(!deadlock_check(&vec![true, true], &list, 1, 0));
}

#[test]
fn deadlock_check_ignores_dead_tasks() {
    let mut m0 = MutexBlocking::new();
    assert_eq!(m0.lock(0), LockStep::Acquired);
    let list = vec![Some(m0)];
    // the holder is gone: nothing it holds comes back, so the request can never be met
    assert!(deadlock_check(&vec![false, true], &list, 1, 0));
}

#[test]
fn deadlock_check_with_spin_mutexes() {
    let mut a = MutexSpin::new();
    let mut b = MutexSpin::new();
    assert_eq!(a.lock(0), LockStep::Acquired);
    assert_eq!(b.lock(1), LockStep::Acquired);
    assert_eq!(b.lock(0), LockStep::Retry);
    let list = vec![Some(a), Some(b)];
    assert!(deadlock_check(&vec![true, true], &list, 1, 0));
}

#[test]
fn deadlock_check_semaphore_cycle_and_no_cycle() {
    let mut s0 = Semaphore::new(1);
    let mut s1 = Semaphore::new(1);
    assert_eq!(s0.down(0), LockStep::Acquired);
    assert_eq!(s1.down(1), LockStep::Acquired);
    assert_eq!(s1.down(0), LockStep::Blocked);
    let list = vec![Some(s0), Some(s1)];
    assert!(deadlock_check_semaphore(&vec![true, true], &list, 1, 0));

    let mut s0 = Semaphore::new(1);
    let s1 = Semaphore::new(1);
    assert_eq!(s0.down(0), LockStep::Acquired);
    let list = vec![Some(s0), Some(s1)];
    assert!(!deadlock_check_semaphore(&vec![true, true], &list, 1, 0));
}

#[test]
fn deadlock_check_semaphore_with_units_left() {
    let mut s0 = Semaphore::new(2);
    assert_eq!(s0.down(0), LockStep::Acquired);
    let list = vec![Some(s0)];
    assert!(!deadlock_check_semaphore(&vec![true, true], &list, 1, 0));
}

#[test]
fn deadlock_check_semaphore_refuses_missing() {
    let list: Vec<Option<Semaphore>> = vec![None];
    assert!(deadlock_check_semaphore(&vec![true], &list, 0, 0));
    assert!(deadlock_check_semaphore(&vec![true], &list, 0, 1));
}

#[test]
fn detect_deadlock_on_matrices() {
    // one unit free, task 0 holds none and wants it: safe
    assert!(!detect_deadlock(&vec![1], &vec![vec![0]], &vec![vec![1]], &vec![true]));
    // nothing free, task 0 wants the unit task 1 holds, task 1 wants the one task 0 holds
    assert!(detect_deadlock(
        &vec![0, 0],
        &vec![vec![1, 0], vec![0, 1]],
        &vec![vec![0, 1], vec![1, 0]],
        &vec![true, true]
    ));
    // the same with a free unit of resource 1: task 0 finishes first, then task 1
    assert!(!detect_deadlock(
        &vec![0, 1],
        &vec![vec![1, 0], vec![0, 1]],
        &vec![vec![0, 1], vec![1, 0]],
        &vec![true, true]
    ));
    // no tasks at all
    assert!(!detect_deadlock(&vec![3], &vec![], &vec![], &vec![]));
    // a dead task asks for what nobody can give, but needs nothing
    assert!(!detect_deadlock(&vec![0], &vec![vec![0]], &vec![vec![5]], &vec![false]));
}

#[test]
fn detect_deadlock_needs_several_passes() {
    // task 2 can finish first, which frees what task 1 needs, which frees what task 0 needs
    assert!(!detect_deadlock(
        &vec![0, 0, 1],
        &vec![vec![0, 0, 0], vec![1, 0, 0], vec![0, 1, 0]],
        &vec![vec![1, 0, 0], vec![0, 1, 0], vec![0, 0, 1]],
        &vec![true, true, true]
    ));
}

#[test]
fn deadlock_check_with_mixed_mutexes() {
    let mut a = MutexSpin::new();
    let mut b = MutexBlocking::new();
    assert_eq!(a.lock(0), LockStep::Acquired);
    assert_eq!(b.lock(1), LockStep::Acquired);
    assert_eq!(b.lock(0), LockStep::Blocked);
    let list = vec![Some(AnyMutex::Spin(a)), None, Some(AnyMutex::Blocking(b))];
    assert!(list[0].as_ref().unwrap().is_locked());
    assert!(list[2].as_ref().unwrap().is_waiting(0));
    assert_eq!(list[2].as_ref().unwrap().get_owner(), 1);
    assert!(deadlock_check(&vec![true, true], &list, 1, 0));
    assert!(deadlock_check(&vec![true, true], &list, 1, 1));
}

#[test]
fn any_mutex_lock_and_unlock() {
    let mut m = AnyMutex::Blocking(MutexBlocking::new());
    assert_eq!(m.lock(4), LockStep::Acquired);
    assert_eq!(m.lock(5), LockStep::Blocked);
    assert_eq!(m.unlock(), Some(5));
    assert_eq!(m.get_owner(), 5);
    let mut s = AnyMutex::Spin(MutexSpin::new());
    assert_eq!(s.unlock(), None);
    assert_eq!(s.lock(4), LockStep::Acquired);
    assert_eq!(s.lock(5), LockStep::Retry);
    assert_eq!(s.unlock(), None);
    assert!(!s.is_locked());
}

#[test]
fn more_waiters_keep_a_refusal() {
    // refused with task 0 waiting on mutex 1 ...
    let list = two_blocking_mutexes_in_a_cycle();
    assert!(deadlock_check(&vec![true, true, true], &list, 1, 0));
    // ... and still refused when task 2 waits too
    let mut list = two_blocking_mutexes_in_a_cycle();
    if let Some(m) = list[0].as_mut() {
        assert_eq!(m.lock(2), LockStep::Blocked);
    }
    assert!(deadlock_check(&vec![true, true, true], &list, 1, 0));
}
