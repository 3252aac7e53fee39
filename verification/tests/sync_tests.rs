use rcore_os::mutex::{LockOutcome, MutexKind, UnlockOutcome};
use rcore_os::sync_syscalls::{
    mutex_lock_acquired, mutex_try_lock, sleep_deadline, semaphore_down_acquired, sys_condvar_create, sys_condvar_signal,
    sys_condvar_wait, sys_enable_deadlock_detect, sys_mutex_create, sys_mutex_lock,
    sys_mutex_unlock, sys_semaphore_create, sys_semaphore_down, sys_semaphore_up, ProcessSync,
    DEADLOCK_REFUSED,
};

type Proc = ProcessSync<usize, &'static str>;

#[test]
fn new_process_has_nothing() {
    let p = Proc::new();
    assert!(p.mutex_list.is_empty());
    assert!(p.semaphore_list.is_empty());
    assert!(p.condvar_list.is_empty());
    assert!(!p.is_enable);
}

#[test]
fn mutex_create_registers_one_unit_and_reuses_free_slots() {
    let mut p = Proc::new();
    assert_eq!(sys_mutex_create(&mut p, false), 0);
    assert_eq!(sys_mutex_create(&mut p, true), 1);
    assert!(matches!(p.mutex_list[0], Some(MutexKind::Spin(_))));
    assert!(matches!(p.mutex_list[1], Some(MutexKind::Blocking(_))));
    assert_eq!(p.mutex_banker.available, vec![1, 1]);
    p.mutex_list[0] = None;
    assert_eq!(sys_mutex_create(&mut p, true), 0);
    assert!(matches!(p.mutex_list[0], Some(MutexKind::Blocking(_))));
    assert!(!p.mutex_list[0].as_ref().unwrap().is_locked());
    assert_eq!(p.mutex_list.len(), 2);
    assert_eq!(p.mutex_banker.available, vec![1, 1]);
}

#[test]
fn semaphore_create_registers_its_count() {
    let mut p = Proc::new();
    assert_eq!(sys_semaphore_create(&mut p, 3, |c| c * 10), 0);
    assert_eq!(sys_semaphore_create(&mut p, 0, |c| c * 10), 1);
    assert_eq!(p.semaphore_list, vec![Some(30), Some(0)]);
    assert_eq!(p.semaphore_banker.available, vec![3, 0]);
    assert!(p.mutex_banker.available.is_empty());
}

#[test]
fn condvar_create_and_lookup() {
    let mut p = Proc::new();
    assert_eq!(sys_mutex_create(&mut p, false), 0);
    assert_eq!(sys_condvar_create(&mut p, "c0"), 0);
    assert_eq!(sys_condvar_create(&mut p, "c1"), 1);
    assert_eq!(*sys_condvar_signal(&p, 1), "c1");
    let (c, m) = sys_condvar_wait(&p, 0, 0);
    assert_eq!(*c, "c0");
    assert!(matches!(m, MutexKind::Spin(_)));
}

#[test]
fn enable_deadlock_detect_only_on_one() {
    let mut p = Proc::new();
    assert_eq!(sys_enable_deadlock_detect(&mut p, 1), 0);
    assert!(p.is_enable);
    assert_eq!(sys_enable_deadlock_detect(&mut p, 2), 0);
    assert!(!p.is_enable);
}

#[test]
fn mutex_lock_and_unlock_bookkeeping() {
    let mut p = Proc::new();
    sys_mutex_create(&mut p, false);
    sys_enable_deadlock_detect(&mut p, 1);
    assert_eq!(sys_mutex_lock(&mut p, 0, 0), 0);
    assert_eq!(p.mutex_banker.need, vec![vec![1]]);
    assert_eq!(mutex_try_lock(&mut p, 0, 0), LockOutcome::Acquired);
    assert_eq!(mutex_try_lock(&mut p, 1, 0), LockOutcome::Retry);
    mutex_lock_acquired(&mut p, 0, 0);
    assert_eq!(p.mutex_banker.available, vec![0]);
    assert_eq!(p.mutex_banker.allocation, vec![vec![1]]);
    assert_eq!(p.mutex_banker.need, vec![vec![0]]);
    assert_eq!(sys_mutex_unlock(&mut p, 0, 0), (0, UnlockOutcome::Released));
    assert!(!p.mutex_list[0].as_ref().unwrap().is_locked());
    assert_eq!(p.mutex_banker.available, vec![1]);
    assert_eq!(p.mutex_banker.allocation, vec![vec![0]]);
    assert_eq!(p.mutex_banker.need, vec![vec![0]]);
}

#[test]
fn crossed_mutex_locks_are_refused_when_detection_is_on() {
    let mut p = Proc::new();
    sys_mutex_create(&mut p, true);
    sys_mutex_create(&mut p, true);
    sys_enable_deadlock_detect(&mut p, 1);
    assert_eq!(sys_mutex_lock(&mut p, 0, 0), 0);
    mutex_lock_acquired(&mut p, 0, 0);
    assert_eq!(sys_mutex_lock(&mut p, 1, 1), 0);
    mutex_lock_acquired(&mut p, 1, 1);
    // Thread 0 waits for mutex 1: still safe, thread 1 can finish.
    assert_eq!(sys_mutex_lock(&mut p, 0, 1), 0);
    // Thread 1 then asking for mutex 0 would deadlock.
    assert_eq!(sys_mutex_lock(&mut p, 1, 0), DEADLOCK_REFUSED);
    assert_eq!(DEADLOCK_REFUSED, -0xdead);
    assert_eq!(p.mutex_banker.need, vec![vec![0, 1], vec![0, 0]]);
}

#[test]
fn crossed_mutex_locks_pass_when_detection_is_off() {
    let mut p = Proc::new();
    sys_mutex_create(&mut p, true);
    sys_mutex_create(&mut p, true);
    sys_mutex_lock(&mut p, 0, 0);
    mutex_lock_acquired(&mut p, 0, 0);
    sys_mutex_lock(&mut p, 1, 1);
    mutex_lock_acquired(&mut p, 1, 1);
    assert_eq!(sys_mutex_lock(&mut p, 0, 1), 0);
    assert_eq!(sys_mutex_lock(&mut p, 1, 0), 0);
    assert_eq!(p.mutex_banker.need, vec![vec![0, 1], vec![1, 0]]);
}

#[test]
fn semaphore_down_is_refused_when_it_would_deadlock() {
    let mut p = Proc::new();
    sys_semaphore_create(&mut p, 1, |c| c);
    sys_semaphore_create(&mut p, 1, |c| c);
    sys_enable_deadlock_detect(&mut p, 1);
    assert_eq!(sys_semaphore_down(&mut p, 0, 0), 0);
    semaphore_down_acquired(&mut p, 0, 0);
    assert_eq!(sys_semaphore_down(&mut p, 1, 1), 0);
    semaphore_down_acquired(&mut p, 1, 1);
    assert_eq!(sys_semaphore_down(&mut p, 0, 1), 0);
    assert_eq!(sys_semaphore_down(&mut p, 1, 0), DEADLOCK_REFUSED);
    // Thread 1 gives its unit back: thread 0 can now get it.
    assert_eq!(sys_semaphore_up(&mut p, 1, 1), 0);
    assert_eq!(p.semaphore_banker.available, vec![0, 1]);
    semaphore_down_acquired(&mut p, 0, 1);
    assert_eq!(p.semaphore_banker.allocation, vec![vec![1, 1], vec![0, 0]]);
    assert_eq!(p.semaphore_banker.need, vec![vec![0, 0], vec![0, 0]]);
}

#[test]
fn blocking_mutex_syscalls_hand_over() {
    let mut p = Proc::new();
    sys_mutex_create(&mut p, true);
    sys_mutex_lock(&mut p, 0, 0);
    assert_eq!(mutex_try_lock(&mut p, 0, 0), LockOutcome::Acquired);
    mutex_lock_acquired(&mut p, 0, 0);
    sys_mutex_lock(&mut p, 1, 0);
    assert_eq!(mutex_try_lock(&mut p, 1, 0), LockOutcome::Blocked);
    assert_eq!(sys_mutex_unlock(&mut p, 0, 0), (0, UnlockOutcome::HandedOver(1)));
    assert!(p.mutex_list[0].as_ref().unwrap().is_locked());
    mutex_lock_acquired(&mut p, 1, 0);
    assert_eq!(p.mutex_banker.allocation, vec![vec![0], vec![1]]);
    assert_eq!(p.mutex_banker.available, vec![0]);
}

#[test]
fn sleep_deadline_adds() {
    assert_eq!(sleep_deadline(1000, 25), 1025);
}
