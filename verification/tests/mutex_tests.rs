use rcore_os::banker::Banker;
use rcore_os::mutex::{LockOutcome, Mutex, MutexBlocking, MutexSpin, UnlockOutcome};

fn one_mutex_banker() -> Banker {
    let mut b = Banker::new();
    b.add_new_resouce(0, 1);
    b
}

#[test]
fn spin_lock_retries_while_held() {
    let mut m = MutexSpin::new();
    assert_eq!(m.lock(1), LockOutcome::Acquired);
    assert_eq!(m.lock(2), LockOutcome::Retry);
    assert_eq!(m.unlock(), UnlockOutcome::Released);
    assert_eq!(m.lock(2), LockOutcome::Acquired);
}

#[test]
fn blocking_lock_hands_over_in_arrival_order() {
    let mut m = MutexBlocking::new();
    assert_eq!(m.lock(1), LockOutcome::Acquired);
    assert_eq!(m.lock(2), LockOutcome::Blocked);
    assert_eq!(m.lock(3), LockOutcome::Blocked);
    assert_eq!(m.unlock(), UnlockOutcome::HandedOver(2));
    assert_eq!(m.unlock(), UnlockOutcome::HandedOver(3));
    assert_eq!(m.unlock(), UnlockOutcome::Released);
    assert_eq!(m.lock(4), LockOutcome::Acquired);
}

#[test]
fn blocking_lock_unlock_on_idle_mutex_restores_it() {
    let mut m = MutexBlocking::new();
    assert_eq!(m.lock(7), LockOutcome::Acquired);
    assert_eq!(m.unlock(), UnlockOutcome::Released);
    assert_eq!(m.lock(8), LockOutcome::Acquired);
}

#[test]
fn spin_lock_with_mutex_id_books_the_unit() {
    let mut b = one_mutex_banker();
    b.add_need(0, 0, 1);
    let mut m = MutexSpin::new();
    assert_eq!(m.lock_with_mutex_id(0, 0, &mut b), LockOutcome::Acquired);
    assert_eq!(b.available, vec![0]);
    assert_eq!(b.allocation, vec![vec![1]]);
    assert_eq!(b.need, vec![vec![0]]);
    assert_eq!(m.lock_with_mutex_id(1, 0, &mut b), LockOutcome::Retry);
    assert_eq!(b.available, vec![0]);
    assert_eq!(m.unlock_with_mutex_id(0, 0, &mut b), UnlockOutcome::Released);
    assert_eq!(b.available, vec![1]);
    assert_eq!(b.allocation, vec![vec![0]]);
}

#[test]
fn blocking_lock_with_mutex_id_passes_the_unit_on() {
    let mut b = one_mutex_banker();
    let mut m = MutexBlocking::new();
    b.add_need(0, 0, 1);
    assert_eq!(m.lock_with_mutex_id(0, 0, &mut b), LockOutcome::Acquired);
    b.add_need(1, 0, 1);
    assert_eq!(m.lock_with_mutex_id(1, 0, &mut b), LockOutcome::Blocked);
    assert_eq!(m.unlock_with_mutex_id(0, 0, &mut b), UnlockOutcome::HandedOver(1));
    // The unit went from thread 0 to thread 1 without becoming free.
    assert_eq!(b.available, vec![0]);
    MutexBlocking::lock_resumed_with_mutex_id(1, 0, &mut b);
    assert_eq!(b.allocation, vec![vec![0], vec![1]]);
    assert_eq!(b.need, vec![vec![0], vec![0]]);
    assert_eq!(m.unlock_with_mutex_id(1, 0, &mut b), UnlockOutcome::Released);
    assert_eq!(b.available, vec![1]);
    assert_eq!(b.allocation, vec![vec![0], vec![0]]);
}
