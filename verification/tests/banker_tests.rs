use rcore_os::banker::Banker;

fn table(rows: &[&[i32]]) -> Vec<Vec<i32>> {
    rows.iter().map(|r| r.to_vec()).collect()
}

fn banker(available: &[i32], allocation: &[&[i32]], need: &[&[i32]]) -> Banker {
    Banker { available: available.to_vec(), allocation: table(allocation), need: table(need) }
}

#[test]
fn new_banker_is_empty() {
    let b = Banker::new();
    assert!(b.available.is_empty());
    assert!(b.allocation.is_empty());
    assert!(b.need.is_empty());
}

#[test]
fn add_new_resource_grows_available_with_zeros() {
    let mut b = Banker::new();
    b.add_new_resouce(2, 3);
    assert_eq!(b.available, vec![0, 0, 3]);
    b.add_new_resouce(0, 1);
    assert_eq!(b.available, vec![1, 0, 3]);
    assert!(b.allocation.is_empty());
    assert!(b.need.is_empty());
}

#[test]
fn add_new_resource_truncates_count_to_i32() {
    let mut b = Banker::new();
    b.add_new_resouce(0, (1usize << 32) + 7);
    assert_eq!(b.available, vec![7]);
}

#[test]
fn add_need_grows_tables_lazily() {
    let mut b = Banker::new();
    b.add_new_resouce(0, 1);
    b.add_need(1, 0, 1);
    assert_eq!(b.allocation, vec![vec![0], vec![0]]);
    assert_eq!(b.need, vec![vec![0], vec![1]]);
    b.add_new_resouce(1, 2);
    b.add_allocation(0, 1, 1);
    assert_eq!(b.allocation, vec![vec![0, 1], vec![0, 0]]);
    assert_eq!(b.need, vec![vec![0, 0], vec![1, 0]]);
}

#[test]
fn add_available_adds_delta() {
    let mut b = Banker::new();
    b.add_new_resouce(0, 2);
    b.add_available(0, -1);
    assert_eq!(b.available, vec![1]);
    b.add_available(0, 3);
    assert_eq!(b.available, vec![4]);
}

#[test]
fn need_request_then_withdrawal_restores_need() {
    let mut b = Banker::new();
    b.add_new_resouce(0, 1);
    b.add_new_resouce(1, 1);
    b.add_need(0, 1, 1);
    b.add_need(0, 1, -1);
    assert_eq!(b.need, vec![vec![0, 0]]);
}

#[test]
fn textbook_state_is_safe() {
    // Five threads, three resources; safe order 1, 3, 4, 0, 2 exists.
    let b = banker(
        &[3, 3, 2],
        &[&[0, 1, 0], &[2, 0, 0], &[3, 0, 2], &[2, 1, 1], &[0, 0, 2]],
        &[&[7, 4, 3], &[1, 2, 2], &[6, 0, 0], &[0, 1, 1], &[4, 3, 1]],
    );
    assert!(b.banker_check());
}

#[test]
fn textbook_state_with_too_large_request_is_unsafe() {
    let b = banker(
        &[2, 3, 0],
        &[&[0, 1, 0], &[3, 0, 2], &[3, 0, 2], &[2, 1, 1], &[0, 0, 2]],
        &[&[7, 4, 3], &[0, 2, 0], &[6, 0, 0], &[0, 1, 1], &[4, 3, 1]],
    );
    // Threads 1, 3, 0, 2, 4 can finish in that order.
    assert!(b.banker_check());
    let b2 = banker(
        &[0, 0, 0],
        &[&[0, 1, 0], &[3, 0, 2], &[3, 0, 2], &[2, 1, 1], &[0, 0, 2]],
        &[&[7, 4, 3], &[0, 2, 0], &[6, 0, 0], &[0, 1, 1], &[4, 3, 1]],
    );
    assert!(!b2.banker_check());
}

#[test]
fn crossed_mutex_requests_are_unsafe() {
    // Thread 0 holds mutex 0 and wants mutex 1; thread 1 holds mutex 1 and wants mutex 0.
    let b = banker(&[0, 0], &[&[1, 0], &[0, 1]], &[&[0, 1], &[1, 0]]);
    assert!(!b.banker_check());
}

#[test]
fn waiting_for_a_held_mutex_is_safe() {
    // Thread 0 holds the mutex, thread 1 waits for it: thread 0 can finish first.
    let b = banker(&[0], &[&[1], &[0]], &[&[0], &[1]]);
    assert!(b.banker_check());
}

#[test]
fn no_threads_is_safe() {
    let b = banker(&[1, 2], &[], &[]);
    assert!(b.banker_check());
}

#[test]
fn request_of_free_unit_by_idle_thread_passes() {
    // Safe state, resource 0 has a free unit, thread 1 waits for nothing.
    let mut b = banker(&[1, 0], &[&[0, 1], &[0, 0]], &[&[1, 0], &[0, 0]]);
    assert!(b.banker_check());
    b.add_need(1, 0, 1);
    assert!(b.banker_check());
}

#[test]
fn growing_the_tables_keeps_a_safe_state_safe() {
    let mut b = banker(&[0], &[&[1], &[0]], &[&[0], &[1]]);
    assert!(b.banker_check());
    b.add_need(4, 0, 0);
    assert_eq!(b.allocation.len(), 5);
    assert_eq!(b.need, vec![vec![0], vec![1], vec![0], vec![0], vec![0]]);
    assert!(b.banker_check());
}

#[test]
fn renumbering_threads_keeps_the_answer() {
    let safe = banker(&[0], &[&[1], &[0]], &[&[0], &[1]]);
    let swapped = banker(&[0], &[&[0], &[1]], &[&[1], &[0]]);
    assert_eq!(safe.banker_check(), swapped.banker_check());
    let unsafe_ = banker(&[0, 0], &[&[1, 0], &[0, 1]], &[&[0, 1], &[1, 0]]);
    let swapped2 = banker(&[0, 0], &[&[0, 1], &[1, 0]], &[&[1, 0], &[0, 1]]);
    assert_eq!(unsafe_.banker_check(), swapped2.banker_check());
}

#[test]
fn negative_holding_follows_first_fit() {
    // A thread holding -1 (an unlock without the lock) still finishes first.
    let b = banker(&[1], &[&[-1]], &[&[0]]);
    assert!(b.banker_check());
}
