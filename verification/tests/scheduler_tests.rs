use rcore_os::scheduler::{add_task, fetch_task, pid2task, remove_from_pid2task, TaskEntry, TaskManager, BIG_STRIDE};
use std::collections::BTreeMap;

fn task(pid: usize, stride: u8, priority: u8) -> TaskEntry {
    TaskEntry { pid, stride, priority }
}

#[test]
fn empty_manager_fetches_nothing() {
    let mut m = TaskManager::new();
    assert_eq!(m.fetch(), None);
}

#[test]
fn add_advances_stride_by_pass() {
    let mut m = TaskManager::new();
    m.add(task(1, 10, 2));
    assert_eq!(BIG_STRIDE, 255);
    assert_eq!(m.fetch(), Some(task(1, 10 + 127, 2)));
}

#[test]
fn add_wraps_the_stride() {
    let mut m = TaskManager::new();
    m.add(task(1, 200, 3));
    // 200 + 85 = 285, wrapping to 29.
    assert_eq!(m.fetch(), Some(task(1, 29, 3)));
}

#[test]
fn fetch_takes_smallest_stride_first_on_ties() {
    let mut m = TaskManager::new();
    m.add(task(1, 50, 255)); // stride 51
    m.add(task(2, 9, 255)); // stride 10
    m.add(task(3, 9, 255)); // stride 10
    assert_eq!(m.fetch().unwrap().pid, 2);
    assert_eq!(m.fetch().unwrap().pid, 3);
    assert_eq!(m.fetch().unwrap().pid, 1);
    assert_eq!(m.fetch(), None);
}

#[test]
fn fetch_compares_strides_across_the_wrap() {
    let mut m = TaskManager::new();
    m.add(task(1, 4, 255)); // stride 5, logically 256 + 5
    m.add(task(2, 249, 255)); // stride 250
    assert_eq!(m.fetch().unwrap().pid, 2);
    assert_eq!(m.fetch().unwrap().pid, 1);
}

#[test]
fn pid_table_tracks_added_tasks() {
    let mut m = TaskManager::new();
    let mut table = BTreeMap::new();
    add_task(&mut m, &mut table, task(7, 0, 5));
    assert_eq!(pid2task(&table, 7), Some(task(7, 51, 5)));
    assert_eq!(pid2task(&table, 8), None);
    assert_eq!(fetch_task(&mut m), Some(task(7, 51, 5)));
    remove_from_pid2task(&mut table, 7);
    assert_eq!(pid2task(&table, 7), None);
}
