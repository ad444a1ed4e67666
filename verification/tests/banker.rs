use rcore_syscall::banker::detect_deadlock;
use rcore_syscall::resources::{ensure_thread_row, ResourceTable};

#[test]
fn no_threads_no_deadlock() {
    assert!(!detect_deadlock(&[1, 2], &[], &[]));
}

#[test]
fn crossed_holders_deadlock() {
    // Each thread holds one mutex and waits for the other's.
    let available = [0usize, 0];
    let need = vec![vec![0usize, 1], vec![1, 0]];
    let allocation = vec![vec![1usize, 0], vec![0, 1]];
    assert!(detect_deadlock(&available, &need, &allocation));
}

#[test]
fn crossed_holders_with_a_free_unit_are_safe() {
    let available = [0usize, 1];
    let need = vec![vec![0usize, 1], vec![1, 0]];
    let allocation = vec![vec![1usize, 0], vec![0, 1]];
    assert!(!detect_deadlock(&available, &need, &allocation));
}

#[test]
fn textbook_state_is_safe() {
    let available = [3usize, 3, 2];
    let allocation = vec![
        vec![0usize, 1, 0],
        vec![2, 0, 0],
        vec![3, 0, 2],
        vec![2, 1, 1],
        vec![0, 0, 2],
    ];
    let need = vec![
        vec![7usize, 4, 3],
        vec![1, 2, 2],
        vec![6, 0, 0],
        vec![0, 1, 1],
        vec![4, 3, 1],
    ];
    assert!(!detect_deadlock(&available, &need, &allocation));
}

#[test]
fn textbook_state_with_greedy_thread_is_unsafe() {
    let available = [3usize, 3, 2];
    let allocation = vec![
        vec![0usize, 1, 0],
        vec![2, 0, 0],
        vec![3, 0, 2],
        vec![2, 1, 1],
        vec![0, 0, 2],
    ];
    let need = vec![
        vec![7usize, 4, 3],
        vec![1, 2, 2],
        vec![6, 0, 0],
        vec![0, 1, 1],
        vec![4, 3, 1],
        vec![11, 0, 0],
    ];
    assert!(detect_deadlock(&available, &need, &allocation));
}

#[test]
fn ragged_rows_count_missing_entries_as_zero() {
    // Thread 1 has no row in `need`, thread 2 none in `allocation`.
    let available = [0usize];
    let need = vec![vec![1usize], vec![], vec![]];
    let allocation = vec![vec![0usize], vec![1]];
    assert!(!detect_deadlock(&available, &need, &allocation));
    let need_more = vec![vec![2usize], vec![], vec![]];
    assert!(detect_deadlock(&available, &need_more, &allocation));
}

#[test]
fn needs_beyond_the_resources_are_ignored() {
    let available = [1usize];
    let need = vec![vec![1usize, 100]];
    let allocation: Vec<Vec<usize>> = vec![];
    assert!(!detect_deadlock(&available, &need, &allocation));
}

#[test]
fn order_found_late_in_a_pass_still_counts() {
    // Thread 0 can only finish after thread 2 has released.
    let available = [0usize];
    let need = vec![vec![1usize], vec![0], vec![0]];
    let allocation = vec![vec![0usize], vec![0], vec![1]];
    assert!(!detect_deadlock(&available, &need, &allocation));
}

#[test]
fn ensure_thread_row_adds_rows_and_pads() {
    let mut m = vec![vec![5usize], vec![1, 2, 3]];
    ensure_thread_row(&mut m, 3, 2);
    assert_eq!(m, vec![vec![5, 0], vec![1, 2, 3], vec![0, 0], vec![0, 0]]);
}

#[test]
fn ensure_thread_row_keeps_existing_rows() {
    let mut m = vec![vec![4usize, 4], vec![7, 7]];
    ensure_thread_row(&mut m, 0, 2);
    assert_eq!(m, vec![vec![4, 4], vec![7, 7]]);
}

#[test]
fn table_add_resource_appends_then_reuses() {
    let mut t = ResourceTable::new();
    t.add_resource(0, 1);
    t.ensure_thread(1);
    t.add_resource(1, 3);
    assert_eq!(t.available, vec![1, 3]);
    assert_eq!(t.need, vec![vec![0, 0], vec![0, 0]]);
    t.need[1][1] = 2;
    t.allocation[0][1] = 1;
    t.add_resource(1, 5);
    assert_eq!(t.available, vec![1, 5]);
    assert_eq!(t.need, vec![vec![0, 0], vec![0, 0]]);
    assert_eq!(t.allocation, vec![vec![0, 0], vec![0, 0]]);
}

#[test]
fn table_request_grant_release_round_trip() {
    let mut t = ResourceTable::new();
    t.add_resource(0, 1);
    t.request(2, 0);
    assert_eq!(t.need, vec![vec![0], vec![0], vec![1]]);
    t.grant(2, 0);
    assert_eq!(t.need[2], vec![0]);
    assert_eq!(t.allocation[2], vec![1]);
    assert_eq!(t.available, vec![0]);
    t.release(2, 0);
    assert_eq!(t.allocation[2], vec![0]);
    assert_eq!(t.available, vec![1]);
}

#[test]
fn table_try_request_refuses_and_withdraws() {
    let mut t = ResourceTable::new();
    t.add_resource(0, 1);
    t.add_resource(1, 1);
    t.request(0, 0);
    t.grant(0, 0);
    t.request(1, 1);
    t.grant(1, 1);
    assert!(!t.try_request(0, 1, true));
    assert!(t.try_request(1, 0, true));
    assert_eq!(t.need, vec![vec![0, 1], vec![0, 0]]);
    assert!(!t.try_request(1, 0, false));
    assert_eq!(t.need, vec![vec![0, 1], vec![1, 0]]);
}
