use rcore_syscall::sync::{
    sys_condvar_create, sys_condvar_signal, sys_condvar_wait, sys_enable_deadlock_detect,
    sys_mutex_create, sys_mutex_lock, sys_mutex_lock_acquired, sys_mutex_unlock,
    sys_semaphore_create, sys_semaphore_down, sys_semaphore_down_acquired, sys_semaphore_up,
    Admission, MutexKind, ProcessSync, EDEADLOCK,
};

fn lock(p: &mut ProcessSync, tid: usize, id: usize) -> isize {
    match sys_mutex_lock(p, tid, id) {
        Admission::Deadlock => EDEADLOCK,
        Admission::Acquire => sys_mutex_lock_acquired(p, tid, id),
    }
}

fn down(p: &mut ProcessSync, tid: usize, id: usize) -> isize {
    match sys_semaphore_down(p, tid, id) {
        Admission::Deadlock => EDEADLOCK,
        Admission::Acquire => sys_semaphore_down_acquired(p, tid, id),
    }
}

#[test]
fn new_process_is_empty() {
    let p = ProcessSync::new();
    assert!(p.mutex_list.is_empty());
    assert!(p.semaphore_list.is_empty());
    assert!(p.condvar_list.is_empty());
    assert!(!p.detect_deadlock);
}

#[test]
fn mutex_create_numbers_from_zero() {
    let mut p = ProcessSync::new();
    assert_eq!(sys_mutex_create(&mut p, false), 0);
    assert_eq!(sys_mutex_create(&mut p, true), 1);
    assert_eq!(p.mutex_list, vec![Some(MutexKind::Spin), Some(MutexKind::Blocking)]);
    assert_eq!(p.mutexes.available, vec![1, 1]);
}

#[test]
fn mutex_create_reuses_the_lowest_free_slot() {
    let mut p = ProcessSync::new();
    sys_mutex_create(&mut p, true);
    sys_mutex_create(&mut p, true);
    sys_mutex_create(&mut p, true);
    assert_eq!(lock(&mut p, 0, 1), 0);
    p.mutex_list[1] = None;
    p.mutex_list[2] = None;
    assert_eq!(sys_mutex_create(&mut p, false), 1);
    assert_eq!(p.mutex_list[1], Some(MutexKind::Spin));
    assert_eq!(p.mutexes.available, vec![1, 1, 1]);
    assert_eq!(p.mutexes.allocation, vec![vec![0, 0, 0]]);
}

#[test]
fn mutex_create_widens_existing_rows() {
    let mut p = ProcessSync::new();
    sys_mutex_create(&mut p, true);
    assert_eq!(lock(&mut p, 1, 0), 0);
    sys_mutex_create(&mut p, true);
    assert_eq!(p.mutexes.need, vec![vec![0, 0], vec![0, 0]]);
    assert_eq!(p.mutexes.allocation, vec![vec![0, 0], vec![1, 0]]);
}

#[test]
fn lock_records_holder_and_unlock_frees() {
    let mut p = ProcessSync::new();
    sys_mutex_create(&mut p, true);
    assert_eq!(lock(&mut p, 0, 0), 0);
    assert_eq!(p.mutexes.available, vec![0]);
    assert_eq!(p.mutexes.allocation, vec![vec![1]]);
    assert_eq!(p.mutexes.need, vec![vec![0]]);
    assert_eq!(sys_mutex_unlock(&mut p, 0, 0), 0);
    assert_eq!(p.mutexes.available, vec![1]);
    assert_eq!(p.mutexes.allocation, vec![vec![0]]);
}

#[test]
fn waiting_for_a_held_mutex_records_the_need() {
    let mut p = ProcessSync::new();
    sys_mutex_enable(&mut p);
    sys_mutex_create(&mut p, true);
    assert_eq!(lock(&mut p, 0, 0), 0);
    assert_eq!(sys_mutex_lock(&mut p, 1, 0), Admission::Acquire);
    assert_eq!(p.mutexes.need, vec![vec![0], vec![1]]);
}

fn sys_mutex_enable(p: &mut ProcessSync) {
    assert_eq!(sys_enable_deadlock_detect(p, 1), 0);
}

#[test]
fn crossed_blocking_locks_are_refused() {
    let mut p = ProcessSync::new();
    sys_mutex_enable(&mut p);
    sys_mutex_create(&mut p, true);
    sys_mutex_create(&mut p, true);
    assert_eq!(lock(&mut p, 0, 0), 0);
    assert_eq!(lock(&mut p, 1, 1), 0);
    assert_eq!(sys_mutex_lock(&mut p, 0, 1), Admission::Acquire);
    let need_before = p.mutexes.need.clone();
    let allocation_before = p.mutexes.allocation.clone();
    assert_eq!(sys_mutex_lock(&mut p, 1, 0), Admission::Deadlock);
    assert_eq!(lock(&mut p, 1, 0), EDEADLOCK);
    assert_eq!(p.mutexes.need, need_before);
    assert_eq!(p.mutexes.allocation, allocation_before);
    assert_eq!(p.mutexes.available, vec![0, 0]);
}

#[test]
fn crossed_spin_locks_are_not_checked() {
    let mut p = ProcessSync::new();
    sys_mutex_enable(&mut p);
    sys_mutex_create(&mut p, false);
    sys_mutex_create(&mut p, false);
    assert_eq!(lock(&mut p, 0, 0), 0);
    assert_eq!(lock(&mut p, 1, 1), 0);
    assert_eq!(sys_mutex_lock(&mut p, 0, 1), Admission::Acquire);
    assert_eq!(sys_mutex_lock(&mut p, 1, 0), Admission::Acquire);
}

#[test]
fn crossed_locks_without_detection_proceed() {
    let mut p = ProcessSync::new();
    sys_mutex_create(&mut p, true);
    sys_mutex_create(&mut p, true);
    assert_eq!(lock(&mut p, 0, 0), 0);
    assert_eq!(lock(&mut p, 1, 1), 0);
    assert_eq!(sys_mutex_lock(&mut p, 0, 1), Admission::Acquire);
    assert_eq!(sys_mutex_lock(&mut p, 1, 0), Admission::Acquire);
    assert_eq!(p.mutexes.need, vec![vec![0, 1], vec![1, 0]]);
}

#[test]
fn lock_then_unlock_restores_the_counts() {
    let mut p = ProcessSync::new();
    sys_mutex_enable(&mut p);
    sys_mutex_create(&mut p, true);
    sys_mutex_create(&mut p, true);
    assert_eq!(lock(&mut p, 1, 0), 0);
    let available = p.mutexes.available.clone();
    let need = p.mutexes.need.clone();
    let allocation = p.mutexes.allocation.clone();
    assert_eq!(lock(&mut p, 1, 1), 0);
    assert_eq!(sys_mutex_unlock(&mut p, 1, 1), 0);
    assert_eq!(p.mutexes.available, available);
    assert_eq!(p.mutexes.need, need);
    assert_eq!(p.mutexes.allocation, allocation);
}

#[test]
fn unlock_by_a_non_holder_only_frees_a_unit() {
    let mut p = ProcessSync::new();
    sys_mutex_create(&mut p, true);
    assert_eq!(sys_mutex_unlock(&mut p, 2, 0), 0);
    assert_eq!(p.mutexes.available, vec![2]);
    assert_eq!(p.mutexes.allocation, vec![vec![0], vec![0], vec![0]]);
}

#[test]
fn semaphore_create_and_count() {
    let mut p = ProcessSync::new();
    assert_eq!(sys_semaphore_create(&mut p, 2), 0);
    assert_eq!(sys_semaphore_create(&mut p, 0), 1);
    assert_eq!(p.semaphore_list, vec![Some(2), Some(0)]);
    assert_eq!(p.semaphores.available, vec![2, 0]);
    p.semaphore_list[0] = None;
    assert_eq!(sys_semaphore_create(&mut p, 7), 0);
    assert_eq!(p.semaphores.available, vec![7, 0]);
    assert!(p.mutex_list.is_empty());
}

#[test]
fn semaphore_down_and_up() {
    let mut p = ProcessSync::new();
    sys_semaphore_create(&mut p, 2);
    assert_eq!(down(&mut p, 0, 0), 0);
    assert_eq!(down(&mut p, 1, 0), 0);
    assert_eq!(p.semaphores.available, vec![0]);
    assert_eq!(p.semaphores.allocation, vec![vec![1], vec![1]]);
    assert_eq!(sys_semaphore_up(&mut p, 0, 0), 0);
    assert_eq!(p.semaphores.available, vec![1]);
    assert_eq!(p.semaphores.allocation, vec![vec![0], vec![1]]);
}

#[test]
fn semaphore_down_that_would_deadlock_is_refused() {
    let mut p = ProcessSync::new();
    sys_mutex_enable(&mut p);
    sys_semaphore_create(&mut p, 1);
    sys_semaphore_create(&mut p, 1);
    assert_eq!(down(&mut p, 0, 0), 0);
    assert_eq!(down(&mut p, 1, 1), 0);
    assert_eq!(sys_semaphore_down(&mut p, 0, 1), Admission::Acquire);
    assert_eq!(down(&mut p, 1, 0), EDEADLOCK);
    assert_eq!(p.semaphores.need, vec![vec![0, 1], vec![0, 0]]);
}

#[test]
fn semaphore_down_with_units_left_is_granted() {
    let mut p = ProcessSync::new();
    sys_mutex_enable(&mut p);
    sys_semaphore_create(&mut p, 2);
    assert_eq!(down(&mut p, 0, 0), 0);
    assert_eq!(down(&mut p, 1, 0), 0);
    assert_eq!(sys_semaphore_down(&mut p, 2, 0), Admission::Acquire);
}

#[test]
fn condvars_are_numbered_and_used() {
    let mut p = ProcessSync::new();
    assert_eq!(sys_condvar_create(&mut p), 0);
    assert_eq!(sys_condvar_create(&mut p), 1);
    p.condvar_list[0] = None;
    assert_eq!(sys_condvar_create(&mut p), 0);
    sys_mutex_create(&mut p, true);
    assert_eq!(sys_condvar_signal(&p, 1), 0);
    assert_eq!(sys_condvar_wait(&p, 0, 0), 0);
}

#[test]
fn deadlock_detect_switch() {
    let mut p = ProcessSync::new();
    assert_eq!(sys_enable_deadlock_detect(&mut p, 1), 0);
    assert!(p.detect_deadlock);
    assert_eq!(sys_enable_deadlock_detect(&mut p, 2), -1);
    assert!(p.detect_deadlock);
    assert_eq!(sys_enable_deadlock_detect(&mut p, 0), 0);
    assert!(!p.detect_deadlock);
    assert_eq!(sys_enable_deadlock_detect(&mut p, usize::MAX), -1);
    assert!(!p.detect_deadlock);
}

#[test]
fn deadlock_code_value() {
    assert_eq!(EDEADLOCK, -0xdead);
}

fn total_units(t: &rcore_syscall::resources::ResourceTable, r: usize) -> usize {
    t.available[r] + t.allocation.iter().map(|row| row.get(r).copied().unwrap_or(0)).sum::<usize>()
}

#[test]
fn free_plus_held_units_stay_constant() {
    let mut p = ProcessSync::new();
    sys_mutex_enable(&mut p);
    sys_semaphore_create(&mut p, 3);
    assert_eq!(total_units(&p.semaphores, 0), 3);
    assert_eq!(down(&mut p, 0, 0), 0);
    assert_eq!(total_units(&p.semaphores, 0), 3);
    assert_eq!(down(&mut p, 2, 0), 0);
    assert_eq!(total_units(&p.semaphores, 0), 3);
    assert_eq!(sys_semaphore_down(&mut p, 1, 0), Admission::Acquire);
    assert_eq!(total_units(&p.semaphores, 0), 3);
    assert_eq!(sys_semaphore_up(&mut p, 2, 0), 0);
    assert_eq!(total_units(&p.semaphores, 0), 3);
    sys_mutex_create(&mut p, true);
    assert_eq!(lock(&mut p, 1, 0), 0);
    assert_eq!(total_units(&p.mutexes, 0), 1);
    assert_eq!(sys_mutex_unlock(&mut p, 1, 0), 0);
    assert_eq!(total_units(&p.mutexes, 0), 1);
}
