use rcore_syscall::process::{
    sys_exec, sys_fork, sys_get_time, sys_getpid, sys_sbrk, sys_set_priority, sys_sleep,
    sys_spawn, sys_waitpid, time_val, ChildInfo, ForkReturn, TimeVal, TimeWrite, WaitOutcome,
};
use rcore_syscall::memory::PageTableEntry;

fn child(pid: usize, zombie: bool, exit_code: i32) -> ChildInfo {
    ChildInfo { pid, zombie, exit_code }
}

#[test]
fn waitpid_without_children() {
    let r = sys_waitpid(&[], -1);
    assert_eq!(r, WaitOutcome::NoSuchChild);
    assert_eq!(r.code(), -1);
}

#[test]
fn waitpid_for_an_unknown_pid() {
    let kids = [child(3, true, 0), child(4, false, 0)];
    assert_eq!(sys_waitpid(&kids, 5), WaitOutcome::NoSuchChild);
    assert_eq!(sys_waitpid(&kids, -2), WaitOutcome::NoSuchChild);
}

#[test]
fn waitpid_for_a_running_child() {
    let kids = [child(3, true, 0), child(4, false, 0)];
    let r = sys_waitpid(&kids, 4);
    assert_eq!(r, WaitOutcome::StillRunning);
    assert_eq!(r.code(), -2);
}

#[test]
fn waitpid_reaps_the_first_exited_child() {
    let kids = [child(3, false, 0), child(4, true, 7), child(5, true, 9)];
    let r = sys_waitpid(&kids, -1);
    assert_eq!(r, WaitOutcome::Reaped { index: 1, pid: 4, exit_code: 7 });
    assert_eq!(r.code(), 4);
    assert_eq!(sys_waitpid(&kids, 5), WaitOutcome::Reaped { index: 2, pid: 5, exit_code: 9 });
}

#[test]
fn small_results() {
    assert_eq!(sys_getpid(42), 42);
    assert_eq!(sys_fork(7), ForkReturn { parent: 7, child: 0 });
    assert_eq!(sys_exec(true), 0);
    assert_eq!(sys_exec(false), -1);
    assert_eq!(sys_sbrk(Some(0x1000)), 0x1000);
    assert_eq!(sys_sbrk(None), -1);
    assert_eq!(sys_spawn(Some(9)), 9);
    assert_eq!(sys_spawn(None), -1);
}

#[test]
fn priority_bounds() {
    assert_eq!(sys_set_priority(1), -1);
    assert_eq!(sys_set_priority(-5), -1);
    assert_eq!(sys_set_priority(2), 2);
    assert_eq!(sys_set_priority(16), 16);
}

#[test]
fn sleep_deadline() {
    assert_eq!(sys_sleep(1000, 250), 1250);
    assert_eq!(sys_sleep(5, 0), 5);
}

#[test]
fn time_split() {
    assert_eq!(time_val(3_500_123), TimeVal { sec: 3, usec: 500_123 });
    assert_eq!(time_val(999_999), TimeVal { sec: 0, usec: 999_999 });
}

#[test]
fn get_time_translation() {
    let pte = PageTableEntry { bits: (0x80200u64 << 10) | 0xf };
    let other = PageTableEntry { bits: (0x80300u64 << 10) | 0xf };
    assert_eq!(sys_get_time(1_000_001, 0x2ff8, Some(pte), None), None);
    assert_eq!(sys_get_time(1_000_001, 0x2ff8, None, Some(other)), None);
    assert_eq!(
        sys_get_time(1_000_001, 0x2ff8, Some(pte), Some(other)),
        Some(TimeWrite {
            value: TimeVal { sec: 1, usec: 1 },
            sec_pa: (0x80200u64 << 12) + 0xff8,
            usec_pa: 0x80300u64 << 12,
        })
    );
}

#[test]
fn reaped_child_cannot_be_waited_for_again() {
    let mut kids = vec![child(3, false, 0), child(4, true, 7), child(5, true, 9)];
    let r = sys_waitpid(&kids, 4);
    assert_eq!(r, WaitOutcome::Reaped { index: 1, pid: 4, exit_code: 7 });
    if let WaitOutcome::Reaped { index, .. } = r {
        kids.remove(index);
    }
    assert_eq!(sys_waitpid(&kids, 4), WaitOutcome::NoSuchChild);
    assert_eq!(sys_waitpid(&kids, 4).code(), -1);
}
