//! The process-management system calls: what each one decides and returns.
//!
//! Creating, loading, scheduling and reaping tasks is the kernel's work; it
//! hands these functions what it found (a pid, whether a program exists,
//! the state of each child) and does what they decide.
use vstd::prelude::*;
use crate::memory::{physical_address, PageTableEntry, PAGE_SIZE};

verus! {

/// Seconds and microseconds, as `get_time` writes them to user memory.
#[derive(Clone, Copy, Debug, PartialEq, Eq, Structural)]
pub struct TimeVal {
    pub sec: usize,
    pub usec: usize,
}

/// What `waitpid` reads of a child: its pid, whether it has exited, and the
/// code it exited with.
#[derive(Clone, Copy, Debug, PartialEq, Eq, Structural)]
pub struct ChildInfo {
    pub pid: usize,
    pub zombie: bool,
    pub exit_code: i32,
}

/// What `waitpid` decides.
#[derive(Clone, Copy, Debug, PartialEq, Eq, Structural)]
pub enum WaitOutcome {
    /// No child has the pid asked for (the call returns -1).
    NoSuchChild,
    /// Such a child exists, but none of them has exited (the call returns -2).
    StillRunning,
    /// The child at `index` has exited: it is removed from the children, its
    /// exit code is written to user memory and its pid returned.
    Reaped { index: usize, pid: usize, exit_code: i32 },
}

/// What `fork` returns in the parent and in the child.
#[derive(Clone, Copy, Debug, PartialEq, Eq, Structural)]
pub struct ForkReturn {
    /// The parent's return value: the child's pid.
    pub parent: isize,
    /// The value the child finds in its return register.
    pub child: usize,
}

/// What `get_time` writes, and where.
#[derive(Clone, Copy, Debug, PartialEq, Eq, Structural)]
pub struct TimeWrite {
    pub value: TimeVal,
    /// Physical address of the `sec` field.
    pub sec_pa: u64,
    /// Physical address of the `usec` field.
    pub usec_pa: u64,
}

/// Bytes in a `usize`, the size of each field of a [`TimeVal`].
pub const USIZE_BYTES: usize = 8;

/// The value a syscall returns for a pid.
pub fn sys_getpid(pid: usize) -> (r: isize)
    ensures
        r == pid as isize,
{
    pid as isize
}

/// What `fork` returns once the child with pid `new_pid` exists: its pid in
/// the parent, 0 in the child.
pub fn sys_fork(new_pid: usize) -> (r: ForkReturn)
    ensures
        r.parent == new_pid as isize,
        r.child == 0,
{
    ForkReturn { parent: new_pid as isize, child: 0 }
}

/// What `exec` returns: 0 when a program of the name was found (and the
/// task now runs it), -1 otherwise.
pub fn sys_exec(found: bool) -> (r: isize)
    ensures
        r == (if found { 0isize } else { -1isize }),
{
    if found {
        0
    } else {
        -1
    }
}

/// Child `c` is one `waitpid(pid)` waits for: any child for -1, else the
/// child whose pid is `pid` (read as an unsigned number).
pub open spec fn wanted(pid: isize, c: ChildInfo) -> bool {
    pid == -1 || (#[verifier::truncate] (pid as usize)) == c.pid
}

/// Some child is one `waitpid(pid)` waits for.
pub open spec fn has_wanted_child(children: Seq<ChildInfo>, pid: isize) -> bool {
    exists|i: int| 0 <= i < children.len() && wanted(pid, #[trigger] children[i])
}

/// `waitpid(pid)` waits for a child exactly when `pid` is -1 or the
/// child's pid is `pid` read as an unsigned number.
pub proof fn lemma_wanted_means(pid: isize, c: ChildInfo)
    ensures
        wanted(pid, c) <==> (pid == -1 || (#[verifier::truncate] (pid as usize)) == c.pid),
{
}

/// Any child whose pid is the one asked for (every child, for -1) counts as
/// a child `waitpid` waits for, wherever it stands among the children.
pub proof fn lemma_wanted_child_is_found(children: Seq<ChildInfo>, pid: isize, i: int)
    requires
        0 <= i < children.len(),
        pid == -1 || (#[verifier::truncate] (pid as usize)) == children[i].pid,
    ensures
        wanted(pid, children[i]),
        has_wanted_child(children, pid),
{
    assert(wanted(pid, children[i]));
}

/// No two children share a pid.
pub open spec fn distinct_pids(children: Seq<ChildInfo>) -> bool {
    forall|i: int, j: int|
        0 <= i < children.len() && 0 <= j < children.len() && i != j ==> #[trigger] children[i].pid
            != #[trigger] children[j].pid
}

/// A child reaped by a wait for its own pid is no longer waited for: once it
/// is removed from children with distinct pids, a second `waitpid` for that
/// pid finds no such child.
pub proof fn lemma_reaped_child_is_gone(children: Seq<ChildInfo>, pid: isize, index: int)
    requires
        distinct_pids(children),
        pid != -1,
        0 <= index < children.len(),
        wanted(pid, children[index]),
    ensures
        !has_wanted_child(children.remove(index), pid),
{
    let rest = children.remove(index);
    if has_wanted_child(rest, pid) {
        let i = choose|i: int| 0 <= i < rest.len() && wanted(pid, #[trigger] rest[i]);
        let j = if i < index { i } else { i + 1 };
        assert(rest[i] == children[j]);
        assert(children[j].pid == children[index].pid);
    }
}

/// Decides `waitpid(pid)` over the children of the calling process, in
/// order: the first child that is wanted and has exited is reaped.
pub fn sys_waitpid(children: &[ChildInfo], pid: isize) -> (r: WaitOutcome)
    ensures
        (r == WaitOutcome::NoSuchChild) <==> !has_wanted_child(children@, pid),
        (r == WaitOutcome::StillRunning) <==> (has_wanted_child(children@, pid) && !(exists|i: int|
            0 <= i < children@.len() && wanted(pid, #[trigger] children@[i])
                && children@[i].zombie)),
        r == WaitOutcome::NoSuchChild ==> (children@.len() == 0 || pid != -1) && forall|i: int|
            0 <= i < children@.len() ==> (#[verifier::truncate] (pid as usize))
                != #[trigger] children@[i].pid,
        forall|i: int|
            0 <= i < children@.len() && #[trigger] children@[i].zombie && (pid == -1 || (
            #[verifier::truncate] (pid as usize)) == children@[i].pid) ==> r is Reaped,
        r matches WaitOutcome::Reaped { index, pid: found, exit_code } ==> {
            &&& index < children@.len()
            &&& wanted(pid, children@[index as int])
            &&& children@[index as int].zombie
            &&& forall|j: int|
                0 <= j < index ==> !(wanted(pid, #[trigger] children@[j]) && children@[j].zombie)
            &&& found == children@[index as int].pid
            &&& exit_code == children@[index as int].exit_code
        },
{
    let mut any = false;
    let mut i: usize = 0;
    while i < children.len()
        invariant
            i <= children@.len(),
            any <==> exists|j: int| 0 <= j < i && wanted(pid, #[trigger] children@[j]),
        decreases children@.len() - i,
    {
        if pid == -1 || #[verifier::truncate] (pid as usize) == children[i].pid {
            any = true;
        }
        assert(any <==> exists|j: int| 0 <= j < i + 1 && wanted(pid, #[trigger] children@[j])) by {
            if wanted(pid, children@[i as int]) {
                assert(0 <= i < i + 1 && wanted(pid, children@[i as int]));
            }
        }
        i = i + 1;
    }
    if !any {
        proof {
            assert(!has_wanted_child(children@, pid));
            if children@.len() > 0 && pid == -1 {
                lemma_wanted_child_is_found(children@, pid, 0);
            }
            assert forall|i: int| 0 <= i < children@.len() implies (
            #[verifier::truncate] (pid as usize)) != #[trigger] children@[i].pid by {
                if (#[verifier::truncate] (pid as usize)) == children@[i].pid {
                    lemma_wanted_child_is_found(children@, pid, i);
                }
            }
        }
        return WaitOutcome::NoSuchChild;
    }
    let mut i: usize = 0;
    while i < children.len()
        invariant
            i <= children@.len(),
            forall|j: int|
                0 <= j < i ==> !(wanted(pid, #[trigger] children@[j]) && children@[j].zombie),
        decreases children@.len() - i,
    {
        let c = children[i];
        if c.zombie && (pid == -1 || #[verifier::truncate] (pid as usize) == c.pid) {
            return WaitOutcome::Reaped { index: i, pid: c.pid, exit_code: c.exit_code };
        }
        i = i + 1;
    }
    proof {
        assert forall|i: int|
            0 <= i < children@.len() && #[trigger] children@[i].zombie && (pid == -1 || (
            #[verifier::truncate] (pid as usize)) == children@[i].pid) implies false by {
            assert(wanted(pid, children@[i]));
        }
    }
    WaitOutcome::StillRunning
}

impl WaitOutcome {
    /// The value `waitpid` returns.
    pub fn code(&self) -> (r: isize)
        ensures
            r == (match *self {
                WaitOutcome::NoSuchChild => -1isize,
                WaitOutcome::StillRunning => -2isize,
                WaitOutcome::Reaped { pid, .. } => pid as isize,
            }),
    {
        match *self {
            WaitOutcome::NoSuchChild => -1,
            WaitOutcome::StillRunning => -2,
            WaitOutcome::Reaped { pid, .. } => pid as isize,
        }
    }
}

/// What `sbrk` returns: the old break when the heap could be changed, else -1.
pub fn sys_sbrk(old_brk: Option<usize>) -> (r: isize)
    ensures
        r == (match old_brk {
            Some(b) => b as isize,
            None => -1isize,
        }),
{
    match old_brk {
        Some(b) => b as isize,
        None => -1,
    }
}

/// What `spawn` returns: -1 when no program of the name was found, else the
/// pid of the new child (which runs that program).
pub fn sys_spawn(new_pid: Option<usize>) -> (r: isize)
    ensures
        r == (match new_pid {
            Some(pid) => pid as isize,
            None => -1isize,
        }),
{
    match new_pid {
        None => -1,
        Some(pid) => pid as isize,
    }
}

/// Decides `set_priority(prio)`: priorities below 2 are refused with -1;
/// otherwise the task's priority becomes `prio`, which is returned.
pub fn sys_set_priority(prio: isize) -> (r: isize)
    ensures
        r == (if prio < 2 { -1isize } else { prio }),
{
    if prio < 2 {
        return -1;
    }
    prio
}

/// The time, in milliseconds, at which a task that sleeps `ms` from
/// `now_ms` is woken.
pub fn sys_sleep(now_ms: usize, ms: usize) -> (expire_ms: usize)
    requires
        now_ms + ms <= usize::MAX,
    ensures
        expire_ms == now_ms + ms,
{
    now_ms + ms
}

/// The time `us` microseconds since boot, as seconds and microseconds.
pub fn time_val(us: usize) -> (tv: TimeVal)
    ensures
        tv.sec == us / 1_000_000,
        tv.usec == us % 1_000_000,
        tv.sec * 1_000_000 + tv.usec == us,
{
    TimeVal { sec: us / 1_000_000, usec: us % 1_000_000 }
}

/// Decides `get_time(ts)` at `us` microseconds since boot. `sec_pte` and
/// `usec_pte` are the page-table entries of the pages that hold the two
/// fields (at `ts` and `ts + 8`). Returns `None` (the call returns -1) when
/// either page has no entry; otherwise what to write and where (the call
/// then writes it and returns 0).
pub fn sys_get_time(
    us: usize,
    ts: usize,
    sec_pte: Option<PageTableEntry>,
    usec_pte: Option<PageTableEntry>,
) -> (r: Option<TimeWrite>)
    requires
        ts + USIZE_BYTES <= usize::MAX,
    ensures
        r is None <==> (sec_pte is None || usec_pte is None),
        r matches Some(w) ==> {
            &&& w.value.sec == us / 1_000_000
            &&& w.value.usec == us % 1_000_000
            &&& w.sec_pa == sec_pte.unwrap().spec_ppn() * PAGE_SIZE + ts % PAGE_SIZE
            &&& w.usec_pa == usec_pte.unwrap().spec_ppn() * PAGE_SIZE + (ts + USIZE_BYTES)
                % (PAGE_SIZE as int)
        },
{
    let value = time_val(us);
    match (sec_pte, usec_pte) {
        (Some(s), Some(u)) => {
            let sec_pa = physical_address(s, ts);
            let usec_pa = physical_address(u, ts + USIZE_BYTES);
            Some(TimeWrite { value, sec_pa, usec_pa })
        },
        _ => None,
    }
}

} // verus!
