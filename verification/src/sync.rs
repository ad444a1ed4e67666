//! The synchronisation system calls of a process: creating mutexes,
//! semaphores and condition variables, and the bookkeeping around locking
//! and unlocking them that the deadlock check reads.
//!
//! Blocking on a primitive is the scheduler's work and happens between two
//! calls here: the first decides whether the thread may wait for the
//! resource at all, the second records that it obtained it.
use vstd::prelude::*;
use crate::resources::ResourceTable;

verus! {

/// The value a lock or semaphore-down returns when granting it could deadlock.
pub const EDEADLOCK: isize = -0xdead;

/// How a mutex waits for its owner.
#[derive(Clone, Copy, Debug, PartialEq, Eq, Structural)]
pub enum MutexKind {
    /// It spins, yielding the processor in between.
    Spin,
    /// It sleeps in a wait queue.
    Blocking,
}

/// What a thread asking for a mutex or a semaphore does next.
#[derive(Clone, Copy, Debug, PartialEq, Eq, Structural)]
pub enum Admission {
    /// The request is refused: the call returns [`EDEADLOCK`].
    Deadlock,
    /// The thread goes on to acquire the primitive, waiting if it must; once
    /// it holds it, the matching `..._acquired` call records that.
    Acquire,
}

/// The synchronisation state of a process.
pub struct ProcessSync {
    /// Mutex slots, by id; `None` marks a free slot.
    pub mutex_list: Vec<Option<MutexKind>>,
    /// Semaphore slots, by id, each with the count it was created with.
    pub semaphore_list: Vec<Option<usize>>,
    /// Condition variable slots, by id.
    pub condvar_list: Vec<Option<()>>,
    /// Bookkeeping of the mutexes, one resource per mutex slot.
    pub mutexes: ResourceTable,
    /// Bookkeeping of the semaphores, one resource per semaphore slot.
    pub semaphores: ResourceTable,
    /// Whether locks and semaphore-downs are checked for deadlock.
    pub detect_deadlock: bool,
}

/// `id` is the lowest free slot of `s`, or the index just past it when no
/// slot is free.
pub open spec fn is_first_free<T>(s: Seq<Option<T>>, id: int) -> bool {
    &&& 0 <= id <= s.len()
    &&& id < s.len() ==> s[id] is None
    &&& forall|j: int| 0 <= j < id ==> s[j] is Some
}

/// `s` with `x` stored at `id`, appended when `id` is just past the end.
pub open spec fn place<T>(s: Seq<Option<T>>, id: int, x: T) -> Seq<Option<T>> {
    if id == s.len() {
        s.push(Some(x))
    } else {
        s.update(id, Some(x))
    }
}

/// A new object goes to the lowest slot that holds nothing: every slot below
/// it is taken, and it is either free or just past the end.
pub proof fn lemma_first_free_is_lowest<T>(s: Seq<Option<T>>, id: int)
    requires
        is_first_free(s, id),
    ensures
        0 <= id <= s.len(),
        id < s.len() ==> s[id] is None,
        id == s.len() ==> forall|j: int| 0 <= j < s.len() ==> #[trigger] s[j] is Some,
        forall|j: int| 0 <= j < id ==> #[trigger] s[j] is Some,
        forall|j: int| is_first_free(s, j) ==> j == id,
{
    assert forall|j: int| is_first_free(s, j) implies j == id by {
        if j < id {
            assert(s[j] is Some);
        } else if j > id {
            assert(s[id] is Some);
        }
    }
}

/// Placing `x` at `id` puts it there and changes no other slot; placing it
/// just past the end adds one slot.
pub proof fn lemma_place<T>(s: Seq<Option<T>>, id: int, x: T)
    requires
        0 <= id <= s.len(),
    ensures
        place(s, id, x).len() == (if id == s.len() { s.len() as int + 1 } else { s.len() as int }),
        place(s, id, x)[id] == Some(x),
        forall|j: int| 0 <= j < s.len() && j != id ==> #[trigger] place(s, id, x)[j] == s[j],
{
}

/// The kind of mutex a create call with `blocking` makes.
pub open spec fn kind_of(blocking: bool) -> MutexKind {
    if blocking {
        MutexKind::Blocking
    } else {
        MutexKind::Spin
    }
}

/// Stores `item` in the lowest free slot of `list`, or appends it, and
/// returns the slot's index.
pub fn alloc_slot<T>(list: &mut Vec<Option<T>>, item: T) -> (id: usize)
    ensures
        is_first_free(old(list)@, id as int),
        final(list)@ == place(old(list)@, id as int, item),
{
    let ghost start = list@;
    let len = list.len();
    let mut i: usize = 0;
    while i < len
        invariant
            list@ == start,
            start == old(list)@,
            len == list@.len(),
            i <= len,
            forall|j: int| 0 <= j < i ==> list@[j] is Some,
        decreases len - i,
    {
        if list[i].is_none() {
            list.set(i, Some(item));
            return i;
        }
        i = i + 1;
    }
    list.push(Some(item));
    len
}

impl ProcessSync {
    /// A process with no mutexes, semaphores or condition variables, and
    /// deadlock detection off.
    pub fn new() -> (p: ProcessSync)
        ensures
            p.wf(),
            p.mutex_list@.len() == 0,
            p.semaphore_list@.len() == 0,
            p.condvar_list@.len() == 0,
            p.mutexes@.need.len() == 0,
            p.mutexes@.allocation.len() == 0,
            p.semaphores@.need.len() == 0,
            p.semaphores@.allocation.len() == 0,
            !p.detect_deadlock,
    {
        ProcessSync {
            mutex_list: Vec::new(),
            semaphore_list: Vec::new(),
            condvar_list: Vec::new(),
            mutexes: ResourceTable::new(),
            semaphores: ResourceTable::new(),
            detect_deadlock: false,
        }
    }

    /// Every slot has its resource in the bookkeeping, and every row of the
    /// bookkeeping has an entry for every resource.
    pub open spec fn wf(&self) -> bool {
        &&& self.mutexes@.wf()
        &&& self.semaphores@.wf()
        &&& self.mutex_list@.len() == self.mutexes@.width()
        &&& self.semaphore_list@.len() == self.semaphores@.width()
    }

    /// Mutex slot `id` holds a mutex.
    pub open spec fn has_mutex(&self, id: int) -> bool {
        0 <= id < self.mutex_list@.len() && self.mutex_list@[id] is Some
    }

    /// Semaphore slot `id` holds a semaphore.
    pub open spec fn has_semaphore(&self, id: int) -> bool {
        0 <= id < self.semaphore_list@.len() && self.semaphore_list@[id] is Some
    }

    /// Condition variable slot `id` holds a condition variable.
    pub open spec fn has_condvar(&self, id: int) -> bool {
        0 <= id < self.condvar_list@.len() && self.condvar_list@[id] is Some
    }

    /// Everything that concerns mutexes is the same in both.
    pub open spec fn same_mutexes(&self, other: &ProcessSync) -> bool {
        self.mutex_list@ == other.mutex_list@ && self.mutexes@ == other.mutexes@
    }

    /// Everything that concerns semaphores is the same in both.
    pub open spec fn same_semaphores(&self, other: &ProcessSync) -> bool {
        self.semaphore_list@ == other.semaphore_list@ && self.semaphores@ == other.semaphores@
    }
}

/// Creates a mutex, spinning or (when `blocking`) sleeping, in the lowest
/// free mutex slot, and returns its id. The mutex starts free: one unit
/// available, held and awaited by no thread.
pub fn sys_mutex_create(p: &mut ProcessSync, blocking: bool) -> (r: isize)
    requires
        old(p).wf(),
        old(p).mutex_list@.len() < isize::MAX,
    ensures
        final(p).wf(),
        is_first_free(old(p).mutex_list@, r as int),
        final(p).mutex_list@ == place(old(p).mutex_list@, r as int, kind_of(blocking)),
        final(p).mutexes@ == old(p).mutexes@.with_resource(r as int, 1),
        final(p).same_semaphores(old(p)),
        final(p).condvar_list@ == old(p).condvar_list@,
        final(p).detect_deadlock == old(p).detect_deadlock,
{
    let kind = if !blocking {
        MutexKind::Spin
    } else {
        MutexKind::Blocking
    };
    let id = alloc_slot(&mut p.mutex_list, kind);
    p.mutexes.add_resource(id, 1);
    id as isize
}

/// Thread `tid` asks to lock mutex `mutex_id`: it comes to wait for it, and
/// when deadlock detection is on and the mutex is a blocking one, the
/// request is refused if no order would then let every thread finish.
pub fn sys_mutex_lock(p: &mut ProcessSync, tid: usize, mutex_id: usize) -> (r: Admission)
    requires
        old(p).wf(),
        old(p).has_mutex(mutex_id as int),
        tid < usize::MAX,
        old(p).mutexes@.need_of(tid as int, mutex_id as int) < usize::MAX,
    ensures
        final(p).wf(),
        (r == Admission::Deadlock) == (old(p).detect_deadlock && old(p).mutex_list@[mutex_id as int]
            == Some(MutexKind::Blocking) && !old(p).mutexes@.after_request(
            tid as int,
            mutex_id as int,
        ).safe()),
        r == Admission::Deadlock ==> final(p).mutexes@ == old(p).mutexes@.grown(tid as int),
        r == Admission::Acquire ==> final(p).mutexes@ == old(p).mutexes@.after_request(
            tid as int,
            mutex_id as int,
        ),
        final(p).mutex_list@ == old(p).mutex_list@,
        final(p).same_semaphores(old(p)),
        final(p).condvar_list@ == old(p).condvar_list@,
        final(p).detect_deadlock == old(p).detect_deadlock,
{
    let blocking = match p.mutex_list[mutex_id] {
        Some(MutexKind::Blocking) => true,
        _ => false,
    };
    let check = p.detect_deadlock && blocking;
    if p.mutexes.try_request(tid, mutex_id, check) {
        Admission::Deadlock
    } else {
        Admission::Acquire
    }
}

/// Thread `tid` now holds mutex `mutex_id`: it waits for it no more, holds
/// it, and the mutex is no longer free. Returns 0.
pub fn sys_mutex_lock_acquired(p: &mut ProcessSync, tid: usize, mutex_id: usize) -> (r: isize)
    requires
        old(p).wf(),
        old(p).has_mutex(mutex_id as int),
        tid < usize::MAX,
        old(p).mutexes@.allocation_of(tid as int, mutex_id as int) < usize::MAX,
    ensures
        r == 0,
        final(p).wf(),
        final(p).mutexes@ == old(p).mutexes@.after_grant(tid as int, mutex_id as int),
        final(p).mutex_list@ == old(p).mutex_list@,
        final(p).same_semaphores(old(p)),
        final(p).condvar_list@ == old(p).condvar_list@,
        final(p).detect_deadlock == old(p).detect_deadlock,
{
    p.mutexes.grant(tid, mutex_id);
    0
}

/// Thread `tid` has unlocked mutex `mutex_id`: it holds it no more and the
/// mutex is free again. Returns 0.
pub fn sys_mutex_unlock(p: &mut ProcessSync, tid: usize, mutex_id: usize) -> (r: isize)
    requires
        old(p).wf(),
        old(p).has_mutex(mutex_id as int),
        tid < usize::MAX,
        old(p).mutexes@.available[mutex_id as int] < usize::MAX,
    ensures
        r == 0,
        final(p).wf(),
        final(p).mutexes@ == old(p).mutexes@.after_release(tid as int, mutex_id as int),
        final(p).mutex_list@ == old(p).mutex_list@,
        final(p).same_semaphores(old(p)),
        final(p).condvar_list@ == old(p).condvar_list@,
        final(p).detect_deadlock == old(p).detect_deadlock,
{
    p.mutexes.release(tid, mutex_id);
    0
}

/// Creates a semaphore with `res_count` units in the lowest free semaphore
/// slot, and returns its id. No thread holds or awaits any of its units.
pub fn sys_semaphore_create(p: &mut ProcessSync, res_count: usize) -> (r: isize)
    requires
        old(p).wf(),
        old(p).semaphore_list@.len() < isize::MAX,
    ensures
        final(p).wf(),
        is_first_free(old(p).semaphore_list@, r as int),
        final(p).semaphore_list@ == place(old(p).semaphore_list@, r as int, res_count),
        final(p).semaphores@ == old(p).semaphores@.with_resource(r as int, res_count),
        final(p).same_mutexes(old(p)),
        final(p).condvar_list@ == old(p).condvar_list@,
        final(p).detect_deadlock == old(p).detect_deadlock,
{
    let id = alloc_slot(&mut p.semaphore_list, res_count);
    p.semaphores.add_resource(id, res_count);
    id as isize
}

/// Thread `tid` has raised semaphore `sem_id`: it holds one unit less and
/// one more unit is free. Returns 0.
pub fn sys_semaphore_up(p: &mut ProcessSync, tid: usize, sem_id: usize) -> (r: isize)
    requires
        old(p).wf(),
        old(p).has_semaphore(sem_id as int),
        tid < usize::MAX,
        old(p).semaphores@.available[sem_id as int] < usize::MAX,
    ensures
        r == 0,
        final(p).wf(),
        final(p).semaphores@ == old(p).semaphores@.after_release(tid as int, sem_id as int),
        final(p).semaphore_list@ == old(p).semaphore_list@,
        final(p).same_mutexes(old(p)),
        final(p).condvar_list@ == old(p).condvar_list@,
        final(p).detect_deadlock == old(p).detect_deadlock,
{
    p.semaphores.release(tid, sem_id);
    0
}

/// Thread `tid` asks to lower semaphore `sem_id`: it comes to wait for one
/// unit, and when deadlock detection is on the request is refused if no
/// order would then let every thread finish.
pub fn sys_semaphore_down(p: &mut ProcessSync, tid: usize, sem_id: usize) -> (r: Admission)
    requires
        old(p).wf(),
        old(p).has_semaphore(sem_id as int),
        tid < usize::MAX,
        old(p).semaphores@.need_of(tid as int, sem_id as int) < usize::MAX,
    ensures
        final(p).wf(),
        (r == Admission::Deadlock) == (old(p).detect_deadlock && !old(p).semaphores@.after_request(
            tid as int,
            sem_id as int,
        ).safe()),
        r == Admission::Deadlock ==> final(p).semaphores@ == old(p).semaphores@.grown(tid as int),
        r == Admission::Acquire ==> final(p).semaphores@ == old(p).semaphores@.after_request(
            tid as int,
            sem_id as int,
        ),
        final(p).semaphore_list@ == old(p).semaphore_list@,
        final(p).same_mutexes(old(p)),
        final(p).condvar_list@ == old(p).condvar_list@,
        final(p).detect_deadlock == old(p).detect_deadlock,
{
    let check = p.detect_deadlock;
    if p.semaphores.try_request(tid, sem_id, check) {
        Admission::Deadlock
    } else {
        Admission::Acquire
    }
}

/// Thread `tid` has obtained a unit of semaphore `sem_id`: it waits for it
/// no more, holds it, and one unit less is free. Returns 0.
pub fn sys_semaphore_down_acquired(p: &mut ProcessSync, tid: usize, sem_id: usize) -> (r: isize)
    requires
        old(p).wf(),
        old(p).has_semaphore(sem_id as int),
        tid < usize::MAX,
        old(p).semaphores@.allocation_of(tid as int, sem_id as int) < usize::MAX,
    ensures
        r == 0,
        final(p).wf(),
        final(p).semaphores@ == old(p).semaphores@.after_grant(tid as int, sem_id as int),
        final(p).semaphore_list@ == old(p).semaphore_list@,
        final(p).same_mutexes(old(p)),
        final(p).condvar_list@ == old(p).condvar_list@,
        final(p).detect_deadlock == old(p).detect_deadlock,
{
    p.semaphores.grant(tid, sem_id);
    0
}

/// Creates a condition variable in the lowest free slot and returns its id.
pub fn sys_condvar_create(p: &mut ProcessSync) -> (r: isize)
    requires
        old(p).condvar_list@.len() < isize::MAX,
    ensures
        is_first_free(old(p).condvar_list@, r as int),
        final(p).condvar_list@ == place(old(p).condvar_list@, r as int, ()),
        final(p).same_mutexes(old(p)),
        final(p).same_semaphores(old(p)),
        final(p).detect_deadlock == old(p).detect_deadlock,
{
    let id = alloc_slot(&mut p.condvar_list, ());
    id as isize
}

/// Signals condition variable `condvar_id`, which must exist; the signal
/// itself wakes a waiter outside this bookkeeping. Returns 0.
pub fn sys_condvar_signal(p: &ProcessSync, condvar_id: usize) -> (r: isize)
    requires
        p.has_condvar(condvar_id as int),
    ensures
        r == 0,
{
    let _ = p.condvar_list[condvar_id];
    0
}

/// Waits on condition variable `condvar_id`, releasing mutex `mutex_id`
/// meanwhile; both must exist, and the waiting happens outside this
/// bookkeeping. Returns 0.
pub fn sys_condvar_wait(p: &ProcessSync, condvar_id: usize, mutex_id: usize) -> (r: isize)
    requires
        p.has_condvar(condvar_id as int),
        p.has_mutex(mutex_id as int),
    ensures
        r == 0,
{
    let _ = p.condvar_list[condvar_id];
    let _ = p.mutex_list[mutex_id];
    0
}

/// Turns deadlock detection on (`enabled == 1`) or off (`enabled == 0`) and
/// returns 0; any other value is refused with -1 and changes nothing.
pub fn sys_enable_deadlock_detect(p: &mut ProcessSync, enabled: usize) -> (r: isize)
    ensures
        r == (if enabled == 0 || enabled == 1 { 0isize } else { -1isize }),
        final(p).detect_deadlock == (if r == 0 { enabled == 1 } else { old(p).detect_deadlock }),
        final(p).same_mutexes(old(p)),
        final(p).same_semaphores(old(p)),
        final(p).condvar_list@ == old(p).condvar_list@,
{
    if enabled != 1 && enabled != 0 {
        return -1;
    }
    p.detect_deadlock = enabled == 1;
    0
}

} // verus!
