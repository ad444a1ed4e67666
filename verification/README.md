# rcore_syscall

The decisions behind the process-management and synchronisation system calls
of a small teaching kernel, verified with Verus.

- `src/banker.rs` — deadlock detection: `detect_deadlock` reports a deadlock
  exactly when no order lets every thread obtain what it still needs and finish.
- `src/resources.rs` — per-thread need/allocation bookkeeping of one kind of
  resource, its model (`Books`) and the laws of its steps.
- `src/sync.rs` — mutex, semaphore and condition-variable system calls over a
  process's synchronisation state.
- `src/process.rs` — what `fork`, `exec`, `waitpid`, `spawn`, `sbrk`,
  `set_priority`, `sleep` and `get_time` decide and return.
- `src/memory.rs` — page arithmetic, page-table entries, `mmap` and `munmap`.
- `app/lib.rs` — the entry points, which fetch what the library needs from
  the running kernel (through a `Kernel` trait) and carry its decisions out.
