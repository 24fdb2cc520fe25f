# oskernel

Verified pieces of a small teaching kernel, written in Verus.

- `src/banker.rs` — the banker's safety check (`is_safe`), proved to answer
  exactly whether some order lets every thread run to completion.
- `src/deadlock.rs` — deadlock checks for mutex and semaphore requests built
  on it, with the closed form of the mutex check.
- `src/process.rs` — the per-process state the system calls work on.
- `src/sys_fs.rs`, `src/sys_process.rs`, `src/sys_sync.rs` — the decisions
  and state changes of the file, process and synchronization system calls.
- `src/scheduler.rs` — the stride scheduler's ready queue.
- `src/vfs.rs` — directory logic: lookup, listing, hard links, unlinking.
- `app/` — glue that performs the work the library leaves to the kernel:
  `syscall.rs` (file objects, timers, page tables, blocking, through a
  `Kernel` trait), `fs.rs` (inode operations over a block-level `Disk`,
  freeing an inode after its last link), and the global ready queue.
- `tests/` — tests on concrete values.
