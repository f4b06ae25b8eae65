# os_kernel

The bookkeeping at the heart of a small teaching kernel, verified with Verus.

- `src/sync/`: spinning and blocking mutexes and a counting semaphore, each with
  a mathematical model of its state and laws about it; `deadlock.rs` holds the
  safety check (does some order let every task finish?), proved to answer exactly
  that; `src/sync.rs` builds its input from the mutexes or semaphores of a process.
- `src/task/manager.rs`: the ready queue and the stride scheduler's pick.
- `src/syscall/process.rs`: the decisions of the process system calls.
- `app/`: the kernel-side layer (global ready queue, blocking, waking, timer and
  page-table access) around the library; it is type-checked, not verified.
