//! Verified core of a small teaching kernel: the bookkeeping of its mutexes and
//! semaphores, deadlock detection over them, the stride scheduler's ready queue,
//! and the decisions of a few process system calls.

pub mod sync;
pub mod syscall;
pub mod task;
