//! Verified core of a small teaching kernel: the banker's safety check that
//! guards mutexes and semaphores, the bookkeeping of the synchronisation
//! system calls, the two mutex flavours, the stride scheduler and the
//! decision logic of the memory-related system calls.
pub mod banker;
pub mod vfs;
pub mod mutex;
pub mod process_syscalls;
pub mod scheduler;
pub mod sync_syscalls;

use vstd::prelude::*;

verus! {

} // verus!
