# rcore_os

Verified core of a small RISC-V teaching kernel, written in Verus.

- `src/banker.rs` — the banker's tables (available, allocation, need), their
  lazy growth, and the safety check, proved to answer "safe" exactly when some
  order lets every thread finish (when no thread holds a negative amount).
- `src/sync_syscalls.rs` — per-process mutex, semaphore and condition-variable
  tables and the bookkeeping of the synchronisation system calls, including
  the refusal (`-0xdead`) of requests that would make the state unsafe.
- `src/mutex.rs` — spinning and blocking mutexes as state machines that tell
  the caller whether to retry, block or wake a thread.
- `src/scheduler.rs` — stride scheduling with 8-bit wrapping strides, and the
  pid table.
- `src/process_syscalls.rs` — decisions of `trace`, `mmap`, `munmap`, `sbrk`
  and the time value of `get_time`.
- `src/vfs.rs` — directory entries of an inode: lookup, create, `ls`, hard
  links and unlinking, link counts, inode numbers and modes.
- `app/lib.rs` — kernel glue: global scheduler state (`lazy_static`, `spin`),
  the system-call entry points that do the blocking, waking, mapping and
  user-memory work around the library's decisions, and the file-system glue
  that takes, initialises and frees inodes as the directory operations decide.
- `tests/` — tests on concrete values for each module.
