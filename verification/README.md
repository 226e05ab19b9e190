# os_syscall

The system call layer of a small teaching kernel, as a verified library.

- `src/task.rs`, `src/process.rs`: the process table (pid = slot), the ready
  queue, per-process system call counters and start time, and the process
  system calls: fork, exec, spawn, exit, waitpid, yield, getpid, sbrk, mmap,
  munmap, get_time, task_info.
- `src/memory_set.rs`, `src/mm.rs`: a process's mapped pages and the page
  arithmetic they use.
- `src/locks.rs`, `src/sync.rs`: spin and blocking mutexes (with their
  holder), semaphores, condition variables, and deadlock detection.
- `src/banker.rs`: the banker's safety check that deadlock detection runs,
  over semaphores and over mutexes (each one a single unit).
- `src/syscall_count.rs`: per-syscall counters.
- `src/laws.rs`: properties that relate several calls.
- `app/main.rs`: a host driver that holds the kernel state in globals, reads
  system calls from standard input, and records the threads that have to
  wait, finishing their calls when the library names them as woken.
