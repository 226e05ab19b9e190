//! The system call layer of a small teaching kernel: process management
//! (fork, exec, spawn, exit, waitpid, yield, memory mapping and the heap),
//! and the mutexes, semaphores and condition variables of a process, with
//! deadlock detection.  The kernel state that the calls read and change is
//! held in plain data; the calls that make a thread wait say so to their
//! caller, which does the waiting.
pub mod config;
pub mod mm;
pub mod memory_set;
pub mod slots;
pub mod task;
pub mod process;
pub mod syscall_count;
pub mod banker;
pub mod locks;
pub mod sync;
pub mod laws;
