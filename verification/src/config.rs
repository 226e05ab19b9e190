use vstd::prelude::*;

verus! {

/// Size of one page of virtual memory, in bytes.
pub const PAGE_SIZE: usize = 0x1000;

/// Number of bits of a virtual address that lie inside one page.
pub const PAGE_SIZE_BITS: usize = 12;

/// Number of distinct system call ids that are counted per task.
pub const MAX_SYSCALL_NUM: usize = 500;

} // verus!
