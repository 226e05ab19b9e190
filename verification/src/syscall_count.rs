//! How many times each system call has been made.
use vstd::prelude::*;
use crate::config::MAX_SYSCALL_NUM;

verus! {

/// The counters themselves, one per system call id.
pub struct SyscallCountInner {
    count: [u32; MAX_SYSCALL_NUM],
}

/// The system call counters.
pub struct SyscallCount {
    inner: SyscallCountInner,
}

impl View for SyscallCount {
    type V = Seq<u32>;

    closed spec fn view(&self) -> Seq<u32> {
        self.inner.count@
    }
}

impl SyscallCount {
    /// There is one counter for each system call id.
    pub proof fn lemma_len(&self)
        ensures
            self@.len() == MAX_SYSCALL_NUM,
    {
        assert(self.inner.count@.len() == MAX_SYSCALL_NUM);
    }

    /// Every counter at zero.
    pub fn new() -> (sc: Self)
        ensures
            sc@ == Seq::new(MAX_SYSCALL_NUM as nat, |_i: int| 0u32),
    {
        let count = [0u32; MAX_SYSCALL_NUM];
        let sc = SyscallCount { inner: SyscallCountInner { count } };
        assert(sc@ =~= Seq::new(MAX_SYSCALL_NUM as nat, |_i: int| 0u32));
        sc
    }

    /// Counts one more call of `syscall_id`.
    pub fn count_inc(&mut self, syscall_id: usize)
        requires
            syscall_id < MAX_SYSCALL_NUM,
            old(self)@[syscall_id as int] < u32::MAX,
        ensures
            final(self)@ == old(self)@.update(syscall_id as int, (old(self)@[syscall_id as int] + 1) as u32),
    {
        let n = self.inner.count[syscall_id] + 1;
        self.inner.count[syscall_id] = n;
    }

    /// How many times `syscall_id` has been called.
    pub fn count_get(&self, syscall_id: usize) -> (n: u32)
        requires
            syscall_id < MAX_SYSCALL_NUM,
        ensures
            n == self@[syscall_id as int],
    {
        self.inner.count[syscall_id]
    }
}

/// Counts one more call of `syscall_id` in `counts`.
pub fn count_inc(counts: &mut SyscallCount, syscall_id: usize)
    requires
        syscall_id < MAX_SYSCALL_NUM,
        old(counts)@[syscall_id as int] < u32::MAX,
    ensures
        final(counts)@ == old(counts)@.update(syscall_id as int, (old(counts)@[syscall_id as int] + 1) as u32),
{
    counts.count_inc(syscall_id);
}

/// How many times `syscall_id` has been called, by `counts`.
pub fn count_get(counts: &SyscallCount, syscall_id: usize) -> (n: u32)
    requires
        syscall_id < MAX_SYSCALL_NUM,
    ensures
        n == counts@[syscall_id as int],
{
    counts.count_get(syscall_id)
}

} // verus!
