//! The processes of the kernel: their control blocks, the process that runs,
//! and the queue of processes that are ready to run.
//!
//! A process is named by its pid, which is also its slot in the table of
//! control blocks; the slot of a process that has been reaped is empty and is
//! given to the next process created.
use vstd::prelude::*;
use crate::memory_set::MemorySet;
use crate::config::MAX_SYSCALL_NUM;
use crate::syscall_count::SyscallCount;

verus! {

/// Pid of the first user process, which adopts the children of every process
/// that exits.
pub const INITPROC_PID: usize = 0;

/// Where a process stands in its life cycle.
#[derive(PartialEq, Eq, Structural, Clone, Copy, Debug)]
pub enum TaskStatus {
    Ready,
    Running,
    Zombie,
}

/// A program that a process can run: its file, and the top of the user stack
/// that loading it gives, which is also where its heap starts.
pub struct ProgramImage {
    pub data: Vec<u8>,
    pub user_sp: usize,
}

/// Task control block: what the kernel keeps of one process.
pub struct TaskControlBlock {
    /// Pids of the children, oldest first.
    pub children: Vec<usize>,
    pub status: TaskStatus,
    pub exit_code: i32,
    pub memory_set: MemorySet,
    /// Start of the heap.
    pub heap_bottom: usize,
    /// End of the heap.
    pub program_brk: usize,
    /// Register a0 of the saved user context: what the process finds there
    /// when it next returns to user mode.
    pub trap_a0: usize,
    /// The program the process runs.
    pub program: Vec<u8>,
    /// How many times the process has made each system call.
    pub syscall_times: SyscallCount,
    /// When the process first ran, in milliseconds; `None` before that.
    pub start_time: Option<usize>,
}

/// All processes, the one that runs, and those that are ready to run.
pub struct TaskManager {
    /// Control blocks by pid; `None` where no process has that pid.
    pub tasks: Vec<Option<TaskControlBlock>>,
    /// Pid of the process that runs, if one does.
    pub current: Option<usize>,
    /// Pids of the processes that are ready to run, in the order they will.
    pub ready_queue: Vec<usize>,
}

/// The two control blocks agree on everything but their children.
pub open spec fn same_but_children(a: TaskControlBlock, b: TaskControlBlock) -> bool {
    &&& a.syscall_times@ == b.syscall_times@
    &&& a.start_time == b.start_time
    &&& a.status == b.status
    &&& a.exit_code == b.exit_code
    &&& a.memory_set@ == b.memory_set@
    &&& a.heap_bottom == b.heap_bottom
    &&& a.program_brk == b.program_brk
    &&& a.trap_a0 == b.trap_a0
    &&& a.program@ == b.program@
}

/// The two control blocks agree on everything but their status and start
/// time.
pub open spec fn same_but_status(a: TaskControlBlock, b: TaskControlBlock) -> bool {
    &&& a.syscall_times@ == b.syscall_times@
    &&& a.children == b.children
    &&& a.exit_code == b.exit_code
    &&& a.memory_set@ == b.memory_set@
    &&& a.heap_bottom == b.heap_bottom
    &&& a.program_brk == b.program_brk
    &&& a.trap_a0 == b.trap_a0
    &&& a.program@ == b.program@
}

impl TaskControlBlock {
    /// A process that starts `image`: no children, an empty heap at the top
    /// of its stack.  The address space records the pages that the heap and
    /// `mmap` add; those that loading the image maps are not tracked.
    pub fn new(image: ProgramImage) -> (t: Self)
        ensures
            t.children@.len() == 0,
            t.status == TaskStatus::Ready,
            t.exit_code == 0,
            t.memory_set@ == Map::<usize, u8>::empty(),
            t.heap_bottom == image.user_sp,
            t.program_brk == image.user_sp,
            t.trap_a0 == 0,
            t.program@ == image.data@,
            t.syscall_times@ == Seq::new(MAX_SYSCALL_NUM as nat, |_i: int| 0u32),
            t.start_time is None,
    {
        TaskControlBlock {
            children: Vec::new(),
            status: TaskStatus::Ready,
            exit_code: 0,
            memory_set: MemorySet::new(),
            heap_bottom: image.user_sp,
            program_brk: image.user_sp,
            trap_a0: 0,
            program: image.data,
            syscall_times: SyscallCount::new(),
            start_time: None,
        }
    }
}

impl TaskManager {
    pub open spec fn live(self, pid: int) -> bool {
        0 <= pid < self.tasks@.len() && self.tasks@[pid] is Some
    }

    pub open spec fn task(self, pid: int) -> TaskControlBlock {
        self.tasks@[pid]->0
    }

    /// The `i`-th child of process `pid`.
    pub open spec fn child(self, pid: int, i: int) -> usize {
        self.task(pid).children@[i]
    }

    pub open spec fn cur(self) -> int {
        self.current->0 as int
    }

    /// The state is well formed: the first process lives and never becomes
    /// a zombie; only the current process runs; the ready queue holds each
    /// ready process at most once; every child lives, and no process is the
    /// child of two processes or twice the child of one.
    pub open spec fn wf(self) -> bool {
        &&& self.live(INITPROC_PID as int)
        &&& self.task(INITPROC_PID as int).status != TaskStatus::Zombie
        &&& self.current is Some ==> self.live(self.cur()) && self.task(self.cur()).status
            == TaskStatus::Running
        &&& forall|p: int|
            self.live(p) && #[trigger] self.task(p).status == TaskStatus::Running ==> self.current
                == Some(p as usize)
        &&& forall|i: int|
            0 <= i < self.ready_queue@.len() ==> self.live(#[trigger] self.ready_queue@[i] as int)
                && self.task(self.ready_queue@[i] as int).status == TaskStatus::Ready
        &&& forall|i: int, j: int|
            0 <= i < j < self.ready_queue@.len() ==> #[trigger] self.ready_queue@[i]
                != #[trigger] self.ready_queue@[j]
        &&& forall|p: int, i: int|
            self.live(p) && 0 <= i < self.task(p).children@.len() ==> self.live(
                #[trigger] self.child(p, i) as int,
            )
        &&& forall|p1: int, i: int, p2: int, j: int|
            self.live(p1) && self.live(p2) && 0 <= i < self.task(p1).children@.len() && 0 <= j
                < self.task(p2).children@.len() && #[trigger] self.child(p1, i) == #[trigger] self.child(
                p2,
                j,
            ) ==> p1 == p2 && i == j
    }

    /// A kernel whose only process is the first one, running `init` since
    /// `now_ms`.
    pub fn new(init: ProgramImage, now_ms: usize) -> (k: Self)
        ensures
            k.wf(),
            k.tasks@.len() == 1,
            k.current == Some(INITPROC_PID),
            k.ready_queue@.len() == 0,
            k.task(0).status == TaskStatus::Running,
            k.task(0).children@.len() == 0,
            k.task(0).heap_bottom == init.user_sp,
            k.task(0).program_brk == init.user_sp,
            k.task(0).memory_set@ == Map::<usize, u8>::empty(),
            k.task(0).program@ == init.data@,
            k.task(0).syscall_times@ == Seq::new(MAX_SYSCALL_NUM as nat, |_i: int| 0u32),
            k.task(0).start_time == Some(now_ms),
    {
        let mut t = TaskControlBlock::new(init);
        t.status = TaskStatus::Running;
        t.start_time = Some(now_ms);
        let mut tasks: Vec<Option<TaskControlBlock>> = Vec::new();
        tasks.push(Some(t));
        TaskManager { tasks, current: Some(INITPROC_PID), ready_queue: Vec::new() }
    }
}

} // verus!
