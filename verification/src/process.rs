//! Process management system calls.
use vstd::prelude::*;
use crate::slots::{find_free_slot, is_first_free};
use crate::config::{MAX_SYSCALL_NUM, PAGE_SIZE};
use crate::syscall_count::SyscallCount;
use crate::memory_set::{MemorySet, range_mapped, range_unmapped, with_range, without_range};
use crate::mm::{align_up_pagesize, aligned, ceil, floor, map_permission, page_ceil, port_permission};
use crate::task::{INITPROC_PID, ProgramImage, TaskControlBlock, TaskManager, TaskStatus, same_but_children, same_but_status};

verus! {

/// Makes `t` a child of the current process, under the first free pid, and
/// queues it to run.
fn add_child_process(k: &mut TaskManager, t: TaskControlBlock) -> (pid: usize)
    requires
        old(k).wf(),
        old(k).current is Some,
        old(k).tasks@.len() < usize::MAX,
        t.status == TaskStatus::Ready,
        t.children@.len() == 0,
    ensures
        final(k).wf(),
        is_first_free(old(k).tasks@, pid as int),
        final(k).tasks@.len() == if pid < old(k).tasks@.len() {
            old(k).tasks@.len()
        } else {
            old(k).tasks@.len() + 1
        },
        final(k).tasks@[pid as int] == Some(t),
        final(k).task(old(k).cur()).children@ == old(k).task(old(k).cur()).children@.push(pid),
        same_but_children(final(k).task(old(k).cur()), old(k).task(old(k).cur())),
        final(k).live(old(k).cur()),
        forall|p: int|
            0 <= p < old(k).tasks@.len() && p != pid && p != old(k).cur() ==> #[trigger] final(k).tasks@[p] == old(k).tasks@[p],
        final(k).ready_queue@ == old(k).ready_queue@.push(pid),
        final(k).current == old(k).current,
{
    let cur = match k.current {
        Some(c) => c,
        None => 0,
    };
    let pid = find_free_slot(&k.tasks);
    if pid < k.tasks.len() {
        k.tasks.set(pid, Some(t));
    } else {
        k.tasks.push(Some(t));
    }
    match &mut k.tasks[cur] {
        Some(p) => p.children.push(pid),
        None => {},
    }
    k.ready_queue.push(pid);
    proof {
        let o = *old(k);
        let n = *k;
        assert forall|p: int, i: int|
            n.live(p) && 0 <= i < n.task(p).children@.len() implies n.live(
            #[trigger] n.child(p, i) as int,
        ) by {
            if p == cur {
                if i < o.task(p).children@.len() {
                    assert(o.live(o.child(p, i) as int));
                }
            } else if p != pid {
                assert(o.live(o.child(p, i) as int));
            }
        }
        assert forall|p1: int, i: int, p2: int, j: int|
            n.live(p1) && n.live(p2) && 0 <= i < n.task(p1).children@.len() && 0 <= j
                < n.task(p2).children@.len() && #[trigger] n.child(p1, i) == #[trigger] n.child(
                p2,
                j,
            ) implies p1 == p2 && i == j by {
            assert(p1 != pid && p2 != pid);
            if p1 == cur && i == o.task(cur as int).children@.len() {
                if p2 != cur || j < o.task(cur as int).children@.len() {
                    assert(o.live(o.child(p2, j) as int));
                }
            } else if p2 == cur && j == o.task(cur as int).children@.len() {
                assert(o.live(o.child(p1, i) as int));
            } else {
                assert(o.child(p1, i) == n.child(p1, i));
                assert(o.child(p2, j) == n.child(p2, j));
            }
        }
        assert forall|i: int, j: int|
            0 <= i < j < n.ready_queue@.len() implies #[trigger] n.ready_queue@[i]
            != #[trigger] n.ready_queue@[j] by {
            if j == n.ready_queue@.len() - 1 {
                assert(o.live(o.ready_queue@[i] as int));
            }
        }
        assert forall|p: int| n.live(p) && #[trigger] n.task(p).status == TaskStatus::Running implies n.current == Some(p as usize) by {
            if p != pid {
                assert(o.task(p).status == n.task(p).status);
            }
        }
    }
    pid
}

/// getpid syscall
pub fn sys_getpid(k: &TaskManager) -> (r: isize)
    requires
        k.current is Some,
    ensures
        r == k.current->0 as isize,
{
    match k.current {
        Some(pid) => #[verifier::truncate] (pid as isize),
        None => 0,
    }
}

/// fork syscall: the child is a copy of the current process that finds 0
/// in its return register; the parent gets the child's pid.
pub fn sys_fork(k: &mut TaskManager) -> (r: isize)
    requires
        old(k).wf(),
        old(k).current is Some,
        old(k).tasks@.len() < isize::MAX,
    ensures
        final(k).wf(),
        r >= 0,
        is_first_free(old(k).tasks@, r as int),
        final(k).live(r as int),
        final(k).task(r as int).status == TaskStatus::Ready,
        final(k).task(r as int).children@.len() == 0,
        final(k).task(r as int).exit_code == 0,
        final(k).task(r as int).trap_a0 == 0,
        final(k).task(r as int).memory_set@ == old(k).task(old(k).cur()).memory_set@,
        final(k).task(r as int).heap_bottom == old(k).task(old(k).cur()).heap_bottom,
        final(k).task(r as int).program_brk == old(k).task(old(k).cur()).program_brk,
        final(k).task(r as int).program@ == old(k).task(old(k).cur()).program@,
        final(k).task(r as int).syscall_times@ == Seq::new(MAX_SYSCALL_NUM as nat, |_i: int| 0u32),
        final(k).task(r as int).start_time is None,
        final(k).task(old(k).cur()).children@ == old(k).task(old(k).cur()).children@.push(
            r as usize,
        ),
        same_but_children(final(k).task(old(k).cur()), old(k).task(old(k).cur())),
        forall|p: int|
            0 <= p < old(k).tasks@.len() && p != r && p != old(k).cur() ==> #[trigger] final(k).tasks@[p] == old(k).tasks@[p],
        final(k).ready_queue@ == old(k).ready_queue@.push(r as usize),
        final(k).current == old(k).current,
{
    let cur = match k.current {
        Some(c) => c,
        None => 0,
    };
    let child = match &k.tasks[cur] {
        Some(parent) => TaskControlBlock {
            children: Vec::new(),
            status: TaskStatus::Ready,
            exit_code: 0,
            memory_set: parent.memory_set.from_existed_user(),
            heap_bottom: parent.heap_bottom,
            program_brk: parent.program_brk,
            trap_a0: 0,
            program: parent.program.clone(),
            syscall_times: SyscallCount::new(),
            start_time: None,
        },
        None => TaskControlBlock {
            children: Vec::new(),
            status: TaskStatus::Ready,
            exit_code: 0,
            memory_set: MemorySet::new(),
            heap_bottom: 0,
            program_brk: 0,
            trap_a0: 0,
            program: Vec::new(),
            syscall_times: SyscallCount::new(),
            start_time: None,
        },
    };
    let new_pid = add_child_process(k, child);
    new_pid as isize
}

/// spawn syscall: starts `app`, the program found under the path the caller
/// named (`None` when there is none), as a new child of the current process.
pub fn sys_spawn(k: &mut TaskManager, app: Option<ProgramImage>) -> (r: isize)
    requires
        old(k).wf(),
        old(k).current is Some,
        old(k).tasks@.len() < isize::MAX,
    ensures
        final(k).wf(),
        app is None ==> r == -1 && *final(k) == *old(k),
        app is Some ==> {
            &&& r >= 0
            &&& is_first_free(old(k).tasks@, r as int)
            &&& final(k).live(r as int)
            &&& final(k).task(r as int).status == TaskStatus::Ready
            &&& final(k).task(r as int).children@.len() == 0
            &&& final(k).task(r as int).exit_code == 0
            &&& final(k).task(r as int).trap_a0 == 0
            &&& final(k).task(r as int).memory_set@ == Map::<usize, u8>::empty()
            &&& final(k).task(r as int).heap_bottom == app->0.user_sp
            &&& final(k).task(r as int).program_brk == app->0.user_sp
            &&& final(k).task(r as int).program@ == app->0.data@
            &&& final(k).task(r as int).syscall_times@ == Seq::new(MAX_SYSCALL_NUM as nat, |_i: int| 0u32)
            &&& final(k).task(r as int).start_time is None
            &&& final(k).task(old(k).cur()).children@ == old(k).task(old(k).cur()).children@.push(
                r as usize,
            )
            &&& same_but_children(final(k).task(old(k).cur()), old(k).task(old(k).cur()))
            &&& forall|p: int|
                0 <= p < old(k).tasks@.len() && p != r && p != old(k).cur() ==> #[trigger] final(k).tasks@[p] == old(k).tasks@[p]
            &&& final(k).ready_queue@ == old(k).ready_queue@.push(r as usize)
            &&& final(k).current == old(k).current
        },
{
    match app {
        Some(data) => {
            let child = TaskControlBlock::new(data);
            let new_pid = add_child_process(k, child);
            new_pid as isize
        },
        None => -1,
    }
}

/// exec syscall: the current process drops its address space and starts
/// `app`, the program found under the path it named (`None` when there is
/// none).
pub fn sys_exec(k: &mut TaskManager, app: Option<ProgramImage>) -> (r: isize)
    requires
        old(k).wf(),
        old(k).current is Some,
    ensures
        final(k).wf(),
        app is None ==> r == -1 && *final(k) == *old(k),
        app is Some ==> {
            &&& r == 0
            &&& final(k).tasks@.len() == old(k).tasks@.len()
            &&& final(k).live(old(k).cur())
            &&& final(k).task(old(k).cur()).memory_set@ == Map::<usize, u8>::empty()
            &&& final(k).task(old(k).cur()).heap_bottom == app->0.user_sp
            &&& final(k).task(old(k).cur()).program_brk == app->0.user_sp
            &&& final(k).task(old(k).cur()).program@ == app->0.data@
            &&& final(k).task(old(k).cur()).trap_a0 == 0
            &&& final(k).task(old(k).cur()).children == old(k).task(old(k).cur()).children
            &&& final(k).task(old(k).cur()).status == old(k).task(old(k).cur()).status
            &&& final(k).task(old(k).cur()).exit_code == old(k).task(old(k).cur()).exit_code
            &&& final(k).task(old(k).cur()).syscall_times@ == old(k).task(old(k).cur()).syscall_times@
            &&& final(k).task(old(k).cur()).start_time == old(k).task(old(k).cur()).start_time
            &&& forall|p: int|
                0 <= p < old(k).tasks@.len() && p != old(k).cur() ==> #[trigger] final(k).tasks@[p] == old(k).tasks@[p]
            &&& final(k).ready_queue == old(k).ready_queue
            &&& final(k).current == old(k).current
        },
{
    let cur = match k.current {
        Some(c) => c,
        None => 0,
    };
    match app {
        Some(image) => {
            match &mut k.tasks[cur] {
                Some(t) => {
                    t.memory_set = MemorySet::new();
                    t.heap_bottom = image.user_sp;
                    t.program_brk = image.user_sp;
                    t.program = image.data;
                    t.trap_a0 = 0;
                },
                None => {},
            }
            proof {
                lemma_wf_after_current_update(*old(k), *k);
            }
            0
        },
        None => -1,
    }
}

/// Where the `i`-th child of `p` stood before process `cur` exited and the
/// first process adopted its children after its own `len0`.
spec fn exit_origin(p: int, i: int, cur: int, len0: int) -> (int, int) {
    if p == INITPROC_PID as int && i >= len0 {
        (cur, i - len0)
    } else {
        (p, i)
    }
}

/// exit syscall: the current process becomes a zombie that keeps
/// `exit_code`, its address space is freed, and the first process adopts its
/// children.  No process runs afterwards until `run_next` picks one.
/// When the first process itself exits, nothing changes and `true` is
/// returned: the system shuts down.
pub fn sys_exit(k: &mut TaskManager, exit_code: i32) -> (shutdown: bool)
    requires
        old(k).wf(),
        old(k).current is Some,
    ensures
        final(k).wf(),
        shutdown == (old(k).cur() == INITPROC_PID as int),
        shutdown ==> *final(k) == *old(k),
        !shutdown ==> {
            &&& final(k).tasks@.len() == old(k).tasks@.len()
            &&& final(k).live(old(k).cur())
            &&& final(k).task(old(k).cur()).status == TaskStatus::Zombie
            &&& final(k).task(old(k).cur()).exit_code == exit_code
            &&& final(k).task(old(k).cur()).children@.len() == 0
            &&& final(k).task(old(k).cur()).memory_set@ == Map::<usize, u8>::empty()
            &&& final(k).task(old(k).cur()).heap_bottom == old(k).task(old(k).cur()).heap_bottom
            &&& final(k).task(old(k).cur()).program_brk == old(k).task(old(k).cur()).program_brk
            &&& final(k).task(old(k).cur()).program == old(k).task(old(k).cur()).program
            &&& final(k).task(old(k).cur()).trap_a0 == old(k).task(old(k).cur()).trap_a0
            &&& final(k).task(old(k).cur()).syscall_times@ == old(k).task(old(k).cur()).syscall_times@
            &&& final(k).task(old(k).cur()).start_time == old(k).task(old(k).cur()).start_time
            &&& final(k).task(INITPROC_PID as int).children@ == old(k).task(
                INITPROC_PID as int,
            ).children@ + old(k).task(old(k).cur()).children@
            &&& same_but_children(final(k).task(INITPROC_PID as int), old(k).task(INITPROC_PID as int))
            &&& forall|p: int|
                0 <= p < old(k).tasks@.len() && p != INITPROC_PID && p != old(k).cur() ==> #[trigger] final(k).tasks@[p] == old(k).tasks@[p]
            &&& final(k).ready_queue == old(k).ready_queue
            &&& final(k).current is None
        },
{
    let cur = match k.current {
        Some(c) => c,
        None => 0,
    };
    if cur == INITPROC_PID {
        return true;
    }
    let mut orphans: Vec<usize> = Vec::new();
    match &mut k.tasks[cur] {
        Some(t) => {
            std::mem::swap(&mut orphans, &mut t.children);
            t.status = TaskStatus::Zombie;
            t.exit_code = exit_code;
            t.memory_set = MemorySet::new();
        },
        None => {},
    }
    match &mut k.tasks[INITPROC_PID] {
        Some(init) => init.children.append(&mut orphans),
        None => {},
    }
    k.current = None;
    let ntasks = k.tasks.len();
    proof {
        let o = *old(k);
        let n = *k;
        let c = cur as int;
        let len0 = o.task(0).children@.len() as int;
        assert forall|p: int| n.live(p) && #[trigger] n.task(p).status == TaskStatus::Running implies n.current == Some(p as usize) by {
            if p != c {
                assert(o.task(p).status == n.task(p).status);
                assert(o.live(p));
                assert(p < ntasks);
                assert(o.current == Some(p as usize));
            }
        }
        assert forall|i: int|
            0 <= i < n.ready_queue@.len() implies n.live(#[trigger] n.ready_queue@[i] as int)
                && n.task(n.ready_queue@[i] as int).status == TaskStatus::Ready by {
            assert(o.live(o.ready_queue@[i] as int));
        }
        assert forall|p: int, i: int|
            n.live(p) && 0 <= i < n.task(p).children@.len() implies n.live(
            #[trigger] n.child(p, i) as int,
        ) by {
            let (q, j) = exit_origin(p, i, c, len0);
            assert(o.child(q, j) == n.child(p, i));
            assert(o.live(o.child(q, j) as int));
        }
        assert forall|p1: int, i: int, p2: int, j: int|
            n.live(p1) && n.live(p2) && 0 <= i < n.task(p1).children@.len() && 0 <= j
                < n.task(p2).children@.len() && #[trigger] n.child(p1, i) == #[trigger] n.child(
                p2,
                j,
            ) implies p1 == p2 && i == j by {
            let (q1, j1) = exit_origin(p1, i, c, len0);
            let (q2, j2) = exit_origin(p2, j, c, len0);
            assert(o.child(q1, j1) == n.child(p1, i));
            assert(o.child(q2, j2) == n.child(p2, j));
        }
    }
    false
}

/// Picks the next process to run when none does: the first ready one, which
/// leaves the queue and runs; its start time is `now_ms` when it never ran
/// before.  `None` when no process is ready.
pub fn run_next(k: &mut TaskManager, now_ms: usize) -> (r: Option<usize>)
    requires
        old(k).wf(),
        old(k).current is None,
    ensures
        final(k).wf(),
        old(k).ready_queue@.len() == 0 ==> r is None && *final(k) == *old(k),
        old(k).ready_queue@.len() > 0 ==> {
            let next = old(k).ready_queue@[0];
            &&& r == Some(next)
            &&& final(k).current == Some(next)
            &&& final(k).ready_queue@ == old(k).ready_queue@.drop_first()
            &&& final(k).tasks@.len() == old(k).tasks@.len()
            &&& final(k).live(next as int)
            &&& final(k).task(next as int).status == TaskStatus::Running
            &&& same_but_status(final(k).task(next as int), old(k).task(next as int))
            &&& final(k).task(next as int).start_time == if old(k).task(next as int).start_time is None {
                Some(now_ms)
            } else {
                old(k).task(next as int).start_time
            }
            &&& forall|p: int|
                0 <= p < old(k).tasks@.len() && p != next ==> #[trigger] final(k).tasks@[p] == old(k).tasks@[p]
        },
{
    if k.ready_queue.len() == 0 {
        return None;
    }
    let next = k.ready_queue.remove(0);
    assert(k.ready_queue@ =~= old(k).ready_queue@.drop_first());
    assert(old(k).live(next as int));
    match &mut k.tasks[next] {
        Some(t) => {
            t.status = TaskStatus::Running;
            if t.start_time.is_none() {
                t.start_time = Some(now_ms);
            }
        },
        None => {},
    }
    k.current = Some(next);
    proof {
        let o = *old(k);
        let n = *k;
        assert forall|p: int| n.live(p) && #[trigger] n.task(p).status == TaskStatus::Running implies n.current == Some(p as usize) by {
            if p != next {
                assert(o.task(p).status == n.task(p).status);
            }
        }
        assert forall|i: int|
            0 <= i < n.ready_queue@.len() implies n.live(#[trigger] n.ready_queue@[i] as int)
                && n.task(n.ready_queue@[i] as int).status == TaskStatus::Ready by {
            assert(n.ready_queue@[i] == o.ready_queue@[i + 1]);
            assert(o.live(o.ready_queue@[i + 1] as int));
            assert(o.ready_queue@[0] != o.ready_queue@[i + 1]);
        }
        assert forall|i: int, j: int|
            0 <= i < j < n.ready_queue@.len() implies #[trigger] n.ready_queue@[i]
            != #[trigger] n.ready_queue@[j] by {
            assert(n.ready_queue@[i] == o.ready_queue@[i + 1]);
            assert(n.ready_queue@[j] == o.ready_queue@[j + 1]);
        }
        lemma_children_kept(o, n);
    }
    Some(next)
}

/// yield syscall: the current process goes to the back of the ready queue
/// and the first ready process runs (the caller itself when no other is
/// ready), starting its clock at `now_ms` if it never ran.  The call returns
/// 0 when the caller runs again.
pub fn sys_yield(k: &mut TaskManager, now_ms: usize) -> (r: isize)
    requires
        old(k).wf(),
        old(k).current is Some,
    ensures
        r == 0,
        final(k).wf(),
        ({
            let cur = old(k).current->0;
            let q = old(k).ready_queue@.push(cur);
            &&& final(k).current == Some(q[0])
            &&& final(k).ready_queue@ == q.drop_first()
            &&& final(k).tasks@.len() == old(k).tasks@.len()
            &&& final(k).task(q[0] as int).status == TaskStatus::Running
            &&& same_but_status(final(k).task(q[0] as int), old(k).task(q[0] as int))
            &&& final(k).task(q[0] as int).start_time == if old(k).task(q[0] as int).start_time is None {
                Some(now_ms)
            } else {
                old(k).task(q[0] as int).start_time
            }
            &&& q[0] != cur ==> final(k).task(cur as int).status == TaskStatus::Ready
                && same_but_status(final(k).task(cur as int), old(k).task(cur as int))
                && final(k).task(cur as int).start_time == old(k).task(cur as int).start_time
            &&& forall|p: int|
                0 <= p < old(k).tasks@.len() && p != q[0] && p != cur ==> #[trigger] final(k).tasks@[p] == old(k).tasks@[p]
        }),
{
    let cur = match k.current {
        Some(c) => c,
        None => 0,
    };
    match &mut k.tasks[cur] {
        Some(t) => t.status = TaskStatus::Ready,
        None => {},
    }
    k.ready_queue.push(cur);
    k.current = None;
    let ntasks = k.tasks.len();
    proof {
        let o = *old(k);
        let n = *k;
        assert forall|p: int| n.live(p) && #[trigger] n.task(p).status == TaskStatus::Running implies n.current == Some(p as usize) by {
            if p != cur {
                assert(o.task(p).status == n.task(p).status);
                assert(o.live(p));
                assert(p < ntasks);
                assert(o.current == Some(p as usize));
            }
        }
        assert forall|i: int|
            0 <= i < n.ready_queue@.len() implies n.live(#[trigger] n.ready_queue@[i] as int)
                && n.task(n.ready_queue@[i] as int).status == TaskStatus::Ready by {
            if i < o.ready_queue@.len() {
                assert(o.live(o.ready_queue@[i] as int));
            }
        }
        assert forall|i: int, j: int|
            0 <= i < j < n.ready_queue@.len() implies #[trigger] n.ready_queue@[i]
            != #[trigger] n.ready_queue@[j] by {
            if j == o.ready_queue@.len() {
                assert(o.live(o.ready_queue@[i] as int));
            }
        }
        lemma_children_kept(o, n);
    }
    let ghost mid = *k;
    let _ = run_next(k, now_ms);
    assert(mid.ready_queue@ == old(k).ready_queue@.push(cur));
    0
}

/// Child `c` is the one `pid` asks for: any child when `pid` is -1.
pub open spec fn pid_matches(pid: isize, c: usize) -> bool {
    pid == -1 || pid as usize == c
}

impl TaskManager {
    /// The current process has a child that `pid` asks for.
    pub open spec fn has_matching_child(self, pid: isize) -> bool {
        exists|i: int|
            0 <= i < self.task(self.cur()).children@.len() && pid_matches(
                pid,
                #[trigger] self.child(self.cur(), i),
            )
    }

    /// The `i`-th child of the current process is asked for by `pid` and has
    /// exited.
    pub open spec fn waitable(self, pid: isize, i: int) -> bool {
        &&& 0 <= i < self.task(self.cur()).children@.len()
        &&& pid_matches(pid, self.child(self.cur(), i))
        &&& self.task(self.child(self.cur(), i) as int).status == TaskStatus::Zombie
    }

    /// `i` is the first child of the current process that is waitable.
    pub open spec fn first_waitable(self, pid: isize, i: int) -> bool {
        &&& self.waitable(pid, i)
        &&& forall|j: int| 0 <= j < i ==> !#[trigger] self.waitable(pid, j)
    }
}

/// The shift of child positions when the `idx`-th child of `cur` is taken out.
spec fn reap_origin(p: int, i: int, cur: int, idx: int) -> int {
    if p == cur && i >= idx {
        i + 1
    } else {
        i
    }
}

/// waitpid syscall.  If there is not a child process whose pid is same as
/// given, return -1.  Else if there is a child process but it is still
/// running, return -2.  Else the first such child that has exited is reaped:
/// its pid is returned together with the exit code that the caller writes to
/// the place the process named.
pub fn sys_waitpid(k: &mut TaskManager, pid: isize) -> (r: (isize, Option<i32>))
    requires
        old(k).wf(),
        old(k).current is Some,
    ensures
        final(k).wf(),
        !old(k).has_matching_child(pid) ==> r == (-1isize, None::<i32>) && *final(k) == *old(k),
        old(k).has_matching_child(pid) && !(exists|i: int| old(k).waitable(pid, i)) ==> r == (
            -2isize,
            None::<i32>,
        ) && *final(k) == *old(k),
        (exists|i: int| old(k).waitable(pid, i)) ==> r.1 is Some,
        forall|i: int|
            #![trigger old(k).first_waitable(pid, i)]
            old(k).first_waitable(pid, i) ==> {
                let c = old(k).child(old(k).cur(), i);
                &&& r == (c as isize, Some(old(k).task(c as int).exit_code))
                &&& final(k).tasks@.len() == old(k).tasks@.len()
                &&& final(k).tasks@[c as int] is None
                &&& final(k).task(old(k).cur()).children@ == old(k).task(
                    old(k).cur(),
                ).children@.remove(i)
                &&& same_but_children(final(k).task(old(k).cur()), old(k).task(old(k).cur()))
                &&& final(k).live(old(k).cur())
                &&& forall|p: int|
                    0 <= p < old(k).tasks@.len() && p != c && p != old(k).cur() ==> #[trigger] final(k).tasks@[p] == old(k).tasks@[p]
                &&& final(k).ready_queue == old(k).ready_queue
                &&& final(k).current == old(k).current
            },
{
    let cur = match k.current {
        Some(c) => c,
        None => 0,
    };
    let ghost o = *k;
    let nchildren = match &k.tasks[cur] {
        Some(t) => t.children.len(),
        None => 0,
    };
    let mut any = false;
    let mut i: usize = 0;
    while i < nchildren
        invariant
            *k == o,
            o == *old(k),
            cur as int == o.cur(),
            o.live(cur as int),
            nchildren == o.task(cur as int).children@.len(),
            i <= nchildren,
            any == exists|j: int| 0 <= j < i && pid_matches(pid, #[trigger] o.child(cur as int, j)),
        decreases nchildren - i,
    {
        let c = match &k.tasks[cur] {
            Some(t) => t.children[i],
            None => 0,
        };
        assert(c == o.child(cur as int, i as int));
        if pid == -1 || #[verifier::truncate] (pid as usize) == c {
            any = true;
        }
        assert(any == exists|j: int| 0 <= j < i + 1 && pid_matches(pid, #[trigger] o.child(cur as int, j))) by {
            if pid_matches(pid, o.child(cur as int, i as int)) {
                assert(0 <= i < i + 1 && pid_matches(pid, o.child(cur as int, i as int)));
            }
        }
        i = i + 1;
    }
    if !any {
        return (-1, None);
    }
    let mut found: Option<usize> = None;
    let mut i: usize = 0;
    while i < nchildren && found.is_none()
        invariant
            *k == o,
            o == *old(k),
            o.wf(),
            cur as int == o.cur(),
            o.live(cur as int),
            nchildren == o.task(cur as int).children@.len(),
            i <= nchildren,
            found is None ==> forall|j: int| 0 <= j < i ==> !#[trigger] o.waitable(pid, j),
            found is Some ==> o.first_waitable(pid, found->0 as int),
        decreases nchildren - i + if found is None { 1int } else { 0int },
    {
        let c = match &k.tasks[cur] {
            Some(t) => t.children[i],
            None => 0,
        };
        assert(c == o.child(cur as int, i as int));
        assert(o.live(o.child(cur as int, i as int) as int));
        let zombie = match &k.tasks[c] {
            Some(t) => t.status == TaskStatus::Zombie,
            None => false,
        };
        assert(zombie == (o.task(c as int).status == TaskStatus::Zombie));
        if zombie && (pid == -1 || #[verifier::truncate] (pid as usize) == c) {
            assert(o.waitable(pid, i as int));
            found = Some(i);
        } else {
            i = i + 1;
        }
    }
    match found {
        None => (-2, None),
        Some(idx) => {
            let c = match &k.tasks[cur] {
                Some(t) => t.children[idx],
                None => 0,
            };
            let exit_code = match &k.tasks[c] {
                Some(t) => t.exit_code,
                None => 0,
            };
            match &mut k.tasks[cur] {
                Some(t) => {
                    t.children.remove(idx);
                },
                None => {},
            }
            k.tasks.set(c, None);
            let ntasks = k.tasks.len();
            proof {
                let n = *k;
                let ci = c as int;
                let cu = cur as int;
                assert(o.live(ci));
                assert(ci != cu);
                assert(n.task(cu).children@ =~= o.task(cu).children@.remove(idx as int));
                assert forall|p: int| n.live(p) && #[trigger] n.task(p).status == TaskStatus::Running implies n.current == Some(p as usize) by {
                    assert(o.task(p).status == n.task(p).status);
                    assert(p < ntasks);
                }
                assert forall|q: int|
                    0 <= q < n.ready_queue@.len() implies n.live(#[trigger] n.ready_queue@[q] as int)
                        && n.task(n.ready_queue@[q] as int).status == TaskStatus::Ready by {
                    assert(o.live(o.ready_queue@[q] as int));
                    assert(o.task(o.ready_queue@[q] as int).status == TaskStatus::Ready);
                }
                assert forall|p: int, j: int|
                    n.live(p) && 0 <= j < n.task(p).children@.len() implies n.live(
                    #[trigger] n.child(p, j) as int,
                ) by {
                    let j0 = reap_origin(p, j, cu, idx as int);
                    assert(o.child(p, j0) == n.child(p, j));
                    assert(o.live(o.child(p, j0) as int));
                    assert(o.child(cu, idx as int) == c);
                    assert(!(p == cu && j0 == idx));
                }
                assert forall|p1: int, i1: int, p2: int, j: int|
                    n.live(p1) && n.live(p2) && 0 <= i1 < n.task(p1).children@.len() && 0 <= j
                        < n.task(p2).children@.len() && #[trigger] n.child(p1, i1) == #[trigger] n.child(
                        p2,
                        j,
                    ) implies p1 == p2 && i1 == j by {
                    let a = reap_origin(p1, i1, cu, idx as int);
                    let b = reap_origin(p2, j, cu, idx as int);
                    assert(o.child(p1, a) == n.child(p1, i1));
                    assert(o.child(p2, b) == n.child(p2, j));
                }
                assert forall|i2: int| #[trigger] o.first_waitable(pid, i2) implies i2 == idx as int by {
                    if i2 < idx as int {
                        assert(!o.waitable(pid, i2));
                    }
                    if i2 > idx as int {
                        assert(!o.waitable(pid, idx as int));
                    }
                }
            }
            (#[verifier::truncate] (c as isize), Some(exit_code))
        },
    }
}

/// The child relation of a well-formed state stays well formed when the
/// same processes live with the same children.
proof fn lemma_children_kept(o: TaskManager, n: TaskManager)
    requires
        o.wf(),
        n.tasks@.len() == o.tasks@.len(),
        forall|p: int| 0 <= p < o.tasks@.len() ==> #[trigger] n.live(p) == o.live(p),
        forall|p: int| o.live(p) ==> #[trigger] n.task(p).children == o.task(p).children,
    ensures
        forall|p: int, i: int|
            n.live(p) && 0 <= i < n.task(p).children@.len() ==> n.live(#[trigger] n.child(p, i) as int),
        forall|p1: int, i: int, p2: int, j: int|
            n.live(p1) && n.live(p2) && 0 <= i < n.task(p1).children@.len() && 0 <= j
                < n.task(p2).children@.len() && #[trigger] n.child(p1, i) == #[trigger] n.child(p2, j)
                ==> p1 == p2 && i == j,
{
    assert forall|p: int, i: int|
        n.live(p) && 0 <= i < n.task(p).children@.len() implies n.live(
        #[trigger] n.child(p, i) as int,
    ) by {
        assert(o.live(o.child(p, i) as int));
    }
    assert forall|p1: int, i: int, p2: int, j: int|
        n.live(p1) && n.live(p2) && 0 <= i < n.task(p1).children@.len() && 0 <= j
            < n.task(p2).children@.len() && #[trigger] n.child(p1, i) == #[trigger] n.child(
            p2,
            j,
        ) implies p1 == p2 && i == j by {
        assert(o.child(p1, i) == n.child(p1, i));
        assert(o.child(p2, j) == n.child(p2, j));
    }
}

/// Keeps the well-formedness of `k` across a change of the current process
/// that leaves its status and children alone.
proof fn lemma_wf_after_current_update(o: TaskManager, n: TaskManager)
    requires
        o.wf(),
        o.current is Some,
        n.current == o.current,
        n.ready_queue == o.ready_queue,
        n.tasks@.len() == o.tasks@.len(),
        n.live(o.cur()),
        n.task(o.cur()).status == o.task(o.cur()).status,
        n.task(o.cur()).children == o.task(o.cur()).children,
        forall|p: int| 0 <= p < o.tasks@.len() && p != o.cur() ==> #[trigger] n.tasks@[p] == o.tasks@[p],
    ensures
        n.wf(),
{
    assert forall|p: int| n.live(p) && #[trigger] n.task(p).status == TaskStatus::Running implies n.current == Some(p as usize) by {
        assert(o.task(p).status == n.task(p).status);
    }
    assert forall|i: int|
        0 <= i < n.ready_queue@.len() implies n.live(#[trigger] n.ready_queue@[i] as int)
            && n.task(n.ready_queue@[i] as int).status == TaskStatus::Ready by {
        assert(o.live(o.ready_queue@[i] as int));
    }
    lemma_children_kept(o, n);
}

/// The current process is left as it was but for its heap end and address
/// space, and every other process and the queues are left alone.
pub open spec fn only_current_memory_changed(o: TaskManager, n: TaskManager) -> bool {
    &&& n.tasks@.len() == o.tasks@.len()
    &&& n.live(o.cur())
    &&& n.task(o.cur()).children == o.task(o.cur()).children
    &&& n.task(o.cur()).status == o.task(o.cur()).status
    &&& n.task(o.cur()).exit_code == o.task(o.cur()).exit_code
    &&& n.task(o.cur()).heap_bottom == o.task(o.cur()).heap_bottom
    &&& n.task(o.cur()).trap_a0 == o.task(o.cur()).trap_a0
    &&& n.task(o.cur()).program == o.task(o.cur()).program
    &&& n.task(o.cur()).syscall_times@ == o.task(o.cur()).syscall_times@
    &&& n.task(o.cur()).start_time == o.task(o.cur()).start_time
    &&& forall|p: int| 0 <= p < o.tasks@.len() && p != o.cur() ==> #[trigger] n.tasks@[p] == o.tasks@[p]
    &&& n.ready_queue == o.ready_queue
    &&& n.current == o.current
}

/// The heap end that `sbrk(size)` asks for, as a signed address.
pub open spec fn requested_brk(brk: usize, size: i32) -> int {
    (brk as isize) + size
}

/// The page just past the heap that ends at `brk`.
pub open spec fn heap_end_page(brk: usize) -> usize {
    (page_ceil(brk as int) / PAGE_SIZE as int) as usize
}

/// Permission bits of heap pages: user-reachable, readable, writable.
pub const HEAP_PERMISSION: u8 = 0x16;

/// The pages that growing or shrinking the heap touches are as the heap needs
/// them: free where it grows, mapped where it shrinks.
pub open spec fn heap_move_fits(m: Map<usize, u8>, brk: usize, size: i32) -> bool {
    let nb = requested_brk(brk, size) as usize;
    &&& size >= 0 ==> range_unmapped(m, heap_end_page(brk), heap_end_page(nb))
    &&& size < 0 ==> range_mapped(m, heap_end_page(nb), heap_end_page(brk))
}

/// change data segment size: moves the end of the current process's heap by
/// `size` bytes, mapping the pages it grows over or unmapping those it gives
/// back, and returns where the end was; -1, with nothing changed, when the
/// heap would end below its start.
pub fn sys_sbrk(k: &mut TaskManager, size: i32) -> (r: isize)
    requires
        old(k).wf(),
        old(k).current is Some,
        isize::MIN <= requested_brk(old(k).task(old(k).cur()).program_brk, size) <= isize::MAX,
        requested_brk(old(k).task(old(k).cur()).program_brk, size) >= (old(k).task(
            old(k).cur(),
        ).heap_bottom as isize) ==> heap_move_fits(
            old(k).task(old(k).cur()).memory_set@,
            old(k).task(old(k).cur()).program_brk,
            size,
        ),
    ensures
        final(k).wf(),
        ({
            let t = old(k).task(old(k).cur());
            let nb = requested_brk(t.program_brk, size);
            let m = t.memory_set@;
            &&& nb < (t.heap_bottom as isize) ==> r == -1 && *final(k) == *old(k)
            &&& nb >= (t.heap_bottom as isize) ==> {
                &&& r == t.program_brk as isize
                &&& final(k).task(old(k).cur()).program_brk == nb as usize
                &&& size >= 0 ==> final(k).task(old(k).cur()).memory_set@ == with_range(
                    m,
                    heap_end_page(t.program_brk),
                    heap_end_page(nb as usize),
                    HEAP_PERMISSION,
                )
                &&& size < 0 ==> final(k).task(old(k).cur()).memory_set@ == without_range(
                    m,
                    heap_end_page(nb as usize),
                    heap_end_page(t.program_brk),
                )
                &&& only_current_memory_changed(*old(k), *final(k))
            }
        }),
{
    let cur = match k.current {
        Some(c) => c,
        None => 0,
    };
    let (old_break, heap_bottom) = match &k.tasks[cur] {
        Some(t) => (t.program_brk, t.heap_bottom),
        None => (0, 0),
    };
    let new_brk: isize = #[verifier::truncate] (old_break as isize) + size as isize;
    if new_brk < #[verifier::truncate] (heap_bottom as isize) {
        return -1;
    }
    let new_end: usize = #[verifier::truncate] (new_brk as usize);
    match &mut k.tasks[cur] {
        Some(t) => {
            if size < 0 {
                t.memory_set.munmap(ceil(new_end), ceil(old_break));
            } else {
                t.memory_set.mmap(ceil(old_break), ceil(new_end), HEAP_PERMISSION);
            }
            t.program_brk = new_end;
        },
        None => {},
    }
    let r = #[verifier::truncate] (old_break as isize);
    proof {
        lemma_wf_after_current_update(*old(k), *k);
    }
    r
}

/// The arguments of `mmap` are accepted: the start is page aligned, the port
/// has no bit above the lowest three and at least one of them.
pub open spec fn mmap_args_ok(start: usize, port: usize) -> bool {
    &&& start % PAGE_SIZE == 0
    &&& port & !0x7usize == 0
    &&& port & 0x7usize != 0
}

/// The pages `[first, last)` that `start` and `len` cover, `len` rounded up to
/// whole pages.
pub open spec fn first_page(start: usize) -> usize {
    (start / PAGE_SIZE) as usize
}

pub open spec fn end_page(start: usize, len: usize) -> usize {
    (page_ceil(start + page_ceil(len as int)) / PAGE_SIZE as int) as usize
}

/// mmap syscall: maps `len` bytes (rounded up to whole pages) at `start` in
/// the current process with the access rights of `port`.  -1, with nothing
/// changed, when the arguments are refused or a page of the range is mapped
/// already.
pub fn sys_mmap(k: &mut TaskManager, start: usize, len: usize, port: usize) -> (r: isize)
    requires
        old(k).wf(),
        old(k).current is Some,
        mmap_args_ok(start, port) ==> len + PAGE_SIZE - 1 <= usize::MAX && start + page_ceil(
            len as int,
        ) <= usize::MAX,
    ensures
        final(k).wf(),
        !mmap_args_ok(start, port) ==> r == -1 && *final(k) == *old(k),
        port & !0x7usize != 0 || port & 0x7usize == 0 || start % 0x1000 != 0 ==> r == -1
            && *final(k) == *old(k),
        r == 0 ==> 1 <= port <= 7 && start % 0x1000 == 0,
        (exists|v: usize|
            first_page(start) <= v < end_page(start, len) && #[trigger] old(k).task(
                old(k).cur(),
            ).memory_set@.contains_key(v)) ==> r == -1 && final(k).task(old(k).cur()).memory_set@
            == old(k).task(old(k).cur()).memory_set@,
        mmap_args_ok(start, port) ==> {
            let m = old(k).task(old(k).cur()).memory_set@;
            let s = first_page(start);
            let e = end_page(start, len);
            &&& range_unmapped(m, s, e) ==> r == 0 && final(k).task(old(k).cur()).memory_set@
                == with_range(m, s, e, port_permission(port))
            &&& !range_unmapped(m, s, e) ==> r == -1 && final(k).task(old(k).cur()).memory_set@
                == m
            &&& final(k).task(old(k).cur()).program_brk == old(k).task(old(k).cur()).program_brk
            &&& only_current_memory_changed(*old(k), *final(k))
        },
{
    if !aligned(start) {
        return -1;
    }
    if port & !0x7 != 0 || port & 0x7 == 0 {
        return -1;
    }
    let cur = match k.current {
        Some(c) => c,
        None => 0,
    };
    let end_va = start + align_up_pagesize(len);
    let permission = map_permission(port);
    let r = match &mut k.tasks[cur] {
        Some(t) => t.memory_set.mmap(floor(start), ceil(end_va), permission),
        None => -1,
    };
    proof {
        lemma_wf_after_current_update(*old(k), *k);
        assert(port & !0x7usize == 0 && port & 0x7usize != 0 ==> 1 <= port <= 7) by (bit_vector);
    }
    r
}

/// munmap syscall: unmaps `len` bytes (rounded up to whole pages) at `start`
/// in the current process.  -1, with nothing changed, when `start` is not
/// page aligned or a page of the range is not mapped.
pub fn sys_munmap(k: &mut TaskManager, start: usize, len: usize) -> (r: isize)
    requires
        old(k).wf(),
        old(k).current is Some,
        start % PAGE_SIZE == 0 ==> len + PAGE_SIZE - 1 <= usize::MAX && start + page_ceil(
            len as int,
        ) <= usize::MAX,
    ensures
        final(k).wf(),
        start % PAGE_SIZE != 0 ==> r == -1 && *final(k) == *old(k),
        (exists|v: usize|
            first_page(start) <= v < end_page(start, len) && !#[trigger] old(k).task(
                old(k).cur(),
            ).memory_set@.contains_key(v)) ==> r == -1 && final(k).task(old(k).cur()).memory_set@
            == old(k).task(old(k).cur()).memory_set@,
        r == 0 ==> forall|v: usize|
            first_page(start) <= v < end_page(start, len) ==> #[trigger] old(k).task(
                old(k).cur(),
            ).memory_set@.contains_key(v) && !final(k).task(old(k).cur()).memory_set@.contains_key(v),
        start % PAGE_SIZE == 0 ==> {
            let m = old(k).task(old(k).cur()).memory_set@;
            let s = first_page(start);
            let e = end_page(start, len);
            &&& range_mapped(m, s, e) ==> r == 0 && final(k).task(old(k).cur()).memory_set@
                == without_range(m, s, e)
            &&& !range_mapped(m, s, e) ==> r == -1 && final(k).task(old(k).cur()).memory_set@ == m
            &&& final(k).task(old(k).cur()).program_brk == old(k).task(old(k).cur()).program_brk
            &&& only_current_memory_changed(*old(k), *final(k))
        },
{
    if !aligned(start) {
        return -1;
    }
    let cur = match k.current {
        Some(c) => c,
        None => 0,
    };
    let end_va = start + align_up_pagesize(len);
    let r = match &mut k.tasks[cur] {
        Some(t) => t.memory_set.munmap(floor(start), ceil(end_va)),
        None => -1,
    };
    proof {
        lemma_wf_after_current_update(*old(k), *k);
    }
    r
}

/// set priority syscall: priorities are not supported, the call always
/// fails.
pub fn sys_set_priority(_prio: isize) -> (r: isize)
    ensures
        r == -1,
{
    -1
}

/// A moment, in seconds and microseconds.
pub struct TimeVal {
    pub sec: usize,
    pub usec: usize,
}

/// Task information
pub struct TaskInfo {
    /// Task status in it's life cycle
    pub status: TaskStatus,
    /// The numbers of syscall called by task, by syscall id
    pub syscall_times: Vec<u32>,
    /// Total running time of task
    pub time: usize,
}

/// get time with second and microsecond: the moment `us` microseconds
/// after boot, which the caller copies to the user's buffer (returning 0).
pub fn sys_get_time(us: usize) -> (tv: TimeVal)
    ensures
        tv.sec == us / 1_000_000,
        tv.usec == us % 1_000_000,
        tv.sec * 1_000_000 + tv.usec == us,
        tv.usec < 1_000_000,
{
    let tv = TimeVal { sec: us / 1_000_000, usec: us % 1_000_000 };
    assert(tv.sec * 1_000_000 + tv.usec == us) by (nonlinear_arith)
        requires
            tv.sec == us / 1_000_000,
            tv.usec == us % 1_000_000,
    ;
    tv
}

/// Counts one more call of `syscall_id` by the current process.
pub fn record_syscall(k: &mut TaskManager, syscall_id: usize)
    requires
        old(k).wf(),
        old(k).current is Some,
        syscall_id < MAX_SYSCALL_NUM,
        old(k).task(old(k).cur()).syscall_times@[syscall_id as int] < u32::MAX,
    ensures
        final(k).wf(),
        final(k).live(old(k).cur()),
        final(k).task(old(k).cur()).syscall_times@ == old(k).task(old(k).cur()).syscall_times@.update(
            syscall_id as int,
            (old(k).task(old(k).cur()).syscall_times@[syscall_id as int] + 1) as u32,
        ),
        final(k).task(old(k).cur()).children == old(k).task(old(k).cur()).children,
        final(k).task(old(k).cur()).status == old(k).task(old(k).cur()).status,
        final(k).task(old(k).cur()).exit_code == old(k).task(old(k).cur()).exit_code,
        final(k).task(old(k).cur()).memory_set@ == old(k).task(old(k).cur()).memory_set@,
        final(k).task(old(k).cur()).heap_bottom == old(k).task(old(k).cur()).heap_bottom,
        final(k).task(old(k).cur()).program_brk == old(k).task(old(k).cur()).program_brk,
        final(k).task(old(k).cur()).trap_a0 == old(k).task(old(k).cur()).trap_a0,
        final(k).task(old(k).cur()).program == old(k).task(old(k).cur()).program,
        final(k).task(old(k).cur()).start_time == old(k).task(old(k).cur()).start_time,
        final(k).tasks@.len() == old(k).tasks@.len(),
        forall|p: int| 0 <= p < old(k).tasks@.len() && p != old(k).cur() ==> #[trigger] final(k).tasks@[p] == old(k).tasks@[p],
        final(k).ready_queue == old(k).ready_queue,
        final(k).current == old(k).current,
{
    let cur = match k.current {
        Some(c) => c,
        None => 0,
    };
    match &mut k.tasks[cur] {
        Some(t) => t.syscall_times.count_inc(syscall_id),
        None => {},
    }
    proof {
        lemma_wf_after_current_update(*old(k), *k);
    }
}

/// What `sys_task_info` hands out on the current process at `cur_time` ms:
/// its status, its system call counters, and how long it has run (0 when it
/// never ran or the clock reads no later than its start).  The caller copies
/// it to the user's buffer and returns 0.
pub fn sys_task_info(k: &TaskManager, cur_time: usize) -> (info: TaskInfo)
    requires
        k.current is Some,
        k.live(k.cur()),
    ensures
        info.status == k.task(k.cur()).status,
        info.syscall_times@ == k.task(k.cur()).syscall_times@,
        info.time == match k.task(k.cur()).start_time {
            Some(st) => if cur_time > st { (cur_time - st) as usize } else { 0 },
            None => 0,
        },
{
    let cur = match k.current {
        Some(c) => c,
        None => 0,
    };
    match &k.tasks[cur] {
        Some(t) => {
            let counts = &t.syscall_times;
            proof {
                counts.lemma_len();
            }
            let mut syscall_times: Vec<u32> = Vec::new();
            let mut i: usize = 0;
            while i < MAX_SYSCALL_NUM
                invariant
                    i <= MAX_SYSCALL_NUM,
                    counts@.len() == MAX_SYSCALL_NUM,
                    syscall_times@ == counts@.subrange(0, i as int),
                decreases MAX_SYSCALL_NUM - i,
            {
                syscall_times.push(counts.count_get(i));
                assert(syscall_times@ =~= counts@.subrange(0, i + 1));
                i = i + 1;
            }
            assert(syscall_times@ =~= counts@);
            let time = match t.start_time {
                Some(st) => if cur_time > st { cur_time - st } else { 0 },
                None => 0,
            };
            TaskInfo { status: t.status, syscall_times, time }
        },
        None => TaskInfo { status: TaskStatus::Ready, syscall_times: Vec::new(), time: 0 },
    }
}

/// The bytes of `pieces`, one piece after the other.
pub open spec fn flatten(pieces: Seq<Seq<u8>>) -> Seq<u8>
    decreases pieces.len(),
{
    if pieces.len() == 0 {
        Seq::empty()
    } else {
        flatten(pieces.drop_last()) + pieces.last()
    }
}

/// The contents of a list of buffers.
pub open spec fn contents(v: Seq<Vec<u8>>) -> Seq<Seq<u8>> {
    Seq::new(v.len(), |i: int| v[i]@)
}

proof fn lemma_flatten_prefix(t: Seq<Seq<u8>>, j: int)
    requires
        0 <= j < t.len(),
    ensures
        flatten(t.take(j + 1)) == flatten(t.take(j)) + t[j],
{
    assert(t.take(j + 1).drop_last() =~= t.take(j));
}

proof fn lemma_flatten_prefix_len(t: Seq<Seq<u8>>, j: int)
    requires
        0 <= j <= t.len(),
    ensures
        flatten(t.take(j)).len() <= flatten(t).len(),
    decreases t.len() - j,
{
    if j < t.len() {
        lemma_flatten_prefix(t, j);
        lemma_flatten_prefix_len(t, j + 1);
    } else {
        assert(t.take(j) =~= t);
    }
}

/// Copy memory from kernel space to user space: fills `buffers`, the pieces
/// of the user's buffer in order (one per page it touches), with the first
/// bytes of `src`.
pub fn copy_to_user(src: &Vec<u8>, buffers: &mut Vec<Vec<u8>>)
    requires
        flatten(contents(old(buffers)@)).len() <= src@.len(),
    ensures
        final(buffers)@.len() == old(buffers)@.len(),
        forall|i: int| 0 <= i < old(buffers)@.len() ==> #[trigger] final(buffers)@[i]@.len() == old(buffers)@[i]@.len(),
        flatten(contents(final(buffers)@)) == src@.subrange(0, flatten(contents(old(buffers)@)).len() as int),
{
    let ghost t0 = contents(buffers@);
    let src_len = src.len();
    let mut start: usize = 0;
    let mut b: usize = 0;
    while b < buffers.len()
        invariant
            b <= buffers@.len() == old(buffers)@.len() == t0.len(),
            t0 == contents(old(buffers)@),
            flatten(t0).len() <= src@.len(),
            src@.len() == src_len,
            start == flatten(t0.take(b as int)).len(),
            flatten(contents(buffers@).take(b as int)) == src@.subrange(0, start as int),
            forall|i: int| 0 <= i < old(buffers)@.len() ==> #[trigger] buffers@[i]@.len() == old(buffers)@[i]@.len(),
            forall|i: int| b <= i < old(buffers)@.len() ==> #[trigger] buffers@[i] == old(buffers)@[i],
        decreases buffers@.len() - b,
    {
        proof {
            lemma_flatten_prefix(t0, b as int);
            lemma_flatten_prefix_len(t0, b + 1);
        }
        let n = buffers[b].len();
        assert(n == t0[b as int].len());
        assert(start + n <= src_len);
        let end = start + n;
        let mut piece: Vec<u8> = Vec::new();
        let mut j: usize = 0;
        while j < n
            invariant
                j <= n,
                end == start + n,
                end <= src@.len(),
                piece@ == src@.subrange(start as int, start + j),
            decreases n - j,
        {
            piece.push(src[start + j]);
            assert(piece@ =~= src@.subrange(start as int, start + j + 1));
            j = j + 1;
        }
        let ghost before = contents(buffers@);
        buffers.set(b, piece);
        proof {
            let after = contents(buffers@);
            assert(after.take(b as int) =~= before.take(b as int));
            lemma_flatten_prefix(after, b as int);
            assert(src@.subrange(0, end as int) =~= src@.subrange(0, start as int) + src@.subrange(start as int, end as int));
        }
        start = end;
        b = b + 1;
    }
    proof {
        assert(contents(buffers@).take(b as int) =~= contents(buffers@));
        assert(t0.take(b as int) =~= t0);
    }
}

/// Copy memory from user space to kernel space: fills `dst` with the bytes of
/// `buffers`, the pieces of the user's buffer in order (one per page it
/// touches), which together are as long as `dst`.
pub fn copy_from_user(dst: &mut Vec<u8>, buffers: &Vec<Vec<u8>>)
    requires
        flatten(contents(buffers@)).len() == old(dst)@.len(),
    ensures
        final(dst)@ == flatten(contents(buffers@)),
{
    let ghost t0 = contents(buffers@);
    let mut out: Vec<u8> = Vec::new();
    let mut b: usize = 0;
    while b < buffers.len()
        invariant
            b <= buffers@.len() == t0.len(),
            t0 == contents(buffers@),
            out@ == flatten(t0.take(b as int)),
        decreases buffers@.len() - b,
    {
        proof {
            lemma_flatten_prefix(t0, b as int);
        }
        let n = buffers[b].len();
        let ghost start = out@;
        let mut j: usize = 0;
        while j < n
            invariant
                j <= n,
                b < buffers@.len(),
                n == buffers@[b as int]@.len(),
                out@ == start + buffers@[b as int]@.subrange(0, j as int),
            decreases n - j,
        {
            out.push(buffers[b][j]);
            assert(out@ =~= start + buffers@[b as int]@.subrange(0, j + 1));
            j = j + 1;
        }
        assert(buffers@[b as int]@.subrange(0, n as int) =~= t0[b as int]);
        b = b + 1;
    }
    assert(t0.take(b as int) =~= t0);
    *dst = out;
}

} // verus!
