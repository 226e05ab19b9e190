//! System calls on the synchronisation objects of a process: mutexes,
//! semaphores (with the bookkeeping of the deadlock detector) and condition
//! variables.
//!
//! The calls that may put the calling thread to sleep return a
//! [`SyscallStep`]: the caller performs the sleep or the yield that it names,
//! and continues with the matching `*_continue` or `*_resume` function when the
//! thread runs again.
use vstd::prelude::*;
use crate::slots::{filled_at, find_free_slot, is_first_free};
use crate::banker::{fits_i64, is_safe, lemma_safe_same, row_cell, safety_check};
use crate::locks::{Condvar, LockStep, MutexKind, MutexState, Semaphore, occurrences, lemma_occurrences_bounded};

verus! {

/// Value returned to a thread whose request would deadlock.
pub const DEADLOCK: isize = -0xDEAD;

/// What a system call that may wait asks of the scheduler.
#[derive(PartialEq, Eq, Structural, Clone, Copy, Debug)]
pub enum SyscallStep {
    /// The call is finished and returns this value.
    Return(isize),
    /// The thread sleeps until another thread wakes it.
    Block,
    /// The thread gives up the processor and asks again.
    Yield,
}

/// The synchronisation state of one process.
pub struct ProcessInner {
    pub mutex_list: Vec<Option<MutexState>>,
    pub semaphore_list: Vec<Option<Semaphore>>,
    pub condvar_list: Vec<Option<Condvar>>,
    /// Whether deadlock detection is on.
    pub enable_dld: bool,
    /// Resources each semaphore was created with.
    pub sem_available: Vec<isize>,
    /// `sem_allocation[tid][sem_id]`: resources of `sem_id` held by `tid`.
    pub sem_allocation: Vec<Vec<isize>>,
    /// `sem_need[tid][sem_id]`: resources of `sem_id` that `tid` waits for.
    pub sem_need: Vec<Vec<isize>>,
    /// Resources of each semaphore that are left.
    pub sem_work: Vec<isize>,
    /// The thread id of each thread slot of the process (`None` where the
    /// slot is empty or the thread has no id any more).
    pub tasks: Vec<Option<usize>>,
}

/// The rows of a table of counters.
pub open spec fn table(v: Seq<Vec<isize>>) -> Seq<Seq<isize>> {
    Seq::new(v.len(), |i: int| v[i]@)
}

/// `s` lengthened with zeroes to at least `n` entries.
pub open spec fn pad(s: Seq<isize>, n: int) -> Seq<isize> {
    if s.len() < n {
        s + Seq::new((n - s.len()) as nat, |_i: int| 0isize)
    } else {
        s
    }
}

/// `t` grown with empty rows to hold row `r`, and row `r` grown with zeroes to
/// hold column `c`.
pub open spec fn pad_table(t: Seq<Seq<isize>>, r: int, c: int) -> Seq<Seq<isize>> {
    let t1 = if t.len() <= r {
        t + Seq::new((r + 1 - t.len()) as nat, |_i: int| Seq::<isize>::empty())
    } else {
        t
    };
    t1.update(r, pad(t1[r], c + 1))
}

/// The counter at row `r`, column `c`; zero where the table has none.
pub open spec fn cell(t: Seq<Seq<isize>>, r: int, c: int) -> isize {
    if 0 <= r < t.len() && 0 <= c < t[r].len() {
        t[r][c]
    } else {
        0
    }
}

pub open spec fn set_cell(t: Seq<Seq<isize>>, r: int, c: int, v: isize) -> Seq<Seq<isize>> {
    t.update(r, t[r].update(c, v))
}

/// What the rows `[0, k)` of `t` hold of column `c`.
pub open spec fn allocated(t: Seq<Seq<isize>>, c: int, k: int) -> int
    decreases k,
{
    if k <= 0 {
        0
    } else {
        allocated(t, c, k - 1) + cell(t, k - 1, c)
    }
}

/// What all threads hold of semaphore `c`.
pub open spec fn total_allocated(t: Seq<Seq<isize>>, c: int) -> int {
    allocated(t, c, t.len() as int)
}

/// For every semaphore, what is left and what the threads hold add up to
/// what it was created with.
pub open spec fn conserved(available: Seq<isize>, alloc: Seq<Seq<isize>>, work: Seq<isize>) -> bool {
    &&& available.len() == work.len()
    &&& forall|c: int| 0 <= c < work.len() ==> #[trigger] work[c] + total_allocated(alloc, c) == available[c]
}

/// The counter of thread slot `i` in table `t` (rows by thread id), or 0
/// where the slot holds no thread.
pub open spec fn slot_cell(tasks: Seq<Option<usize>>, t: Seq<Seq<isize>>, i: int, j: int) -> int {
    if 0 <= i < tasks.len() && tasks[i] is Some {
        cell(t, tasks[i]->0 as int, j) as int
    } else {
        0
    }
}

/// What thread slot `i` needs of semaphore `j` once the request of thread
/// `tid` for semaphore `s` is counted: what it waits for, and one more unit
/// of `s` for the thread that asks.
pub open spec fn request_cell(
    tasks: Seq<Option<usize>>,
    need: Seq<Seq<isize>>,
    tid: usize,
    s: int,
    i: int,
    j: int,
) -> int {
    slot_cell(tasks, need, i, j) + if 0 <= i < tasks.len() && tasks[i] == Some(tid) && j == s {
        1int
    } else {
        0int
    }
}

/// The banker's safety check over the semaphores of `p`, with the request of
/// thread `tid` for semaphore `sem_id` counted: starting from what is left of
/// each semaphore, every thread of the process can finish in turn.
pub open spec fn sem_request_safe(p: ProcessInner, tid: usize, sem_id: usize) -> bool {
    is_safe(
        p.tasks@.len(),
        p.sem_work@.len(),
        |i: int| 0 <= i < p.tasks@.len() && p.tasks@[i] is Some,
        |i: int, j: int| request_cell(p.tasks@, table(p.sem_need@), tid, sem_id as int, i, j),
        |i: int, j: int| slot_cell(p.tasks@, table(p.sem_allocation@), i, j),
        |j: int| p.sem_work@[j] as int,
    )
}

/// What thread slot `i` needs of mutex `m`, each mutex being one unit: once
/// for each time it waits on it, and once more for the request of thread
/// `tid` for mutex `mutex_id`.
pub open spec fn mutex_need(p: ProcessInner, tid: usize, mutex_id: usize, i: int, m: int) -> int {
    if 0 <= i < p.tasks@.len() && p.tasks@[i] is Some && p.has_mutex(m) {
        occurrences(p.mutex(m).wait_queue@, p.tasks@[i]->0) + if p.tasks@[i]->0 == tid && m
            == mutex_id {
            1int
        } else {
            0int
        }
    } else {
        0
    }
}

/// What thread slot `i` holds of mutex `m`: the one unit when it owns it.
pub open spec fn mutex_alloc(p: ProcessInner, i: int, m: int) -> int {
    if 0 <= i < p.tasks@.len() && p.tasks@[i] is Some && p.has_mutex(m) && p.mutex(m).owner
        == Some(p.tasks@[i]->0) {
        1
    } else {
        0
    }
}

/// What is left of mutex `m`: its unit when it is free.
pub open spec fn mutex_work(p: ProcessInner, m: int) -> int {
    if p.has_mutex(m) && !p.mutex(m).locked {
        1
    } else {
        0
    }
}

/// The banker's safety check over the mutexes, with the request of thread
/// `tid` for mutex `mutex_id` counted.
pub open spec fn mutex_request_safe(p: ProcessInner, tid: usize, mutex_id: usize) -> bool {
    is_safe(
        p.tasks@.len(),
        p.mutex_list@.len(),
        |i: int| 0 <= i < p.tasks@.len() && p.tasks@[i] is Some,
        |i: int, m: int| mutex_need(p, tid, mutex_id, i, m),
        |i: int, m: int| mutex_alloc(p, i, m),
        |m: int| mutex_work(p, m),
    )
}

impl ProcessInner {
    /// A process with no synchronisation objects and deadlock detection off.
    pub fn new() -> (p: Self)
        ensures
            p.mutex_list@.len() == 0,
            p.semaphore_list@.len() == 0,
            p.condvar_list@.len() == 0,
            !p.enable_dld,
            p.sem_available@.len() == 0,
            p.sem_allocation@.len() == 0,
            p.sem_need@.len() == 0,
            p.sem_work@.len() == 0,
            p.tasks@.len() == 0,
    {
        ProcessInner {
            mutex_list: Vec::new(),
            semaphore_list: Vec::new(),
            condvar_list: Vec::new(),
            enable_dld: false,
            sem_available: Vec::new(),
            sem_allocation: Vec::new(),
            sem_need: Vec::new(),
            sem_work: Vec::new(),
            tasks: Vec::new(),
        }
    }

    /// The fields that the deadlock detector keeps.
    pub open spec fn same_bank(self, other: Self) -> bool {
        &&& self.sem_available == other.sem_available
        &&& self.sem_allocation == other.sem_allocation
        &&& self.sem_need == other.sem_need
        &&& self.sem_work == other.sem_work
        &&& self.tasks == other.tasks
    }

    pub open spec fn mutex(self, i: int) -> MutexState {
        self.mutex_list@[i]->0
    }

    pub open spec fn semaphore(self, i: int) -> Semaphore {
        self.semaphore_list@[i]->0
    }

    pub open spec fn condvar(self, i: int) -> Condvar {
        self.condvar_list@[i]->0
    }

    /// Deadlock detection is on and refuses the request of `tid` for
    /// `sem_id`.
    pub open spec fn down_deadlocks(self, tid: usize, sem_id: usize) -> bool {
        self.enable_dld && !sem_request_safe(self, tid, sem_id)
    }

    pub open spec fn has_mutex(self, i: int) -> bool {
        0 <= i < self.mutex_list@.len() && self.mutex_list@[i] is Some
    }

    pub open spec fn has_semaphore(self, i: int) -> bool {
        0 <= i < self.semaphore_list@.len() && self.semaphore_list@[i] is Some
    }

    pub open spec fn has_condvar(self, i: int) -> bool {
        0 <= i < self.condvar_list@.len() && self.condvar_list@[i] is Some
    }
}

proof fn lemma_pad_table(t: Seq<Seq<isize>>, r: int, c: int)
    requires
        0 <= r,
        0 <= c,
    ensures
        pad_table(t, r, c).len() == if t.len() <= r { r + 1 } else { t.len() as int },
        c < pad_table(t, r, c)[r].len(),
        pad_table(t, r, c)[r][c] == cell(t, r, c),
        forall|i: int| 0 <= i < t.len() && i != r ==> #[trigger] pad_table(t, r, c)[i] == t[i],
{
}

proof fn lemma_table_index(v: Seq<Vec<isize>>, r: int)
    requires
        0 <= r < v.len(),
    ensures
        table(v).len() == v.len(),
        table(v)[r] == v[r]@,
{
}

/// Lengthens `v` with zeroes to at least `n` entries.
fn pad_vec(v: &mut Vec<isize>, n: usize)
    ensures
        final(v)@ == pad(old(v)@, n as int),
{
    if v.len() < n {
        v.resize(n, 0);
        assert(final(v)@ =~= pad(old(v)@, n as int));
    }
}

/// Grows `t` so that it holds row `r` and that row holds column `c`.
fn pad_cell(t: &mut Vec<Vec<isize>>, r: usize, c: usize)
    requires
        r < usize::MAX,
        c < usize::MAX,
    ensures
        table(final(t)@) == pad_table(table(old(t)@), r as int, c as int),
{
    let ghost t0 = table(t@);
    let ghost t1 = if t0.len() <= r {
        t0 + Seq::new((r + 1 - t0.len()) as nat, |_i: int| Seq::<isize>::empty())
    } else {
        t0
    };
    while t.len() < r + 1
        invariant
            r < usize::MAX,
            t0 == table(old(t)@),
            t@.len() <= r + 1 || t@.len() == old(t)@.len(),
            t@.len() >= old(t)@.len(),
            forall|i: int| 0 <= i < old(t)@.len() ==> #[trigger] t@[i]@ == old(t)@[i]@,
            forall|i: int| old(t)@.len() <= i < t@.len() ==> #[trigger] t@[i]@.len() == 0,
        decreases r + 1 - t@.len(),
    {
        t.push(Vec::new());
    }
    assert forall|i: int| old(t)@.len() <= i < t@.len() implies t@[i]@ =~= Seq::<isize>::empty() by {}
    assert(table(t@) =~= t1);
    let mut row: Vec<isize> = Vec::new();
    std::mem::swap(&mut row, &mut t[r]);
    pad_vec(&mut row, c + 1);
    t[r] = row;
    assert(table(t@) =~= t1.update(r as int, pad(t1[r as int], c + 1)));
}

/// mutex create syscall
pub fn sys_mutex_create(p: &mut ProcessInner, blocking: bool) -> (r: isize)
    requires
        old(p).mutex_list@.len() < isize::MAX,
    ensures
        is_first_free(old(p).mutex_list@, r as int),
        filled_at(old(p).mutex_list@, final(p).mutex_list@, r as int),
        final(p).mutex(r as int).kind == if blocking { MutexKind::Blocking } else { MutexKind::Spin },
        !final(p).mutex(r as int).locked,
        final(p).mutex(r as int).owner is None,
        final(p).mutex(r as int).wait_queue@.len() == 0,
        final(p).semaphore_list == old(p).semaphore_list,
        final(p).condvar_list == old(p).condvar_list,
        final(p).enable_dld == old(p).enable_dld,
        final(p).same_bank(*old(p)),
{
    let mutex = MutexState::new(blocking);
    let id = find_free_slot(&p.mutex_list);
    if id < p.mutex_list.len() {
        p.mutex_list.set(id, Some(mutex));
        id as isize
    } else {
        p.mutex_list.push(Some(mutex));
        p.mutex_list.len() as isize - 1
    }
}

/// What taking a mutex did to it and what the thread has to do next.
pub open spec fn lock_effect(m: MutexState, m2: MutexState, tid: usize, r: SyscallStep) -> bool {
    &&& m2.kind == m.kind
    &&& m2.locked
    &&& !m.locked ==> r == SyscallStep::Return(0) && m2.wait_queue@ == m.wait_queue@ && m2.owner
        == Some(tid)
    &&& m.locked && m.kind == MutexKind::Spin ==> r == SyscallStep::Yield && m2.wait_queue@
        == m.wait_queue@ && m2.owner == m.owner
    &&& m.locked && m.kind == MutexKind::Blocking ==> r == SyscallStep::Block && m2.wait_queue@
        == m.wait_queue@.push(tid) && m2.owner == m.owner
}

/// Thread `tid` takes mutex `mutex_id`, with no deadlock check.  This is
/// also the step a spinning thread repeats after it has yielded, and the one
/// a thread woken from a condition variable takes.
pub fn mutex_lock_continue(p: &mut ProcessInner, tid: usize, mutex_id: usize) -> (r: SyscallStep)
    requires
        old(p).has_mutex(mutex_id as int),
    ensures
        filled_at(old(p).mutex_list@, final(p).mutex_list@, mutex_id as int),
        lock_effect(old(p).mutex(mutex_id as int), final(p).mutex(mutex_id as int), tid, r),
        final(p).semaphore_list == old(p).semaphore_list,
        final(p).condvar_list == old(p).condvar_list,
        final(p).enable_dld == old(p).enable_dld,
        final(p).same_bank(*old(p)),
{
    match &mut p.mutex_list[mutex_id] {
        Some(m) => match m.lock(tid) {
            LockStep::Acquired => SyscallStep::Return(0),
            LockStep::Wait => SyscallStep::Block,
            LockStep::Retry => SyscallStep::Yield,
        },
        None => SyscallStep::Return(0),
    }
}

/// Runs the banker's safety check over the mutexes of `p` with the request
/// of `tid` for `mutex_id` counted.
fn mutex_safety_check(p: &ProcessInner, tid: usize, mutex_id: usize) -> (safe: bool)
    ensures
        safe == mutex_request_safe(*p, tid, mutex_id),
{
    let live = live_slots(&p.tasks);
    let nm = p.mutex_list.len();
    let mut need: Vec<Vec<i128>> = Vec::new();
    let mut alloc: Vec<Vec<i128>> = Vec::new();
    let mut i: usize = 0;
    while i < p.tasks.len()
        invariant
            i <= p.tasks@.len(),
            nm == p.mutex_list@.len(),
            need@.len() == i,
            alloc@.len() == i,
            forall|k: int, m: int|
                0 <= k < i && 0 <= m < nm ==> #[trigger] row_cell(need@, k, m) == mutex_need(
                    *p,
                    tid,
                    mutex_id,
                    k,
                    m,
                ),
            forall|k: int, m: int|
                0 <= k < i && 0 <= m < nm ==> #[trigger] row_cell(alloc@, k, m) == mutex_alloc(*p, k, m),
            forall|k: int, m: int|
                0 <= k < alloc@.len() && 0 <= m < alloc@[k]@.len() ==> 0 <= #[trigger] alloc@[k]@[m] <= 1,
        decreases p.tasks@.len() - i,
    {
        let mut nrow: Vec<i128> = Vec::new();
        let mut arow: Vec<i128> = Vec::new();
        let mut m: usize = 0;
        while m < nm
            invariant
                i < p.tasks@.len(),
                m <= nm,
                nm == p.mutex_list@.len(),
                nrow@.len() == m,
                arow@.len() == m,
                forall|q: int| 0 <= q < m ==> #[trigger] nrow@[q] == mutex_need(*p, tid, mutex_id, i as int, q),
                forall|q: int| 0 <= q < m ==> #[trigger] arow@[q] == mutex_alloc(*p, i as int, q),
                forall|q: int| 0 <= q < m ==> 0 <= #[trigger] arow@[q] <= 1,
            decreases nm - m,
        {
            let (n, a): (i128, i128) = match (p.tasks[i], &p.mutex_list[m]) {
                (Some(t), Some(mx)) => {
                    let w = mx.waits(t) as i128;
                    let extra: i128 = if t == tid && m == mutex_id { 1 } else { 0 };
                    let own: i128 = match mx.owner {
                        Some(o) => if o == t { 1 } else { 0 },
                        None => 0,
                    };
                    (w + extra, own)
                },
                _ => (0, 0),
            };
            nrow.push(n);
            arow.push(a);
            m = m + 1;
        }
        let ghost nb = need@;
        let ghost ab = alloc@;
        need.push(nrow);
        alloc.push(arow);
        assert forall|k: int, q: int| 0 <= k < i + 1 && 0 <= q < nm implies #[trigger] row_cell(need@, k, q)
            == mutex_need(*p, tid, mutex_id, k, q) by {
            if k < i {
                assert(row_cell(need@, k, q) == row_cell(nb, k, q));
            }
        }
        assert forall|k: int, q: int| 0 <= k < i + 1 && 0 <= q < nm implies #[trigger] row_cell(alloc@, k, q)
            == mutex_alloc(*p, k, q) by {
            if k < i {
                assert(row_cell(alloc@, k, q) == row_cell(ab, k, q));
            }
        }
        i = i + 1;
    }
    let mut work: Vec<i128> = Vec::new();
    let mut m: usize = 0;
    while m < nm
        invariant
            m <= nm,
            nm == p.mutex_list@.len(),
            work@.len() == m,
            forall|q: int| 0 <= q < m ==> #[trigger] work@[q] == mutex_work(*p, q),
        decreases nm - m,
    {
        let w: i128 = match &p.mutex_list[m] {
            Some(mx) => if mx.locked { 0 } else { 1 },
            None => 0,
        };
        work.push(w);
        m = m + 1;
    }
    assert(fits_i64(alloc@, work@));
    let safe = safety_check(&live, &need, &alloc, &work);
    proof {
        let tasks = p.tasks@;
        let pp = *p;
        lemma_safe_same(
            tasks.len(),
            work@.len(),
            |i: int| live@[i],
            |i: int, r: int| row_cell(need@, i, r),
            |i: int, r: int| row_cell(alloc@, i, r),
            |r: int| work@[r] as int,
            |i: int| 0 <= i < tasks.len() && tasks[i] is Some,
            |i: int, m: int| mutex_need(pp, tid, mutex_id, i, m),
            |i: int, m: int| mutex_alloc(pp, i, m),
            |m: int| mutex_work(pp, m),
        );
    }
    safe
}

/// mutex lock syscall, made by thread `tid`.  With deadlock detection on,
/// the request is refused (and nothing changes) when the banker's safety
/// check over the mutexes fails with it counted.
pub fn sys_mutex_lock(p: &mut ProcessInner, tid: usize, mutex_id: usize) -> (r: SyscallStep)
    requires
        old(p).has_mutex(mutex_id as int),
    ensures
        old(p).enable_dld && !mutex_request_safe(*old(p), tid, mutex_id) ==> r == SyscallStep::Return(
            DEADLOCK,
        ) && *final(p) == *old(p),
        !(old(p).enable_dld && !mutex_request_safe(*old(p), tid, mutex_id)) ==> {
            &&& filled_at(old(p).mutex_list@, final(p).mutex_list@, mutex_id as int)
            &&& lock_effect(old(p).mutex(mutex_id as int), final(p).mutex(mutex_id as int), tid, r)
            &&& final(p).semaphore_list == old(p).semaphore_list
            &&& final(p).condvar_list == old(p).condvar_list
            &&& final(p).enable_dld == old(p).enable_dld
            &&& final(p).same_bank(*old(p))
        },
{
    if p.enable_dld && !mutex_safety_check(p, tid, mutex_id) {
        return SyscallStep::Return(DEADLOCK);
    }
    mutex_lock_continue(p, tid, mutex_id)
}

/// What releasing a mutex did to it, and whom it woke.
pub open spec fn unlock_effect(m: MutexState, m2: MutexState, woken: Option<usize>) -> bool {
    &&& m2.kind == m.kind
    &&& m.kind == MutexKind::Spin ==> !m2.locked && m2.owner is None && woken is None
        && m2.wait_queue@ == m.wait_queue@
    &&& m.kind == MutexKind::Blocking && m.wait_queue@.len() > 0 ==> m2.locked && woken == Some(
        m.wait_queue@[0],
    ) && m2.owner == woken && m2.wait_queue@ == m.wait_queue@.drop_first()
    &&& m.kind == MutexKind::Blocking && m.wait_queue@.len() == 0 ==> !m2.locked && m2.owner is None
        && woken is None && m2.wait_queue@ == m.wait_queue@
}

/// mutex unlock syscall; also names the thread that now holds the mutex and
/// has to be woken.
pub fn sys_mutex_unlock(p: &mut ProcessInner, mutex_id: usize) -> (r: (isize, Option<usize>))
    requires
        old(p).has_mutex(mutex_id as int),
        old(p).mutex(mutex_id as int).kind == MutexKind::Blocking ==> old(p).mutex(
            mutex_id as int,
        ).locked,
    ensures
        r.0 == 0,
        filled_at(old(p).mutex_list@, final(p).mutex_list@, mutex_id as int),
        unlock_effect(old(p).mutex(mutex_id as int), final(p).mutex(mutex_id as int), r.1),
        final(p).semaphore_list == old(p).semaphore_list,
        final(p).condvar_list == old(p).condvar_list,
        final(p).enable_dld == old(p).enable_dld,
        final(p).same_bank(*old(p)),
{
    let woken = match &mut p.mutex_list[mutex_id] {
        Some(m) => m.unlock(),
        None => None,
    };
    (0, woken)
}

/// semaphore create syscall
pub fn sys_semaphore_create(p: &mut ProcessInner, res_count: usize) -> (r: isize)
    requires
        old(p).semaphore_list@.len() < isize::MAX,
    ensures
        is_first_free(old(p).semaphore_list@, r as int),
        filled_at(old(p).semaphore_list@, final(p).semaphore_list@, r as int),
        final(p).semaphore(r as int).count == res_count as isize,
        final(p).semaphore(r as int).wait_queue@.len() == 0,
        final(p).sem_available@ == pad(old(p).sem_available@, r + 1).update(
            r as int,
            res_count as isize,
        ),
        final(p).sem_work@ == pad(old(p).sem_work@, r + 1).update(r as int, res_count as isize),
        final(p).mutex_list == old(p).mutex_list,
        final(p).condvar_list == old(p).condvar_list,
        final(p).enable_dld == old(p).enable_dld,
        final(p).sem_allocation == old(p).sem_allocation,
        final(p).sem_need == old(p).sem_need,
        final(p).tasks == old(p).tasks,
{
    let id = find_free_slot(&p.semaphore_list);
    if id < p.semaphore_list.len() {
        p.semaphore_list.set(id, Some(Semaphore::new(res_count)));
    } else {
        p.semaphore_list.push(Some(Semaphore::new(res_count)));
    }
    pad_vec(&mut p.sem_available, id + 1);
    p.sem_available.set(id, res_count as isize);
    pad_vec(&mut p.sem_work, id + 1);
    p.sem_work.set(id, res_count as isize);
    id as isize
}

/// What giving one resource back did to a semaphore, and whom it woke.
pub open spec fn up_effect(s: Semaphore, s2: Semaphore, woken: Option<usize>) -> bool {
    &&& s2.count == s.count + 1
    &&& s2.count <= 0 && s.wait_queue@.len() > 0 ==> woken == Some(s.wait_queue@[0])
        && s2.wait_queue@ == s.wait_queue@.drop_first()
    &&& !(s2.count <= 0 && s.wait_queue@.len() > 0) ==> woken is None && s2.wait_queue@
        == s.wait_queue@
}

/// semaphore up syscall, made by thread `tid`; also names the thread that
/// is woken.
pub fn sys_semaphore_up(p: &mut ProcessInner, tid: usize, sem_id: usize) -> (r: (isize, Option<usize>))
    requires
        old(p).has_semaphore(sem_id as int),
        sem_id < old(p).sem_work@.len(),
        tid < usize::MAX,
        old(p).semaphore(sem_id as int).count < isize::MAX,
        old(p).semaphore(sem_id as int).wait_queue@.len() <= isize::MAX,
        old(p).sem_work@[sem_id as int] < isize::MAX,
        cell(table(old(p).sem_allocation@), tid as int, sem_id as int) > isize::MIN,
    ensures
        r.0 == 0,
        filled_at(old(p).semaphore_list@, final(p).semaphore_list@, sem_id as int),
        up_effect(old(p).semaphore(sem_id as int), final(p).semaphore(sem_id as int), r.1),
        old(p).semaphore(sem_id as int).count < 0 && old(p).semaphore(sem_id as int).wait_queue@.len()
            > 0 ==> r.1 == Some(old(p).semaphore(sem_id as int).wait_queue@[0]) && final(p).semaphore(
            sem_id as int,
        ).wait_queue@ == old(p).semaphore(sem_id as int).wait_queue@.subrange(
            1,
            old(p).semaphore(sem_id as int).wait_queue@.len() as int,
        ),
        old(p).semaphore(sem_id as int).count >= 0 ==> r.1 is None && final(p).semaphore(
            sem_id as int,
        ).wait_queue@ == old(p).semaphore(sem_id as int).wait_queue@,
        table(final(p).sem_allocation@) == set_cell(
            pad_table(table(old(p).sem_allocation@), tid as int, sem_id as int),
            tid as int,
            sem_id as int,
            (cell(table(old(p).sem_allocation@), tid as int, sem_id as int) - 1) as isize,
        ),
        final(p).sem_work@ == old(p).sem_work@.update(
            sem_id as int,
            (old(p).sem_work@[sem_id as int] + 1) as isize,
        ),
        table(final(p).sem_need@) == set_cell(
            pad_table(table(old(p).sem_need@), tid as int, sem_id as int),
            tid as int,
            sem_id as int,
            occurrences(final(p).semaphore(sem_id as int).wait_queue@, tid) as isize,
        ),
        final(p).mutex_list == old(p).mutex_list,
        final(p).condvar_list == old(p).condvar_list,
        final(p).enable_dld == old(p).enable_dld,
        final(p).sem_available == old(p).sem_available,
        final(p).tasks == old(p).tasks,
{
    let slots = p.semaphore_list.len();
    assert(sem_id < slots);
    let (woken, nr_need) = match &mut p.semaphore_list[sem_id] {
        Some(sem) => {
            let w = sem.up();
            let n = sem.get_need(tid);
            (w, n)
        },
        None => (None, 0),
    };
    let ghost a0 = table(p.sem_allocation@);
    let ghost n0 = table(p.sem_need@);
    pad_cell(&mut p.sem_allocation, tid, sem_id);
    pad_cell(&mut p.sem_need, tid, sem_id);
    proof {
        lemma_pad_table(a0, tid as int, sem_id as int);
        lemma_pad_table(n0, tid as int, sem_id as int);
        lemma_table_index(p.sem_allocation@, tid as int);
        lemma_table_index(p.sem_need@, tid as int);
    }
    p.sem_allocation[tid][sem_id] = p.sem_allocation[tid][sem_id] - 1;
    p.sem_work[sem_id] = p.sem_work[sem_id] + 1;
    p.sem_need[tid][sem_id] = nr_need;
    assert(table(p.sem_allocation@) =~= set_cell(
        pad_table(a0, tid as int, sem_id as int),
        tid as int,
        sem_id as int,
        (cell(a0, tid as int, sem_id as int) - 1) as isize,
    ));
    assert(table(p.sem_need@) =~= set_cell(
        pad_table(n0, tid as int, sem_id as int),
        tid as int,
        sem_id as int,
        nr_need,
    ));
    (0, woken)
}

/// Which thread slots hold a thread.
fn live_slots(tasks: &Vec<Option<usize>>) -> (live: Vec<bool>)
    ensures
        live@.len() == tasks@.len(),
        forall|i: int| 0 <= i < tasks@.len() ==> #[trigger] live@[i] == tasks@[i] is Some,
{
    let mut live: Vec<bool> = Vec::new();
    let mut i: usize = 0;
    while i < tasks.len()
        invariant
            i <= tasks@.len(),
            live@.len() == i,
            forall|k: int| 0 <= k < i ==> #[trigger] live@[k] == tasks@[k] is Some,
        decreases tasks@.len() - i,
    {
        live.push(tasks[i].is_some());
        i = i + 1;
    }
    live
}

/// The counters of `v`, widened.
fn widen(v: &Vec<isize>) -> (w: Vec<i128>)
    ensures
        w@.len() == v@.len(),
        forall|j: int| 0 <= j < v@.len() ==> #[trigger] w@[j] == v@[j] as i128,
{
    let mut w: Vec<i128> = Vec::new();
    let mut j: usize = 0;
    while j < v.len()
        invariant
            j <= v@.len(),
            w@.len() == j,
            forall|k: int| 0 <= k < j ==> #[trigger] w@[k] == v@[k] as i128,
        decreases v@.len() - j,
    {
        w.push(v[j] as i128);
        j = j + 1;
    }
    w
}

/// Entry `j` of `r`; zero past its end.
pub open spec fn entry(r: Seq<i128>, j: int) -> int {
    if 0 <= j < r.len() {
        r[j] as int
    } else {
        0
    }
}

/// `row` with one more unit at column `col`, lengthened with zeroes where it
/// is shorter.
fn bump_row(row: Vec<i128>, col: usize) -> (r: Vec<i128>)
    requires
        forall|j: int| 0 <= j < row@.len() ==> i64::MIN <= #[trigger] row@[j] <= i64::MAX,
    ensures
        forall|j: int| 0 <= j ==> #[trigger] entry(r@, j) == entry(row@, j) + if j == col {
            1int
        } else {
            0int
        },
        forall|j: int| 0 <= j < r@.len() ==> i64::MIN <= #[trigger] r@[j] <= i64::MAX + 1,
{
    let mut r = row;
    while r.len() <= col
        invariant
            row@.len() <= r@.len(),
            r@.len() <= col + 1 || r@.len() == row@.len(),
            r@.subrange(0, row@.len() as int) == row@,
            forall|j: int| row@.len() <= j < r@.len() ==> #[trigger] r@[j] == 0,
            forall|j: int| 0 <= j < row@.len() ==> i64::MIN <= #[trigger] row@[j] <= i64::MAX,
        decreases col + 1 - r@.len(),
    {
        r.push(0);
    }
    assert forall|j: int| 0 <= j < r@.len() implies i64::MIN <= #[trigger] r@[j] <= i64::MAX by {
        if j < row@.len() {
            assert(r@[j] == r@.subrange(0, row@.len() as int)[j]);
        }
    }
    let ghost r0 = r@;
    let v = r[col] + 1;
    r.set(col, v);
    assert forall|j: int| 0 <= j implies #[trigger] entry(r@, j) == entry(row@, j) + if j == col {
        1int
    } else {
        0int
    } by {
        if j < row@.len() {
            assert(r0[j] == r0.subrange(0, row@.len() as int)[j]);
        }
    }
    r
}

/// One more unit at column `col` of the slot of thread `tid`, when `bump`
/// names them as `Some((tid, col))`.
pub open spec fn bumped(tasks: Seq<Option<usize>>, bump: Option<(usize, usize)>, i: int, j: int) -> int {
    match bump {
        Some((tid, col)) => if 0 <= i < tasks.len() && tasks[i] == Some(tid) && j == col {
            1int
        } else {
            0int
        },
        None => 0,
    }
}

/// The rows of `t` (by thread id) laid out by thread slot, with the extra
/// unit that `bump` names.
fn slot_rows(tasks: &Vec<Option<usize>>, t: &Vec<Vec<isize>>, bump: Option<(usize, usize)>) -> (rows: Vec<Vec<i128>>)
    ensures
        rows@.len() == tasks@.len(),
        forall|i: int, j: int|
            0 <= i < tasks@.len() && 0 <= j ==> #[trigger] row_cell(rows@, i, j) == slot_cell(
                tasks@,
                table(t@),
                i,
                j,
            ) + bumped(tasks@, bump, i, j),
        bump is None ==> forall|i: int, j: int|
            0 <= i < rows@.len() && 0 <= j < rows@[i]@.len() ==> i64::MIN <= #[trigger] rows@[i]@[j]
                <= i64::MAX,
{
    let mut rows: Vec<Vec<i128>> = Vec::new();
    let mut i: usize = 0;
    while i < tasks.len()
        invariant
            i <= tasks@.len(),
            rows@.len() == i,
            forall|k: int, j: int|
                0 <= k < i && 0 <= j ==> #[trigger] row_cell(rows@, k, j) == slot_cell(
                    tasks@,
                    table(t@),
                    k,
                    j,
                ) + bumped(tasks@, bump, k, j),
            bump is None ==> forall|k: int, j: int|
                0 <= k < rows@.len() && 0 <= j < rows@[k]@.len() ==> i64::MIN <= #[trigger] rows@[k]@[j]
                    <= i64::MAX,
        decreases tasks@.len() - i,
    {
        let row = match tasks[i] {
            Some(tid) => {
                if tid < t.len() {
                    proof {
                        lemma_table_index(t@, tid as int);
                    }
                    widen(&t[tid])
                } else {
                    Vec::new()
                }
            },
            None => Vec::new(),
        };
        assert forall|j: int| 0 <= j implies #[trigger] entry(row@, j) == slot_cell(tasks@, table(t@), i as int, j) by {
            if let Some(x) = tasks@[i as int] {
                if x < t@.len() {
                    lemma_table_index(t@, x as int);
                }
            }
        }
        let row = match bump {
            Some((tid, col)) => {
                if tasks[i] == Some(tid) {
                    bump_row(row, col)
                } else {
                    row
                }
            },
            None => row,
        };
        let ghost before = rows@;
        rows.push(row);
        assert forall|k: int, j: int| 0 <= k < i + 1 && 0 <= j implies #[trigger] row_cell(rows@, k, j)
            == slot_cell(tasks@, table(t@), k, j) + bumped(tasks@, bump, k, j) by {
            if k < i {
                assert(row_cell(rows@, k, j) == row_cell(before, k, j));
            } else {
                assert(row_cell(rows@, k, j) == entry(row@, j));
            }
        }
        i = i + 1;
    }
    rows
}

/// Deadlock check made when thread `cur_tid` asks for semaphore `sem_id`:
/// the banker's safety check on the tables of `p`, with the unit asked for
/// counted in what `cur_tid` needs.
pub fn sem_try_down(p: &ProcessInner, cur_tid: usize, sem_id: usize) -> (r: bool)
    ensures
        r == sem_request_safe(*p, cur_tid, sem_id),
{
    let live = live_slots(&p.tasks);
    let need = slot_rows(&p.tasks, &p.sem_need, Some((cur_tid, sem_id)));
    let alloc = slot_rows(&p.tasks, &p.sem_allocation, None);
    let work = widen(&p.sem_work);
    let safe = safety_check(&live, &need, &alloc, &work);
    proof {
        let tasks = p.tasks@;
        lemma_safe_same(
            tasks.len(),
            work@.len(),
            |i: int| live@[i],
            |i: int, r: int| row_cell(need@, i, r),
            |i: int, r: int| row_cell(alloc@, i, r),
            |r: int| work@[r] as int,
            |i: int| 0 <= i < tasks.len() && tasks[i] is Some,
            |i: int, j: int| request_cell(tasks, table(p.sem_need@), cur_tid, sem_id as int, i, j),
            |i: int, j: int| slot_cell(tasks, table(p.sem_allocation@), i, j),
            |j: int| p.sem_work@[j] as int,
        );
    }
    safe
}

/// semaphore down syscall, made by thread `tid`.  With deadlock detection
/// on, a request that fails the banker's safety check is refused with
/// `DEADLOCK` and changes nothing.  Otherwise the thread takes a resource
/// (`Return(0)`) or, when none is left, sleeps in the semaphore's queue
/// (`Block`) and finishes with `semaphore_down_resume` once woken; either
/// way what it waits for is recorded in the need table.
pub fn sys_semaphore_down(p: &mut ProcessInner, tid: usize, sem_id: usize) -> (r: SyscallStep)
    requires
        old(p).has_semaphore(sem_id as int),
        sem_id < old(p).sem_work@.len(),
        tid < usize::MAX,
        old(p).semaphore(sem_id as int).count > isize::MIN,
        old(p).semaphore(sem_id as int).wait_queue@.len() < isize::MAX,
        old(p).sem_work@[sem_id as int] > isize::MIN,
        cell(table(old(p).sem_allocation@), tid as int, sem_id as int) < isize::MAX,
    ensures
        old(p).down_deadlocks(tid, sem_id) ==> r == SyscallStep::Return(DEADLOCK) && *final(p)
            == *old(p),
        !old(p).down_deadlocks(tid, sem_id) ==> {
            &&& final(p).mutex_list == old(p).mutex_list
            &&& final(p).condvar_list == old(p).condvar_list
            &&& final(p).enable_dld == old(p).enable_dld
            &&& final(p).sem_available == old(p).sem_available
            &&& final(p).tasks == old(p).tasks
            &&& filled_at(old(p).semaphore_list@, final(p).semaphore_list@, sem_id as int)
            &&& final(p).semaphore(sem_id as int).count == old(p).semaphore(sem_id as int).count - 1
            &&& table(final(p).sem_need@) == set_cell(
                pad_table(table(old(p).sem_need@), tid as int, sem_id as int),
                tid as int,
                sem_id as int,
                occurrences(final(p).semaphore(sem_id as int).wait_queue@, tid) as isize,
            )
            &&& old(p).semaphore(sem_id as int).count <= 0 ==> {
                &&& r == SyscallStep::Block
                &&& final(p).semaphore(sem_id as int).wait_queue@ == old(p).semaphore(
                    sem_id as int,
                ).wait_queue@.push(tid)
                &&& table(final(p).sem_allocation@) == pad_table(
                    table(old(p).sem_allocation@),
                    tid as int,
                    sem_id as int,
                )
                &&& final(p).sem_work@ == old(p).sem_work@
            }
            &&& old(p).semaphore(sem_id as int).count > 0 ==> {
                &&& r == SyscallStep::Return(0)
                &&& final(p).semaphore(sem_id as int).wait_queue@ == old(p).semaphore(
                    sem_id as int,
                ).wait_queue@
                &&& table(final(p).sem_allocation@) == set_cell(
                    pad_table(table(old(p).sem_allocation@), tid as int, sem_id as int),
                    tid as int,
                    sem_id as int,
                    (cell(table(old(p).sem_allocation@), tid as int, sem_id as int) + 1) as isize,
                )
                &&& final(p).sem_work@ == old(p).sem_work@.update(
                    sem_id as int,
                    (old(p).sem_work@[sem_id as int] - 1) as isize,
                )
            }
        },
{
    if p.enable_dld && !sem_try_down(p, tid, sem_id) {
        return SyscallStep::Return(DEADLOCK);
    }
    let slots = p.semaphore_list.len();
    assert(sem_id < slots);
    let ghost a0 = table(p.sem_allocation@);
    let ghost n0 = table(p.sem_need@);
    let ghost sem0 = p.semaphore(sem_id as int);
    pad_cell(&mut p.sem_allocation, tid, sem_id);
    pad_cell(&mut p.sem_need, tid, sem_id);
    proof {
        lemma_pad_table(a0, tid as int, sem_id as int);
        lemma_pad_table(n0, tid as int, sem_id as int);
        lemma_table_index(p.sem_allocation@, tid as int);
        lemma_table_index(p.sem_need@, tid as int);
    }
    let ghost a1 = table(p.sem_allocation@);
    let ghost n1 = table(p.sem_need@);
    let blocked = match &mut p.semaphore_list[sem_id] {
        Some(sem) => sem.down(tid),
        None => false,
    };
    if !blocked {
        p.sem_allocation[tid][sem_id] = p.sem_allocation[tid][sem_id] + 1;
        p.sem_work[sem_id] = p.sem_work[sem_id] - 1;
        assert(table(p.sem_allocation@) =~= set_cell(
            a1,
            tid as int,
            sem_id as int,
            (cell(a0, tid as int, sem_id as int) + 1) as isize,
        ));
    }
    proof {
        lemma_occurrences_bounded(p.semaphore(sem_id as int).wait_queue@, tid);
    }
    let n = match &p.semaphore_list[sem_id] {
        Some(sem) => sem.get_need(tid),
        None => 0,
    };
    let ghost before = p.sem_need@;
    p.sem_need[tid][sem_id] = n;
    proof {
        lemma_table_index(before, tid as int);
        lemma_table_index(p.sem_need@, tid as int);
    }
    assert(table(p.sem_need@)[tid as int] =~= n1[tid as int].update(sem_id as int, n));
    assert(table(p.sem_need@) =~= set_cell(n1, tid as int, sem_id as int, n));
    if blocked {
        SyscallStep::Block
    } else {
        SyscallStep::Return(0)
    }
}

/// Finishes `sys_semaphore_down` for thread `tid` after `sys_semaphore_up`
/// woke it: the thread now holds the resource it waited for, and the need
/// table records what it still waits for.
pub fn semaphore_down_resume(p: &mut ProcessInner, tid: usize, sem_id: usize) -> (r: isize)
    requires
        old(p).has_semaphore(sem_id as int),
        sem_id < old(p).sem_work@.len(),
        tid < usize::MAX,
        old(p).semaphore(sem_id as int).wait_queue@.len() <= isize::MAX,
        old(p).sem_work@[sem_id as int] > isize::MIN,
        cell(table(old(p).sem_allocation@), tid as int, sem_id as int) < isize::MAX,
    ensures
        r == 0,
        table(final(p).sem_allocation@) == set_cell(
            pad_table(table(old(p).sem_allocation@), tid as int, sem_id as int),
            tid as int,
            sem_id as int,
            (cell(table(old(p).sem_allocation@), tid as int, sem_id as int) + 1) as isize,
        ),
        final(p).sem_work@ == old(p).sem_work@.update(
            sem_id as int,
            (old(p).sem_work@[sem_id as int] - 1) as isize,
        ),
        table(final(p).sem_need@) == set_cell(
            pad_table(table(old(p).sem_need@), tid as int, sem_id as int),
            tid as int,
            sem_id as int,
            occurrences(old(p).semaphore(sem_id as int).wait_queue@, tid) as isize,
        ),
        final(p).mutex_list == old(p).mutex_list,
        final(p).semaphore_list == old(p).semaphore_list,
        final(p).condvar_list == old(p).condvar_list,
        final(p).enable_dld == old(p).enable_dld,
        final(p).sem_available == old(p).sem_available,
        final(p).tasks == old(p).tasks,
{
    let slots = p.semaphore_list.len();
    assert(sem_id < slots);
    let ghost a0 = table(p.sem_allocation@);
    let ghost n0 = table(p.sem_need@);
    pad_cell(&mut p.sem_allocation, tid, sem_id);
    pad_cell(&mut p.sem_need, tid, sem_id);
    proof {
        lemma_pad_table(a0, tid as int, sem_id as int);
        lemma_pad_table(n0, tid as int, sem_id as int);
        lemma_table_index(p.sem_allocation@, tid as int);
        lemma_table_index(p.sem_need@, tid as int);
    }
    let ghost a1 = table(p.sem_allocation@);
    let ghost n1 = table(p.sem_need@);
    p.sem_allocation[tid][sem_id] = p.sem_allocation[tid][sem_id] + 1;
    p.sem_work[sem_id] = p.sem_work[sem_id] - 1;
    assert(table(p.sem_allocation@) =~= set_cell(
        a1,
        tid as int,
        sem_id as int,
        (cell(a0, tid as int, sem_id as int) + 1) as isize,
    ));
    let n = match &p.semaphore_list[sem_id] {
        Some(sem) => sem.get_need(tid),
        None => 0,
    };
    let ghost before = p.sem_need@;
    p.sem_need[tid][sem_id] = n;
    proof {
        lemma_table_index(before, tid as int);
        lemma_table_index(p.sem_need@, tid as int);
    }
    assert(table(p.sem_need@)[tid as int] =~= n1[tid as int].update(sem_id as int, n));
    assert(table(p.sem_need@) =~= set_cell(n1, tid as int, sem_id as int, n));
    0
}

/// condvar create syscall
pub fn sys_condvar_create(p: &mut ProcessInner) -> (r: isize)
    requires
        old(p).condvar_list@.len() < isize::MAX,
    ensures
        is_first_free(old(p).condvar_list@, r as int),
        filled_at(old(p).condvar_list@, final(p).condvar_list@, r as int),
        final(p).condvar(r as int).wait_queue@.len() == 0,
        final(p).mutex_list == old(p).mutex_list,
        final(p).semaphore_list == old(p).semaphore_list,
        final(p).enable_dld == old(p).enable_dld,
        final(p).same_bank(*old(p)),
{
    let id = find_free_slot(&p.condvar_list);
    if id < p.condvar_list.len() {
        p.condvar_list.set(id, Some(Condvar::new()));
        id as isize
    } else {
        p.condvar_list.push(Some(Condvar::new()));
        p.condvar_list.len() as isize - 1
    }
}

/// condvar signal syscall; also names the thread that is woken.
pub fn sys_condvar_signal(p: &mut ProcessInner, condvar_id: usize) -> (r: (isize, Option<usize>))
    requires
        old(p).has_condvar(condvar_id as int),
    ensures
        r.0 == 0,
        filled_at(old(p).condvar_list@, final(p).condvar_list@, condvar_id as int),
        old(p).condvar(condvar_id as int).wait_queue@.len() > 0 ==> {
            &&& r.1 == Some(old(p).condvar(condvar_id as int).wait_queue@[0])
            &&& final(p).condvar(condvar_id as int).wait_queue@ == old(p).condvar(
                condvar_id as int,
            ).wait_queue@.drop_first()
        },
        old(p).condvar(condvar_id as int).wait_queue@.len() == 0 ==> {
            &&& r.1 is None
            &&& final(p).condvar(condvar_id as int).wait_queue@ == old(p).condvar(
                condvar_id as int,
            ).wait_queue@
        },
        final(p).mutex_list == old(p).mutex_list,
        final(p).semaphore_list == old(p).semaphore_list,
        final(p).enable_dld == old(p).enable_dld,
        final(p).same_bank(*old(p)),
{
    let woken = match &mut p.condvar_list[condvar_id] {
        Some(c) => c.signal(),
        None => None,
    };
    (0, woken)
}

/// condvar wait syscall, made by thread `tid`: releases mutex `mutex_id`
/// (returning the thread that the release wakes) and queues `tid` on the
/// condition variable.  The thread then sleeps; once woken it takes the
/// mutex again with `mutex_lock_continue` and the call returns 0.
pub fn sys_condvar_wait(p: &mut ProcessInner, tid: usize, condvar_id: usize, mutex_id: usize) -> (woken: Option<usize>)
    requires
        old(p).has_condvar(condvar_id as int),
        old(p).has_mutex(mutex_id as int),
        old(p).mutex(mutex_id as int).kind == MutexKind::Blocking ==> old(p).mutex(
            mutex_id as int,
        ).locked,
    ensures
        filled_at(old(p).mutex_list@, final(p).mutex_list@, mutex_id as int),
        unlock_effect(old(p).mutex(mutex_id as int), final(p).mutex(mutex_id as int), woken),
        filled_at(old(p).condvar_list@, final(p).condvar_list@, condvar_id as int),
        final(p).condvar(condvar_id as int).wait_queue@ == old(p).condvar(
            condvar_id as int,
        ).wait_queue@.push(tid),
        final(p).semaphore_list == old(p).semaphore_list,
        final(p).enable_dld == old(p).enable_dld,
        final(p).same_bank(*old(p)),
{
    let woken = match &mut p.mutex_list[mutex_id] {
        Some(m) => m.unlock(),
        None => None,
    };
    match &mut p.condvar_list[condvar_id] {
        Some(c) => c.wait(tid),
        None => {},
    }
    woken
}

/// enable deadlock detection syscall
pub fn sys_enable_deadlock_detect(p: &mut ProcessInner, enabled: usize) -> (r: isize)
    ensures
        enabled != 0 && enabled != 1 ==> r == -1 && *final(p) == *old(p),
        enabled == 0 || enabled == 1 ==> {
            &&& r == 0
            &&& final(p).enable_dld == (enabled == 1)
            &&& final(p).mutex_list == old(p).mutex_list
            &&& final(p).semaphore_list == old(p).semaphore_list
            &&& final(p).condvar_list == old(p).condvar_list
            &&& final(p).same_bank(*old(p))
        },
{
    if enabled != 0 && enabled != 1 {
        return -1;
    }
    p.enable_dld = if enabled == 0 { false } else { true };
    0
}

/// sleep syscall: the moment, in milliseconds, at which a thread that asks
/// at `now_ms` to sleep for `ms` milliseconds is to be woken.  The thread
/// sleeps until then; the call returns 0.
pub fn sys_sleep(now_ms: usize, ms: usize) -> (expire_ms: usize)
    requires
        now_ms + ms <= usize::MAX,
    ensures
        expire_ms == now_ms + ms,
{
    now_ms + ms
}

impl ProcessInner {
    /// Records a new thread `tid` of the process in the first free thread
    /// slot, and returns the slot.
    pub fn add_thread(&mut self, tid: usize) -> (slot: usize)
        ensures
            is_first_free(old(self).tasks@, slot as int),
            filled_at(old(self).tasks@, final(self).tasks@, slot as int),
            final(self).tasks@[slot as int] == Some(tid),
            final(self).mutex_list == old(self).mutex_list,
            final(self).semaphore_list == old(self).semaphore_list,
            final(self).condvar_list == old(self).condvar_list,
            final(self).enable_dld == old(self).enable_dld,
            final(self).sem_available == old(self).sem_available,
            final(self).sem_allocation == old(self).sem_allocation,
            final(self).sem_need == old(self).sem_need,
            final(self).sem_work == old(self).sem_work,
    {
        let slot = find_free_slot(&self.tasks);
        if slot < self.tasks.len() {
            self.tasks.set(slot, Some(tid));
        } else {
            self.tasks.push(Some(tid));
        }
        slot
    }

    /// Forgets the thread in `slot`, which has exited.
    pub fn remove_thread(&mut self, slot: usize)
        requires
            slot < old(self).tasks@.len(),
        ensures
            final(self).tasks@ == old(self).tasks@.update(slot as int, None),
            final(self).mutex_list == old(self).mutex_list,
            final(self).semaphore_list == old(self).semaphore_list,
            final(self).condvar_list == old(self).condvar_list,
            final(self).enable_dld == old(self).enable_dld,
            final(self).sem_available == old(self).sem_available,
            final(self).sem_allocation == old(self).sem_allocation,
            final(self).sem_need == old(self).sem_need,
            final(self).sem_work == old(self).sem_work,
    {
        self.tasks.set(slot, None);
    }
}

} // verus!
