//! Properties that relate several operations of the library.
use vstd::prelude::*;
use crate::locks::{MutexKind, MutexState, Semaphore};
use crate::memory_set::{range_mapped, range_unmapped, with_range, without_range};
use crate::mm::{page_ceil, port_permission};
use crate::process::{HEAP_PERMISSION, end_page, first_page, heap_end_page, heap_move_fits, mmap_args_ok, pid_matches, requested_brk};
use crate::banker::{lemma_needs_within_work_safe, lemma_stuck_thread_unsafe, released, total_held};
use crate::sync::{ProcessInner, SyscallStep, request_cell, sem_request_safe, slot_cell, table, up_effect, allocated, cell, conserved, lock_effect, pad_table, set_cell, total_allocated, unlock_effect};
use crate::task::{TaskManager, TaskStatus};
use crate::slots::{filled_at, is_first_free};

verus! {

/// Unmapping a range that `mmap` has just mapped succeeds and gives back the
/// address space as it was before.
pub proof fn lemma_munmap_undoes_mmap(m: Map<usize, u8>, s: usize, e: usize, perm: u8)
    requires
        range_unmapped(m, s, e),
    ensures
        range_mapped(with_range(m, s, e, perm), s, e),
        without_range(with_range(m, s, e, perm), s, e) == m,
{
    assert(without_range(with_range(m, s, e, perm), s, e) =~= m);
}

/// Once a non-empty range is mapped, mapping any of its pages again is
/// refused.
pub proof fn lemma_mmap_twice_refused(m: Map<usize, u8>, s: usize, e: usize, perm: u8, s2: usize, e2: usize)
    requires
        s <= s2 < e,
        s2 < e2,
    ensures
        !range_unmapped(with_range(m, s, e, perm), s2, e2),
{
    assert(with_range(m, s, e, perm).contains_key(s2));
}

/// After `munmap` of a range, none of its pages is mapped, so unmapping it
/// again is refused and mapping it again succeeds.
pub proof fn lemma_munmap_leaves_range_free(m: Map<usize, u8>, s: usize, e: usize)
    ensures
        range_unmapped(without_range(m, s, e), s, e),
        s < e ==> !range_mapped(without_range(m, s, e), s, e),
{
    if s < e {
        assert(!without_range(m, s, e).contains_key(s));
    }
}

/// Moving the heap end by `size` and then by `-size` brings it back where it
/// was: the second move is accepted whenever the first was, and it unmaps
/// exactly the pages that the first one mapped.
pub proof fn lemma_sbrk_inverse(m: Map<usize, u8>, brk: usize, heap_bottom: usize, size: i32)
    requires
        brk <= isize::MAX,
        heap_bottom <= isize::MAX,
        brk >= heap_bottom,
        0 < size,
        requested_brk(brk, size) <= isize::MAX,
        heap_move_fits(m, brk, size),
    ensures
        ({
            let nb = requested_brk(brk, size) as usize;
            let m1 = with_range(m, heap_end_page(brk), heap_end_page(nb), HEAP_PERMISSION);
            &&& requested_brk(brk, size) >= heap_bottom as isize
            &&& requested_brk(nb, (-size) as i32) == brk
            &&& requested_brk(nb, (-size) as i32) >= heap_bottom as isize
            &&& heap_move_fits(m1, nb, (-size) as i32)
            &&& without_range(m1, heap_end_page(brk), heap_end_page(nb)) == m
        }),
{
    let nb = requested_brk(brk, size) as usize;
    assert(requested_brk(nb, (-size) as i32) == brk);
    lemma_munmap_undoes_mmap(m, heap_end_page(brk), heap_end_page(nb), HEAP_PERMISSION);
}

/// A thread that takes a free mutex and releases it again leaves the mutex
/// free, with the same waiters, and wakes nobody.
pub proof fn lemma_lock_then_unlock(m: MutexState, m2: MutexState, m3: MutexState, tid: usize, r: SyscallStep, woken: Option<usize>)
    requires
        !m.locked,
        m.kind == MutexKind::Spin || m.wait_queue@.len() == 0,
        lock_effect(m, m2, tid, r),
        unlock_effect(m2, m3, woken),
    ensures
        r == SyscallStep::Return(0),
        !m3.locked,
        m3.kind == m.kind,
        m3.wait_queue@ == m.wait_queue@,
        woken is None,
{
}

/// A semaphore request by `tid` (allocation up, work down) followed by its
/// release by the same thread (allocation down, work up) leaves both tables
/// as they were, but for the row and column the request made room for.
pub proof fn lemma_down_then_up_bookkeeping(a: Seq<Seq<isize>>, w: Seq<isize>, tid: usize, sem_id: usize)
    requires
        sem_id < w.len(),
        tid < usize::MAX,
        sem_id < usize::MAX,
        cell(a, tid as int, sem_id as int) < isize::MAX,
        w[sem_id as int] > isize::MIN,
    ensures
        ({
            let a1 = set_cell(
                pad_table(a, tid as int, sem_id as int),
                tid as int,
                sem_id as int,
                (cell(a, tid as int, sem_id as int) + 1) as isize,
            );
            let w1 = w.update(sem_id as int, (w[sem_id as int] - 1) as isize);
            let a2 = set_cell(
                pad_table(a1, tid as int, sem_id as int),
                tid as int,
                sem_id as int,
                (cell(a1, tid as int, sem_id as int) - 1) as isize,
            );
            let w2 = w1.update(sem_id as int, (w1[sem_id as int] + 1) as isize);
            &&& a2 == pad_table(a, tid as int, sem_id as int)
            &&& w2 == w
        }),
{
    let r = tid as int;
    let c = sem_id as int;
    let p = pad_table(a, r, c);
    let a1 = set_cell(p, r, c, (cell(a, r, c) + 1) as isize);
    assert(pad_table(a1, r, c)[r] =~= a1[r]);
    assert(pad_table(a1, r, c) =~= a1);
    let a2 = set_cell(pad_table(a1, r, c), r, c, (cell(a1, r, c) - 1) as isize);
    assert(a2[r] =~= p[r]);
    assert(a2 =~= p);
    let w1 = w.update(c, (w[c] - 1) as isize);
    assert(w1.update(c, (w1[c] + 1) as isize) =~= w);
}

/// A child that has exited is reaped by a `waitpid` that names its pid: no
/// earlier child of the caller matches that pid.
pub proof fn lemma_waitpid_finds_exited_child(k: TaskManager, i: int)
    requires
        k.wf(),
        k.current is Some,
        0 <= i < k.task(k.cur()).children@.len(),
        k.child(k.cur(), i) <= isize::MAX,
        k.task(k.child(k.cur(), i) as int).status == TaskStatus::Zombie,
    ensures
        k.first_waitable(k.child(k.cur(), i) as isize, i),
        k.has_matching_child(k.child(k.cur(), i) as isize),
{
    let c = k.child(k.cur(), i);
    let pid = c as isize;
    assert(pid_matches(pid, c));
    assert forall|j: int| 0 <= j < i implies !#[trigger] k.waitable(pid, j) by {
        assert(k.child(k.cur(), j) != c);
    }
}

/// Counting a call of one system call adds one to its counter and leaves
/// every other counter alone.
pub proof fn lemma_count_inc_get(counts: Seq<u32>, id: int, other: int)
    requires
        0 <= id < counts.len(),
        0 <= other < counts.len(),
        other != id,
        counts[id] < u32::MAX,
    ensures
        counts.update(id, (counts[id] + 1) as u32)[id] == counts[id] + 1,
        counts.update(id, (counts[id] + 1) as u32)[other] == counts[other],
{
}

proof fn lemma_allocated_zero_rows(t: Seq<Seq<isize>>, c: int, k1: int, k2: int)
    requires
        0 <= k1 <= k2,
        forall|r: int| k1 <= r < k2 ==> #[trigger] cell(t, r, c) == 0,
    ensures
        allocated(t, c, k2) == allocated(t, c, k1),
    decreases k2 - k1,
{
    if k2 > k1 {
        lemma_allocated_zero_rows(t, c, k1, k2 - 1);
    }
}

proof fn lemma_allocated_same_cells(t1: Seq<Seq<isize>>, t2: Seq<Seq<isize>>, c: int, k: int)
    requires
        forall|r: int| 0 <= r < k ==> #[trigger] cell(t1, r, c) == cell(t2, r, c),
    ensures
        allocated(t1, c, k) == allocated(t2, c, k),
    decreases k,
{
    if k > 0 {
        lemma_allocated_same_cells(t1, t2, c, k - 1);
    }
}

proof fn lemma_total_pad(t: Seq<Seq<isize>>, r: int, c: int, c2: int)
    requires
        0 <= r,
        0 <= c,
    ensures
        total_allocated(pad_table(t, r, c), c2) == total_allocated(t, c2),
{
    let p = pad_table(t, r, c);
    assert forall|q: int| 0 <= q < t.len() implies #[trigger] cell(p, q, c2) == cell(t, q, c2) by {}
    lemma_allocated_same_cells(p, t, c2, t.len() as int);
    assert forall|q: int| t.len() <= q < p.len() implies #[trigger] cell(p, q, c2) == 0 by {}
    lemma_allocated_zero_rows(p, c2, t.len() as int, p.len() as int);
}

proof fn lemma_allocated_set(t: Seq<Seq<isize>>, r: int, c: int, v: isize, c2: int, k: int)
    requires
        0 <= r < t.len(),
        0 <= c < t[r].len(),
        0 <= k <= t.len(),
    ensures
        allocated(set_cell(t, r, c, v), c2, k) == allocated(t, c2, k) + if c2 == c && r < k {
            v - t[r][c]
        } else {
            0
        },
    decreases k,
{
    if k > 0 {
        lemma_allocated_set(t, r, c, v, c2, k - 1);
    }
}

/// Changing one thread's allocation of semaphore `c` by `d` and what is left
/// of it by `-d` keeps every semaphore's sum of what is left and what is
/// held.
proof fn lemma_move_conserves(
    avail: Seq<isize>,
    a: Seq<Seq<isize>>,
    w: Seq<isize>,
    r: int,
    c: int,
    d: int,
)
    requires
        conserved(avail, a, w),
        0 <= r,
        0 <= c < w.len(),
        isize::MIN <= cell(a, r, c) + d <= isize::MAX,
        isize::MIN <= w[c] - d <= isize::MAX,
    ensures
        conserved(
            avail,
            set_cell(pad_table(a, r, c), r, c, (cell(a, r, c) + d) as isize),
            w.update(c, (w[c] - d) as isize),
        ),
{
    let p = pad_table(a, r, c);
    let a2 = set_cell(p, r, c, (cell(a, r, c) + d) as isize);
    let w2 = w.update(c, (w[c] - d) as isize);
    assert forall|c2: int| 0 <= c2 < w2.len() implies #[trigger] w2[c2] + total_allocated(a2, c2) == avail[c2] by {
        lemma_total_pad(a, r, c, c2);
        lemma_allocated_set(p, r, c, (cell(a, r, c) + d) as isize, c2, p.len() as int);
        assert(p[r][c] == cell(a, r, c));
        assert(w[c2] + total_allocated(a, c2) == avail[c2]);
    }
}

/// `sys_semaphore_up` keeps, for every semaphore, what is left plus what the
/// threads hold equal to what it was created with.
pub proof fn lemma_up_conserves(avail: Seq<isize>, a: Seq<Seq<isize>>, w: Seq<isize>, tid: usize, sem_id: usize)
    requires
        conserved(avail, a, w),
        sem_id < w.len(),
        w[sem_id as int] < isize::MAX,
        cell(a, tid as int, sem_id as int) > isize::MIN,
    ensures
        conserved(
            avail,
            set_cell(
                pad_table(a, tid as int, sem_id as int),
                tid as int,
                sem_id as int,
                (cell(a, tid as int, sem_id as int) - 1) as isize,
            ),
            w.update(sem_id as int, (w[sem_id as int] + 1) as isize),
        ),
{
    lemma_move_conserves(avail, a, w, tid as int, sem_id as int, -1);
}

/// `sys_semaphore_down` keeps the same balance, whether the thread takes a
/// resource at once or on `semaphore_down_resume` (allocation up, what is
/// left down) or sleeps first (tables only padded).
pub proof fn lemma_down_conserves(avail: Seq<isize>, a: Seq<Seq<isize>>, w: Seq<isize>, tid: usize, sem_id: usize)
    requires
        conserved(avail, a, w),
        sem_id < w.len(),
        w[sem_id as int] > isize::MIN,
        cell(a, tid as int, sem_id as int) < isize::MAX,
    ensures
        conserved(
            avail,
            set_cell(
                pad_table(a, tid as int, sem_id as int),
                tid as int,
                sem_id as int,
                (cell(a, tid as int, sem_id as int) + 1) as isize,
            ),
            w.update(sem_id as int, (w[sem_id as int] - 1) as isize),
        ),
        conserved(avail, pad_table(a, tid as int, sem_id as int), w),
{
    lemma_move_conserves(avail, a, w, tid as int, sem_id as int, 1);
    assert forall|c2: int| 0 <= c2 < w.len() implies #[trigger] w[c2] + total_allocated(
        pad_table(a, tid as int, sem_id as int),
        c2,
    ) == avail[c2] by {
        lemma_total_pad(a, tid as int, sem_id as int, c2);
    }
}

/// `sys_semaphore_create` keeps the balance: the new semaphore has left
/// what it was created with, provided no thread holds any of it (or of the
/// slots that creating it adds).
pub proof fn lemma_create_conserves(avail: Seq<isize>, a: Seq<Seq<isize>>, w: Seq<isize>, id: int, v: isize)
    requires
        conserved(avail, a, w),
        0 <= id,
        total_allocated(a, id) == 0,
        forall|c: int| w.len() <= c <= id ==> #[trigger] total_allocated(a, c) == 0,
    ensures
        conserved(pad_avail(avail, id).update(id, v), a, pad_avail(w, id).update(id, v)),
{
    let av2 = pad_avail(avail, id).update(id, v);
    let w2 = pad_avail(w, id).update(id, v);
    assert forall|c: int| 0 <= c < w2.len() implies #[trigger] w2[c] + total_allocated(a, c) == av2[c] by {
        if c != id && c < w.len() {
            assert(w[c] + total_allocated(a, c) == avail[c]);
        }
    }
}

/// `s` padded with zeroes to hold index `id`.
pub open spec fn pad_avail(s: Seq<isize>, id: int) -> Seq<isize> {
    crate::sync::pad(s, id + 1)
}

/// When every slot of a table is taken, two creations in a row get the two
/// ids past its end, one after the other.
pub proof fn lemma_creates_consecutive<T>(s0: Seq<Option<T>>, s1: Seq<Option<T>>, s2: Seq<Option<T>>, i: int, j: int)
    requires
        forall|k: int| 0 <= k < s0.len() ==> #[trigger] s0[k] is Some,
        is_first_free(s0, i),
        filled_at(s0, s1, i),
        is_first_free(s1, j),
        filled_at(s1, s2, j),
    ensures
        i == s0.len(),
        j == s0.len() + 1,
        s2.len() == s0.len() + 2,
{
    if i < s0.len() {
        assert(s0[i] is Some);
    }
    assert forall|k: int| 0 <= k < s1.len() implies #[trigger] s1[k] is Some by {
        if k < s0.len() {
            assert(s1[k] == s0[k]);
        }
    }
    if j < s1.len() {
        assert(s1[j] is Some);
    }
}

/// `mmap` accepts `port` only when it holds some of the three access bits
/// and no bit above them, and `start` only on a page boundary: a port with a
/// bit above bit 2, a port with none of the low three bits, or an unaligned
/// start is refused, and any aligned start with a port from 1 to 7 passes.
pub proof fn lemma_mmap_argument_check(start: usize, port: usize)
    ensures
        port & !0x7usize != 0 ==> !mmap_args_ok(start, port),
        port > 7 ==> !mmap_args_ok(start, port),
        port & 0x7usize == 0 ==> !mmap_args_ok(start, port),
        start % 4096 != 0 ==> !mmap_args_ok(start, port),
        start % 4096 == 0 && 1 <= port <= 7 ==> mmap_args_ok(start, port),
{
    assert(port > 7 ==> port & !0x7usize != 0) by (bit_vector);
    assert(1 <= port <= 7 ==> port & !0x7usize == 0 && port & 0x7usize != 0) by (bit_vector);
}

/// `munmap` needs every page of its range: one page of `[s, e)` that is not
/// mapped makes the range count as not mapped, so the call is refused.
pub proof fn lemma_munmap_needs_every_page(m: Map<usize, u8>, s: usize, e: usize, v: usize)
    requires
        s <= v < e,
        !m.contains_key(v),
    ensures
        !range_mapped(m, s, e),
{
}

/// `mmap` needs every page of its range free: one mapped page of `[s, e)`
/// makes the range count as taken, so the call is refused.
pub proof fn lemma_mmap_needs_every_page_free(m: Map<usize, u8>, s: usize, e: usize, v: usize)
    requires
        s <= v < e,
        m.contains_key(v),
    ensures
        !range_unmapped(m, s, e),
{
}

/// A semaphore wakes its sleepers first come, first served: when an `up`
/// leaves someone waiting for a resource, it wakes the thread at the head of
/// the queue, and the others keep their places in order.
pub proof fn lemma_up_wakes_first_sleeper(s: Semaphore, s2: Semaphore, woken: Option<usize>)
    requires
        up_effect(s, s2, woken),
        s.count < 0,
        s.wait_queue@.len() > 0,
    ensures
        woken == Some(s.wait_queue@[0]),
        s2.wait_queue@.len() == s.wait_queue@.len() - 1,
        forall|i: int| 0 <= i < s2.wait_queue@.len() ==> #[trigger] s2.wait_queue@[i] == s.wait_queue@[i + 1],
{
}

/// Two `up`s on a semaphore with two or more sleepers wake the first two
/// sleepers, in the order in which they went to sleep.
pub proof fn lemma_ups_wake_in_arrival_order(
    s0: Semaphore,
    s1: Semaphore,
    s2: Semaphore,
    w1: Option<usize>,
    w2: Option<usize>,
)
    requires
        up_effect(s0, s1, w1),
        up_effect(s1, s2, w2),
        s0.count <= -2,
        s0.wait_queue@.len() >= 2,
    ensures
        w1 == Some(s0.wait_queue@[0]),
        w2 == Some(s0.wait_queue@[1]),
{
    lemma_up_wakes_first_sleeper(s0, s1, w1);
    assert(s1.wait_queue@[0] == s0.wait_queue@[1]);
}

/// The pages that `mmap` and `munmap` touch for an aligned `start`: from the
/// page that starts at `start` up to the first page boundary at or after
/// `start + len`, that is, `len` rounded up to whole pages.
pub proof fn lemma_mapped_pages(start: usize, len: usize)
    requires
        start % 4096 == 0,
        start + page_ceil(len as int) <= usize::MAX,
    ensures
        first_page(start) * 4096 == start,
        end_page(start, len) * 4096 >= start + len,
        end_page(start, len) - first_page(start) == (len + 4095) / 4096,
{
    let pc = page_ceil(len as int);
    assert(pc % 4096 == 0 && len <= pc < len + 4096 && (len + 4095) / 4096 == pc / 4096) by (nonlinear_arith)
        requires
            pc == if len % 4096 == 0 { len as int } else { len - len % 4096 + 4096 },
            len >= 0,
    ;
    assert((start + pc) % 4096 == 0 && (start + pc) / 4096 == start / 4096 + pc / 4096
        && (start / 4096) * 4096 == start) by (nonlinear_arith)
        requires
            start % 4096 == 0,
            pc % 4096 == 0,
            start >= 0,
            pc >= 0,
    ;
    assert(page_ceil(start + pc) == start + pc);
    assert(end_page(start, len) == (start + pc) / 4096);
    assert(end_page(start, len) * 4096 == start + pc) by (nonlinear_arith)
        requires
            end_page(start, len) == (start + pc) / 4096,
            (start + pc) % 4096 == 0,
    ;
}

/// The permission `mmap` gives for a port from 1 to 7: user-reachable
/// always, readable with port bit 0, writable with bit 1, executable with
/// bit 2.
pub proof fn lemma_mmap_permission_bits(port: usize)
    requires
        1 <= port <= 7,
    ensures
        port_permission(port) & 0x10 != 0,
        (port_permission(port) & 0x2 != 0) == (port & 0x1 != 0),
        (port_permission(port) & 0x4 != 0) == (port & 0x2 != 0),
        (port_permission(port) & 0x8 != 0) == (port & 0x4 != 0),
        port_permission(port) & !0x1eu8 == 0,
{
    let perm = port_permission(port);
    assert(perm & 0x10 != 0 && (perm & 0x2 != 0) == (port & 0x1 != 0) && (perm & 0x4 != 0) == (
    port & 0x2 != 0) && (perm & 0x8 != 0) == (port & 0x4 != 0) && perm & !0x1eu8 == 0) by (bit_vector)
        requires
            1 <= port <= 7,
            perm == (16 + 2 * (port % 8)) as u8,
    ;
}

/// A blocking mutex is handed over first come, first served: unlocking it
/// while threads wait gives it to the thread at the head of the queue, which
/// becomes its holder, and the others keep their places in order.
pub proof fn lemma_unlock_hands_over_to_first_waiter(m: MutexState, m2: MutexState, woken: Option<usize>)
    requires
        unlock_effect(m, m2, woken),
        m.kind == MutexKind::Blocking,
        m.wait_queue@.len() > 0,
    ensures
        woken == Some(m.wait_queue@[0]),
        m2.owner == Some(m.wait_queue@[0]),
        m2.locked,
        m2.wait_queue@.len() == m.wait_queue@.len() - 1,
        forall|i: int| 0 <= i < m2.wait_queue@.len() ==> #[trigger] m2.wait_queue@[i] == m.wait_queue@[i + 1],
{
}

proof fn lemma_nothing_released(
    alloc: spec_fn(int, int) -> int,
    live: spec_fn(int) -> bool,
    fin: Seq<bool>,
    j: int,
    k: int,
)
    requires
        forall|q: int| 0 <= q < k ==> #[trigger] alloc(q, j) == 0,
    ensures
        released(alloc, live, fin, j, k) == 0,
    decreases k,
{
    if k > 0 {
        lemma_nothing_released(alloc, live, fin, j, k - 1);
        assert(alloc(k - 1, j) == 0);
    }
}

/// With nothing recorded as held or waited for, a thread's request for a
/// semaphore passes the deadlock check exactly when a unit of it is left:
/// the unit it asks for is counted.
pub proof fn lemma_first_request_checked(p: ProcessInner, tid: usize, sem_id: usize, slot: int)
    requires
        0 <= slot < p.tasks@.len(),
        p.tasks@[slot] == Some(tid),
        sem_id < p.sem_work@.len(),
        forall|q: int, r: int| #[trigger] cell(table(p.sem_need@), q, r) == 0,
        forall|q: int, r: int| #[trigger] cell(table(p.sem_allocation@), q, r) == 0,
        forall|r: int| 0 <= r < p.sem_work@.len() ==> #[trigger] p.sem_work@[r] >= 0,
    ensures
        sem_request_safe(p, tid, sem_id) <==> p.sem_work@[sem_id as int] >= 1,
{
    let tasks = p.tasks@;
    let n = tasks.len();
    let nres = p.sem_work@.len();
    let live = |i: int| 0 <= i < tasks.len() && tasks[i] is Some;
    let need = |i: int, j: int| request_cell(tasks, table(p.sem_need@), tid, sem_id as int, i, j);
    let alloc = |i: int, j: int| slot_cell(tasks, table(p.sem_allocation@), i, j);
    let work = |j: int| p.sem_work@[j] as int;
    assert forall|q: int, r: int| 0 <= q < n && 0 <= r < nres implies #[trigger] alloc(q, r) >= 0 by {
        if tasks[q] is Some {
            assert(cell(table(p.sem_allocation@), tasks[q]->0 as int, r) == 0);
        }
    }
    if p.sem_work@[sem_id as int] >= 1 {
        assert forall|q: int, r: int| 0 <= q < n && live(q) && 0 <= r < nres implies #[trigger] need(q, r) <= work(r) by {
            assert(cell(table(p.sem_need@), tasks[q]->0 as int, r) == 0);
        }
        lemma_needs_within_work_safe(n, nres, live, need, alloc, work);
    } else {
        assert(cell(table(p.sem_need@), tid as int, sem_id as int) == 0);
        assert(need(slot, sem_id as int) == 1);
        let all = Seq::new(n, |_k: int| true);
        assert forall|q: int| 0 <= q < n implies #[trigger] alloc(q, sem_id as int) == 0 by {
            if tasks[q] is Some {
                assert(cell(table(p.sem_allocation@), tasks[q]->0 as int, sem_id as int) == 0);
            }
        }
        lemma_nothing_released(alloc, live, all, sem_id as int, n as int);
        assert(total_held(alloc, live, sem_id as int, n) == 0);
        lemma_stuck_thread_unsafe(n, nres, live, need, alloc, work, slot, sem_id as int);
    }
}

} // verus!
