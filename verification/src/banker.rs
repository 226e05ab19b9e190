//! The banker's safety check: can every thread of a process finish, given
//! what each still needs of every resource, what each holds, and what is
//! left?
//!
//! Threads are numbered by slot; `live(i)` says whether slot `i` holds a
//! thread.  A thread can finish when, for every resource, what it needs is at
//! most what is left plus what the threads already finished give back.  The
//! finished set starts empty and grows round by round, each round adding
//! every thread that can finish then; after as many rounds as there are
//! slots it no longer changes.  The state is safe when every thread is in it.
use vstd::prelude::*;

verus! {

/// What the finished threads among slots `[0, k)` give back of resource `j`.
pub open spec fn released(
    alloc: spec_fn(int, int) -> int,
    live: spec_fn(int) -> bool,
    fin: Seq<bool>,
    j: int,
    k: int,
) -> int
    decreases k,
{
    if k <= 0 {
        0
    } else {
        released(alloc, live, fin, j, k - 1) + if live(k - 1) && fin[k - 1] {
            alloc(k - 1, j)
        } else {
            0
        }
    }
}

/// What is at hand of resource `j` once the threads of `fin` have finished.
pub open spec fn available(
    work: spec_fn(int) -> int,
    alloc: spec_fn(int, int) -> int,
    live: spec_fn(int) -> bool,
    fin: Seq<bool>,
    j: int,
) -> int {
    work(j) + released(alloc, live, fin, j, fin.len() as int)
}

/// Thread `i` needs no more of any of the `nres` resources than is at hand.
pub open spec fn can_finish(
    nres: nat,
    live: spec_fn(int) -> bool,
    need: spec_fn(int, int) -> int,
    alloc: spec_fn(int, int) -> int,
    work: spec_fn(int) -> int,
    fin: Seq<bool>,
    i: int,
) -> bool {
    forall|j: int| 0 <= j < nres ==> #[trigger] need(i, j) <= available(work, alloc, live, fin, j)
}

/// One round: every thread that can finish now joins the finished set.
pub open spec fn next_round(
    nres: nat,
    live: spec_fn(int) -> bool,
    need: spec_fn(int, int) -> int,
    alloc: spec_fn(int, int) -> int,
    work: spec_fn(int) -> int,
    fin: Seq<bool>,
) -> Seq<bool> {
    Seq::new(
        fin.len(),
        |i: int| fin[i] || (live(i) && can_finish(nres, live, need, alloc, work, fin, i)),
    )
}

/// The finished set of `n` slots after `rounds` rounds.
pub open spec fn finished_after(
    n: nat,
    nres: nat,
    live: spec_fn(int) -> bool,
    need: spec_fn(int, int) -> int,
    alloc: spec_fn(int, int) -> int,
    work: spec_fn(int) -> int,
    rounds: nat,
) -> Seq<bool>
    decreases rounds,
{
    if rounds == 0 {
        Seq::new(n, |_i: int| false)
    } else {
        next_round(
            nres,
            live,
            need,
            alloc,
            work,
            finished_after(n, nres, live, need, alloc, work, (rounds - 1) as nat),
        )
    }
}

/// Every thread of the `n` slots can finish.
pub open spec fn is_safe(
    n: nat,
    nres: nat,
    live: spec_fn(int) -> bool,
    need: spec_fn(int, int) -> int,
    alloc: spec_fn(int, int) -> int,
    work: spec_fn(int) -> int,
) -> bool {
    forall|i: int|
        0 <= i < n && #[trigger] live(i) ==> finished_after(n, nres, live, need, alloc, work, n)[i]
}

/// Two descriptions of the same threads and resources: they agree on every
/// slot below `n` and every resource below `nres`.
pub open spec fn same_problem(
    n: nat,
    nres: nat,
    l1: spec_fn(int) -> bool,
    need1: spec_fn(int, int) -> int,
    a1: spec_fn(int, int) -> int,
    w1: spec_fn(int) -> int,
    l2: spec_fn(int) -> bool,
    need2: spec_fn(int, int) -> int,
    a2: spec_fn(int, int) -> int,
    w2: spec_fn(int) -> int,
) -> bool {
    &&& forall|i: int| 0 <= i < n ==> #[trigger] l1(i) == l2(i)
    &&& forall|i: int, j: int| 0 <= i < n && 0 <= j < nres ==> #[trigger] need1(i, j) == need2(i, j)
    &&& forall|i: int, j: int| 0 <= i < n && 0 <= j < nres ==> #[trigger] a1(i, j) == a2(i, j)
    &&& forall|j: int| 0 <= j < nres ==> #[trigger] w1(j) == w2(j)
}

proof fn lemma_released_same(
    n: nat,
    nres: nat,
    l1: spec_fn(int) -> bool,
    a1: spec_fn(int, int) -> int,
    l2: spec_fn(int) -> bool,
    a2: spec_fn(int, int) -> int,
    fin: Seq<bool>,
    j: int,
    k: int,
)
    requires
        0 <= j < nres,
        k <= n,
        forall|i: int| 0 <= i < n ==> #[trigger] l1(i) == l2(i),
        forall|i: int, r: int| 0 <= i < n && 0 <= r < nres ==> #[trigger] a1(i, r) == a2(i, r),
    ensures
        released(a1, l1, fin, j, k) == released(a2, l2, fin, j, k),
    decreases k,
{
    if k > 0 {
        lemma_released_same(n, nres, l1, a1, l2, a2, fin, j, k - 1);
        assert(l1(k - 1) == l2(k - 1));
        assert(a1(k - 1, j) == a2(k - 1, j));
    }
}

proof fn lemma_rounds_same(
    n: nat,
    nres: nat,
    l1: spec_fn(int) -> bool,
    need1: spec_fn(int, int) -> int,
    a1: spec_fn(int, int) -> int,
    w1: spec_fn(int) -> int,
    l2: spec_fn(int) -> bool,
    need2: spec_fn(int, int) -> int,
    a2: spec_fn(int, int) -> int,
    w2: spec_fn(int) -> int,
    rounds: nat,
)
    requires
        same_problem(n, nres, l1, need1, a1, w1, l2, need2, a2, w2),
    ensures
        finished_after(n, nres, l1, need1, a1, w1, rounds) == finished_after(
            n,
            nres,
            l2,
            need2,
            a2,
            w2,
            rounds,
        ),
        finished_after(n, nres, l1, need1, a1, w1, rounds).len() == n,
    decreases rounds,
{
    if rounds > 0 {
        lemma_rounds_same(n, nres, l1, need1, a1, w1, l2, need2, a2, w2, (rounds - 1) as nat);
        let fin = finished_after(n, nres, l1, need1, a1, w1, (rounds - 1) as nat);
        assert forall|i: int| 0 <= i < n implies #[trigger] next_round(nres, l1, need1, a1, w1, fin)[i]
            == next_round(nres, l2, need2, a2, w2, fin)[i] by {
            assert forall|j: int| 0 <= j < nres implies available(w1, a1, l1, fin, j) == available(
                w2,
                a2,
                l2,
                fin,
                j,
            ) by {
                lemma_released_same(n, nres, l1, a1, l2, a2, fin, j, fin.len() as int);
            }
            if can_finish(nres, l1, need1, a1, w1, fin, i) {
                assert forall|j: int| 0 <= j < nres implies #[trigger] need2(i, j) <= available(
                    w2,
                    a2,
                    l2,
                    fin,
                    j,
                ) by {
                    assert(need1(i, j) <= available(w1, a1, l1, fin, j));
                    assert(need1(i, j) == need2(i, j));
                }
            }
            if can_finish(nres, l2, need2, a2, w2, fin, i) {
                assert forall|j: int| 0 <= j < nres implies #[trigger] need1(i, j) <= available(
                    w1,
                    a1,
                    l1,
                    fin,
                    j,
                ) by {
                    assert(need2(i, j) <= available(w2, a2, l2, fin, j));
                    assert(need1(i, j) == need2(i, j));
                }
            }
        }
        assert(next_round(nres, l1, need1, a1, w1, fin) =~= next_round(nres, l2, need2, a2, w2, fin));
    }
}

/// Whether a state is safe depends only on the slots and resources it has.
pub proof fn lemma_safe_same(
    n: nat,
    nres: nat,
    l1: spec_fn(int) -> bool,
    need1: spec_fn(int, int) -> int,
    a1: spec_fn(int, int) -> int,
    w1: spec_fn(int) -> int,
    l2: spec_fn(int) -> bool,
    need2: spec_fn(int, int) -> int,
    a2: spec_fn(int, int) -> int,
    w2: spec_fn(int) -> int,
)
    requires
        same_problem(n, nres, l1, need1, a1, w1, l2, need2, a2, w2),
    ensures
        is_safe(n, nres, l1, need1, a1, w1) == is_safe(n, nres, l2, need2, a2, w2),
{
    lemma_rounds_same(n, nres, l1, need1, a1, w1, l2, need2, a2, w2, n);
    if is_safe(n, nres, l1, need1, a1, w1) {
        assert forall|i: int| 0 <= i < n && #[trigger] l2(i) implies finished_after(n, nres, l2, need2, a2, w2, n)[i] by {
            assert(l1(i));
        }
    }
    if is_safe(n, nres, l2, need2, a2, w2) {
        assert forall|i: int| 0 <= i < n && #[trigger] l1(i) implies finished_after(n, nres, l1, need1, a1, w1, n)[i] by {
            assert(l2(i));
        }
    }
}

/// How many threads of `fin` have finished.
pub open spec fn count_finished(fin: Seq<bool>) -> nat
    decreases fin.len(),
{
    if fin.len() == 0 {
        0
    } else {
        count_finished(fin.drop_last()) + if fin.last() { 1nat } else { 0nat }
    }
}

proof fn lemma_count_bounded(fin: Seq<bool>)
    ensures
        count_finished(fin) <= fin.len(),
    decreases fin.len(),
{
    if fin.len() > 0 {
        lemma_count_bounded(fin.drop_last());
    }
}

/// A set that contains another has at least as many members, and one more
/// where they differ.
proof fn lemma_count_grows(a: Seq<bool>, b: Seq<bool>)
    requires
        a.len() == b.len(),
        forall|i: int| 0 <= i < a.len() && a[i] ==> b[i],
    ensures
        count_finished(a) <= count_finished(b),
        a != b ==> count_finished(a) < count_finished(b),
    decreases a.len(),
{
    if a.len() == 0 {
        assert(a =~= b);
    } else {
        lemma_count_grows(a.drop_last(), b.drop_last());
        if a != b && a.drop_last() == b.drop_last() {
            if a.last() == b.last() {
                assert forall|i: int| 0 <= i < a.len() implies a[i] == b[i] by {
                    if i < a.len() - 1 {
                        assert(a.drop_last()[i] == b.drop_last()[i]);
                    }
                }
                assert(a =~= b);
            }
        }
    }
}

proof fn lemma_rounds_grow(
    n: nat,
    nres: nat,
    live: spec_fn(int) -> bool,
    need: spec_fn(int, int) -> int,
    alloc: spec_fn(int, int) -> int,
    work: spec_fn(int) -> int,
    k: nat,
)
    ensures
        finished_after(n, nres, live, need, alloc, work, k).len() == n,
        forall|i: int|
            0 <= i < n && finished_after(n, nres, live, need, alloc, work, k)[i]
                ==> #[trigger] finished_after(n, nres, live, need, alloc, work, k + 1)[i],
    decreases k,
{
    if k > 0 {
        lemma_rounds_grow(n, nres, live, need, alloc, work, (k - 1) as nat);
    }
}

proof fn lemma_rounds_stable(
    n: nat,
    nres: nat,
    live: spec_fn(int) -> bool,
    need: spec_fn(int, int) -> int,
    alloc: spec_fn(int, int) -> int,
    work: spec_fn(int) -> int,
    k: nat,
    m: nat,
)
    requires
        k <= m,
        finished_after(n, nres, live, need, alloc, work, k + 1) == finished_after(
            n,
            nres,
            live,
            need,
            alloc,
            work,
            k,
        ),
    ensures
        finished_after(n, nres, live, need, alloc, work, m) == finished_after(
            n,
            nres,
            live,
            need,
            alloc,
            work,
            k,
        ),
    decreases m - k,
{
    if m > k {
        lemma_rounds_stable(n, nres, live, need, alloc, work, k, (m - 1) as nat);
    }
}

proof fn lemma_rounds_count(
    n: nat,
    nres: nat,
    live: spec_fn(int) -> bool,
    need: spec_fn(int, int) -> int,
    alloc: spec_fn(int, int) -> int,
    work: spec_fn(int) -> int,
    k: nat,
)
    requires
        finished_after(n, nres, live, need, alloc, work, k + 1) != finished_after(
            n,
            nres,
            live,
            need,
            alloc,
            work,
            k,
        ),
    ensures
        count_finished(finished_after(n, nres, live, need, alloc, work, k + 1)) >= k + 1,
    decreases k,
{
    lemma_rounds_grow(n, nres, live, need, alloc, work, k);
    lemma_count_grows(
        finished_after(n, nres, live, need, alloc, work, k),
        finished_after(n, nres, live, need, alloc, work, k + 1),
    );
    if k > 0 {
        let km = (k - 1) as nat;
        if finished_after(n, nres, live, need, alloc, work, km + 1) == finished_after(
            n,
            nres,
            live,
            need,
            alloc,
            work,
            km,
        ) {
            lemma_rounds_stable(n, nres, live, need, alloc, work, km, k + 1);
            lemma_rounds_stable(n, nres, live, need, alloc, work, km, k);
        } else {
            lemma_rounds_count(n, nres, live, need, alloc, work, km);
        }
    }
}

/// After as many rounds as there are slots, a further round finishes
/// nobody new: the finished set is the fixed point of the rounds.
pub proof fn lemma_rounds_reach_fixed_point(
    n: nat,
    nres: nat,
    live: spec_fn(int) -> bool,
    need: spec_fn(int, int) -> int,
    alloc: spec_fn(int, int) -> int,
    work: spec_fn(int) -> int,
)
    ensures
        next_round(nres, live, need, alloc, work, finished_after(n, nres, live, need, alloc, work, n))
            == finished_after(n, nres, live, need, alloc, work, n),
{
    if finished_after(n, nres, live, need, alloc, work, n + 1) != finished_after(
        n,
        nres,
        live,
        need,
        alloc,
        work,
        n,
    ) {
        lemma_rounds_count(n, nres, live, need, alloc, work, n);
        lemma_rounds_grow(n, nres, live, need, alloc, work, n + 1);
        lemma_count_bounded(finished_after(n, nres, live, need, alloc, work, n + 1));
    }
}

/// What the live threads among slots `[0, n)` hold of resource `j`.
pub open spec fn total_held(alloc: spec_fn(int, int) -> int, live: spec_fn(int) -> bool, j: int, n: nat) -> int {
    released(alloc, live, Seq::new(n, |_k: int| true), j, n as int)
}

proof fn lemma_released_nonneg(
    alloc: spec_fn(int, int) -> int,
    live: spec_fn(int) -> bool,
    fin: Seq<bool>,
    n: nat,
    j: int,
    k: int,
)
    requires
        0 <= k <= n,
        fin.len() >= k,
        forall|q: int| 0 <= q < n ==> #[trigger] alloc(q, j) >= 0,
    ensures
        0 <= released(alloc, live, fin, j, k),
        released(alloc, live, fin, j, k) <= released(alloc, live, Seq::new(n, |_q: int| true), j, k),
    decreases k,
{
    if k > 0 {
        lemma_released_nonneg(alloc, live, fin, n, j, k - 1);
        assert(alloc(k - 1, j) >= 0);
    }
}

proof fn lemma_never_finishes(
    n: nat,
    nres: nat,
    live: spec_fn(int) -> bool,
    need: spec_fn(int, int) -> int,
    alloc: spec_fn(int, int) -> int,
    work: spec_fn(int) -> int,
    i: int,
    j: int,
    rounds: nat,
)
    requires
        forall|q: int| 0 <= q < n ==> #[trigger] alloc(q, j) >= 0,
        0 <= i < n,
        0 <= j < nres,
        need(i, j) > work(j) + total_held(alloc, live, j, n),
    ensures
        !finished_after(n, nres, live, need, alloc, work, rounds)[i],
    decreases rounds,
{
    if rounds > 0 {
        let prev = finished_after(n, nres, live, need, alloc, work, (rounds - 1) as nat);
        lemma_never_finishes(n, nres, live, need, alloc, work, i, j, (rounds - 1) as nat);
        lemma_rounds_grow(n, nres, live, need, alloc, work, (rounds - 1) as nat);
        lemma_released_nonneg(alloc, live, prev, n, j, n as int);
        assert(!(need(i, j) <= available(work, alloc, live, prev, j)));
        assert(!can_finish(nres, live, need, alloc, work, prev, i));
    }
}

/// A live thread that needs more of some resource than is left plus all
/// that the live threads hold can never finish, so the state is unsafe
/// whatever the other threads can do.
pub proof fn lemma_stuck_thread_unsafe(
    n: nat,
    nres: nat,
    live: spec_fn(int) -> bool,
    need: spec_fn(int, int) -> int,
    alloc: spec_fn(int, int) -> int,
    work: spec_fn(int) -> int,
    i: int,
    j: int,
)
    requires
        forall|q: int, r: int| 0 <= q < n && 0 <= r < nres ==> #[trigger] alloc(q, r) >= 0,
        0 <= i < n,
        live(i),
        0 <= j < nres,
        need(i, j) > work(j) + total_held(alloc, live, j, n),
    ensures
        !is_safe(n, nres, live, need, alloc, work),
{
    assert forall|q: int| 0 <= q < n implies #[trigger] alloc(q, j) >= 0 by {
        assert(alloc(q, j) >= 0);
    }
    lemma_never_finishes(n, nres, live, need, alloc, work, i, j, n);
}

proof fn lemma_rounds_keep(
    n: nat,
    nres: nat,
    live: spec_fn(int) -> bool,
    need: spec_fn(int, int) -> int,
    alloc: spec_fn(int, int) -> int,
    work: spec_fn(int) -> int,
    i: int,
    a: nat,
    b: nat,
)
    requires
        a <= b,
        0 <= i < n,
        finished_after(n, nres, live, need, alloc, work, a)[i],
    ensures
        finished_after(n, nres, live, need, alloc, work, b)[i],
    decreases b - a,
{
    if a < b {
        lemma_rounds_keep(n, nres, live, need, alloc, work, i, a, (b - 1) as nat);
        lemma_rounds_grow(n, nres, live, need, alloc, work, (b - 1) as nat);
    }
}

/// When what is left covers everything that every live thread needs, and no
/// thread holds a negative amount, every thread can finish: the state is
/// safe.  In particular a need equal to what is left can be met.
pub proof fn lemma_needs_within_work_safe(
    n: nat,
    nres: nat,
    live: spec_fn(int) -> bool,
    need: spec_fn(int, int) -> int,
    alloc: spec_fn(int, int) -> int,
    work: spec_fn(int) -> int,
)
    requires
        forall|q: int, r: int| 0 <= q < n && 0 <= r < nres ==> #[trigger] alloc(q, r) >= 0,
        forall|q: int, r: int| 0 <= q < n && live(q) && 0 <= r < nres ==> #[trigger] need(q, r) <= work(r),
    ensures
        is_safe(n, nres, live, need, alloc, work),
{
    let fin0 = finished_after(n, nres, live, need, alloc, work, 0);
    assert forall|i: int| 0 <= i < n && #[trigger] live(i) implies finished_after(n, nres, live, need, alloc, work, n)[i] by {
        assert forall|j: int| 0 <= j < nres implies #[trigger] need(i, j) <= available(work, alloc, live, fin0, j) by {
            assert forall|q: int| 0 <= q < n implies #[trigger] alloc(q, j) >= 0 by {
                assert(alloc(q, j) >= 0);
            }
            lemma_released_nonneg(alloc, live, fin0, n, j, n as int);
            assert(need(i, j) <= work(j));
        }
        assert(can_finish(nres, live, need, alloc, work, fin0, i));
        assert(finished_after(n, nres, live, need, alloc, work, 1)[i]);
        lemma_rounds_keep(n, nres, live, need, alloc, work, i, 1, n);
    }
}

/// A safe state is one where every live thread is in the finished set: one
/// live thread that never finishes makes the state unsafe.
pub proof fn lemma_safe_means_every_thread_finishes(
    n: nat,
    nres: nat,
    live: spec_fn(int) -> bool,
    need: spec_fn(int, int) -> int,
    alloc: spec_fn(int, int) -> int,
    work: spec_fn(int) -> int,
    i: int,
)
    requires
        0 <= i < n,
        live(i),
        !finished_after(n, nres, live, need, alloc, work, n)[i],
    ensures
        !is_safe(n, nres, live, need, alloc, work),
{
}

/// Entry `j` of row `i`; zero where the row is shorter.
pub open spec fn row_cell(t: Seq<Vec<i128>>, i: int, j: int) -> int {
    if 0 <= i < t.len() && 0 <= j < t[i]@.len() {
        t[i]@[j] as int
    } else {
        0
    }
}

/// Every entry of `t` and of `w` fits in 64 signed bits.
pub open spec fn fits_i64(t: Seq<Vec<i128>>, w: Seq<i128>) -> bool {
    &&& forall|i: int, j: int|
        0 <= i < t.len() && 0 <= j < t[i]@.len() ==> i64::MIN <= #[trigger] t[i]@[j] <= i64::MAX
    &&& forall|j: int| 0 <= j < w.len() ==> i64::MIN <= #[trigger] w[j] <= i64::MAX
}

fn row_at(t: &Vec<Vec<i128>>, i: usize, j: usize) -> (v: i128)
    requires
        i < t@.len(),
    ensures
        v == row_cell(t@, i as int, j as int),
{
    if j < t[i].len() {
        t[i][j]
    } else {
        0
    }
}

proof fn lemma_released_bounds(
    alloc: spec_fn(int, int) -> int,
    live: spec_fn(int) -> bool,
    fin: Seq<bool>,
    j: int,
    k: int,
)
    requires
        0 <= k,
        forall|i: int| 0 <= i < k ==> i64::MIN <= #[trigger] alloc(i, j) <= i64::MAX,
    ensures
        k * i64::MIN <= released(alloc, live, fin, j, k) <= k * i64::MAX,
    decreases k,
{
    if k > 0 {
        lemma_released_bounds(alloc, live, fin, j, k - 1);
        assert(i64::MIN <= alloc(k - 1, j) <= i64::MAX);
    }
}

/// What the finished threads give back of resource `j`.
fn released_exec(live: &Vec<bool>, alloc: &Vec<Vec<i128>>, fin: &Vec<bool>, j: usize) -> (s: i128)
    requires
        live@.len() == alloc@.len() == fin@.len(),
        fits_i64(alloc@, Seq::empty()),
    ensures
        s == released(|i: int, r: int| row_cell(alloc@, i, r), |i: int| live@[i], fin@, j as int, fin@.len() as int),
        fin@.len() * i64::MIN <= s <= fin@.len() * i64::MAX,
{
    let ghost a = |i: int, r: int| row_cell(alloc@, i, r);
    let ghost l = |i: int| live@[i];
    let mut s: i128 = 0;
    let mut k: usize = 0;
    while k < fin.len()
        invariant
            k <= fin@.len(),
            live@.len() == alloc@.len() == fin@.len(),
            fits_i64(alloc@, Seq::empty()),
            a == (|i: int, r: int| row_cell(alloc@, i, r)),
            l == (|i: int| live@[i]),
            s == released(a, l, fin@, j as int, k as int),
            k * i64::MIN <= s <= k * i64::MAX,
        decreases fin@.len() - k,
    {
        if live[k] && fin[k] {
            let v = row_at(alloc, k, j);
            s = s + v;
        }
        k = k + 1;
    }
    s
}

/// What is at hand of every resource once the threads of `fin` have finished.
fn available_exec(live: &Vec<bool>, alloc: &Vec<Vec<i128>>, work: &Vec<i128>, fin: &Vec<bool>) -> (avail: Vec<i128>)
    requires
        live@.len() == alloc@.len() == fin@.len(),
        fits_i64(alloc@, work@),
    ensures
        avail@.len() == work@.len(),
        forall|j: int|
            0 <= j < work@.len() ==> #[trigger] avail@[j] == available(
                |r: int| work@[r] as int,
                |i: int, r: int| row_cell(alloc@, i, r),
                |i: int| live@[i],
                fin@,
                j,
            ),
{
    let mut avail: Vec<i128> = Vec::new();
    let mut j: usize = 0;
    while j < work.len()
        invariant
            j <= work@.len(),
            avail@.len() == j,
            live@.len() == alloc@.len() == fin@.len(),
            fits_i64(alloc@, work@),
            forall|r: int|
                0 <= r < j ==> #[trigger] avail@[r] == available(
                    |r: int| work@[r] as int,
                    |i: int, r: int| row_cell(alloc@, i, r),
                    |i: int| live@[i],
                    fin@,
                    r,
                ),
        decreases work@.len() - j,
    {
        assert(fits_i64(alloc@, Seq::empty()));
        let s = released_exec(live, alloc, fin, j);
        let w = work[j];
        assert(i64::MIN <= w <= i64::MAX);
        let nf = fin.len();
        assert(fin@.len() == nf);
        avail.push(w + s);
        j = j + 1;
    }
    avail
}

/// One round of the check.
fn next_round_exec(live: &Vec<bool>, need: &Vec<Vec<i128>>, alloc: &Vec<Vec<i128>>, work: &Vec<i128>, fin: &Vec<bool>) -> (next: Vec<bool>)
    requires
        live@.len() == need@.len() == alloc@.len() == fin@.len(),
        fits_i64(alloc@, work@),
    ensures
        next@ == next_round(
            work@.len(),
            |i: int| live@[i],
            |i: int, r: int| row_cell(need@, i, r),
            |i: int, r: int| row_cell(alloc@, i, r),
            |r: int| work@[r] as int,
            fin@,
        ),
{
    let ghost l = |i: int| live@[i];
    let ghost nd = |i: int, r: int| row_cell(need@, i, r);
    let ghost al = |i: int, r: int| row_cell(alloc@, i, r);
    let ghost wk = |r: int| work@[r] as int;
    let avail = available_exec(live, alloc, work, fin);
    let mut next: Vec<bool> = Vec::new();
    let mut i: usize = 0;
    while i < fin.len()
        invariant
            i <= fin@.len(),
            next@.len() == i,
            live@.len() == need@.len() == alloc@.len() == fin@.len(),
            avail@.len() == work@.len(),
            l == (|i: int| live@[i]),
            nd == (|i: int, r: int| row_cell(need@, i, r)),
            al == (|i: int, r: int| row_cell(alloc@, i, r)),
            wk == (|r: int| work@[r] as int),
            forall|r: int| 0 <= r < work@.len() ==> #[trigger] avail@[r] == available(wk, al, l, fin@, r),
            forall|k: int|
                0 <= k < i ==> #[trigger] next@[k] == (fin@[k] || (live@[k] && can_finish(
                    work@.len(),
                    l,
                    nd,
                    al,
                    wk,
                    fin@,
                    k,
                ))),
        decreases fin@.len() - i,
    {
        let mut ok = true;
        if !fin[i] && live[i] {
            let mut j: usize = 0;
            while j < work.len()
                invariant
                    j <= work@.len(),
                    i < need@.len(),
                    avail@.len() == work@.len(),
                    nd == (|i: int, r: int| row_cell(need@, i, r)),
                    l == (|i: int| live@[i]),
                    al == (|i: int, r: int| row_cell(alloc@, i, r)),
                    wk == (|r: int| work@[r] as int),
                    forall|r: int| 0 <= r < work@.len() ==> #[trigger] avail@[r] == available(wk, al, l, fin@, r),
                    ok == forall|r: int| 0 <= r < j ==> #[trigger] nd(i as int, r) <= available(wk, al, l, fin@, r),
                decreases work@.len() - j,
            {
                let v = row_at(need, i, j);
                assert(v == nd(i as int, j as int));
                assert(avail@[j as int] == available(wk, al, l, fin@, j as int));
                if v > avail[j] {
                    ok = false;
                }
                j = j + 1;
            }
        }
        next.push(fin[i] || (live[i] && ok));
        i = i + 1;
    }
    assert(next@ =~= next_round(work@.len(), l, nd, al, wk, fin@));
    next
}

/// The banker's safety check over the slots of `live`: `need[i][j]`,
/// `alloc[i][j]` for thread `i` and resource `j` (zero past a row's end),
/// and `work[j]` left of resource `j`.
pub fn safety_check(live: &Vec<bool>, need: &Vec<Vec<i128>>, alloc: &Vec<Vec<i128>>, work: &Vec<i128>) -> (safe: bool)
    requires
        live@.len() == need@.len() == alloc@.len(),
        fits_i64(alloc@, work@),
    ensures
        safe == is_safe(
            live@.len(),
            work@.len(),
            |i: int| live@[i],
            |i: int, r: int| row_cell(need@, i, r),
            |i: int, r: int| row_cell(alloc@, i, r),
            |r: int| work@[r] as int,
        ),
        safe ==> forall|i: int|
            0 <= i < live@.len() && #[trigger] live@[i] ==> finished_after(
                live@.len(),
                work@.len(),
                |q: int| live@[q],
                |q: int, r: int| row_cell(need@, q, r),
                |q: int, r: int| row_cell(alloc@, q, r),
                |r: int| work@[r] as int,
                live@.len(),
            )[i],
        !safe ==> exists|i: int|
            0 <= i < live@.len() && #[trigger] live@[i] && !finished_after(
                live@.len(),
                work@.len(),
                |q: int| live@[q],
                |q: int, r: int| row_cell(need@, q, r),
                |q: int, r: int| row_cell(alloc@, q, r),
                |r: int| work@[r] as int,
                live@.len(),
            )[i],
{
    let ghost l = |i: int| live@[i];
    let ghost nd = |i: int, r: int| row_cell(need@, i, r);
    let ghost al = |i: int, r: int| row_cell(alloc@, i, r);
    let ghost wk = |r: int| work@[r] as int;
    let ghost n = live@.len();
    let mut fin: Vec<bool> = Vec::new();
    let mut i: usize = 0;
    while i < live.len()
        invariant
            i <= live@.len(),
            fin@ == Seq::new(i as nat, |_i: int| false),
        decreases live@.len() - i,
    {
        fin.push(false);
        i = i + 1;
    }
    let mut round: usize = 0;
    while round < live.len()
        invariant
            round <= live@.len(),
            n == live@.len(),
            live@.len() == need@.len() == alloc@.len(),
            fits_i64(alloc@, work@),
            l == (|i: int| live@[i]),
            nd == (|i: int, r: int| row_cell(need@, i, r)),
            al == (|i: int, r: int| row_cell(alloc@, i, r)),
            wk == (|r: int| work@[r] as int),
            fin@ == finished_after(n, work@.len(), l, nd, al, wk, round as nat),
            fin@.len() == n,
        decreases live@.len() - round,
    {
        fin = next_round_exec(live, need, alloc, work, &fin);
        round = round + 1;
    }
    let mut k: usize = 0;
    while k < live.len()
        invariant
            k <= live@.len(),
            n == live@.len(),
            fin@.len() == live@.len(),
            l == (|i: int| live@[i]),
            nd == (|i: int, r: int| row_cell(need@, i, r)),
            al == (|i: int, r: int| row_cell(alloc@, i, r)),
            wk == (|r: int| work@[r] as int),
            fin@ == finished_after(n, work@.len(), l, nd, al, wk, n),
            forall|q: int| 0 <= q < k && live@[q] ==> fin@[q],
        decreases live@.len() - k,
    {
        if live[k] && !fin[k] {
            assert(l(k as int));
            assert(live@[k as int] && !fin@[k as int]);
            return false;
        }
        k = k + 1;
    }
    assert forall|q: int| 0 <= q < n && #[trigger] l(q) implies finished_after(n, work@.len(), l, nd, al, wk, n)[q] by {
        assert(live@[q]);
    }
    true
}

} // verus!
