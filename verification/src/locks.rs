//! The synchronisation objects that a process owns: spin and blocking
//! mutexes, counting semaphores and condition variables.  A thread is named by
//! its thread id; waking one is reported to the caller, which hands it back to
//! the scheduler.
use vstd::prelude::*;

verus! {

/// How many times `x` occurs in `s`.
pub open spec fn occurrences(s: Seq<usize>, x: usize) -> nat
    decreases s.len(),
{
    if s.len() == 0 {
        0
    } else {
        occurrences(s.drop_last(), x) + if s.last() == x { 1nat } else { 0nat }
    }
}

pub proof fn lemma_occurrences_bounded(s: Seq<usize>, x: usize)
    ensures
        occurrences(s, x) <= s.len(),
    decreases s.len(),
{
    if s.len() > 0 {
        lemma_occurrences_bounded(s.drop_last(), x);
    }
}

/// The way a mutex waits for its owner.
#[derive(PartialEq, Eq, Structural, Clone, Copy, Debug)]
pub enum MutexKind {
    /// The waiting thread gives up the processor and tries again later.
    Spin,
    /// The waiting thread sleeps in the mutex's queue until the owner hands
    /// the mutex over.
    Blocking,
}

/// What a request to take a mutex came to.
#[derive(PartialEq, Eq, Structural, Clone, Copy, Debug)]
pub enum LockStep {
    /// The caller holds the mutex now.
    Acquired,
    /// The caller was queued and must sleep; it holds the mutex when woken.
    Wait,
    /// The mutex is busy: the caller yields and asks again.
    Retry,
}

/// A mutex of either kind.
pub struct MutexState {
    pub kind: MutexKind,
    pub locked: bool,
    /// The thread that holds the mutex, if one does.
    pub owner: Option<usize>,
    /// Threads that sleep on a blocking mutex, first come first.
    pub wait_queue: Vec<usize>,
}

impl MutexState {
    pub fn new(blocking: bool) -> (m: Self)
        ensures
            m.kind == (if blocking { MutexKind::Blocking } else { MutexKind::Spin }),
            !m.locked,
            m.owner is None,
            m.wait_queue@ == Seq::<usize>::empty(),
    {
        MutexState {
            kind: if blocking { MutexKind::Blocking } else { MutexKind::Spin },
            locked: false,
            owner: None,
            wait_queue: Vec::new(),
        }
    }

    /// Whether the mutex could be taken right now without waiting.
    pub fn lock_try(&self) -> (r: bool)
        ensures
            r == !self.locked,
    {
        !self.locked
    }

    /// Thread `tid` asks for the mutex.
    pub fn lock(&mut self, tid: usize) -> (r: LockStep)
        ensures
            final(self).kind == old(self).kind,
            final(self).locked,
            !old(self).locked ==> r == LockStep::Acquired && final(self).wait_queue@
                == old(self).wait_queue@ && final(self).owner == Some(tid),
            old(self).locked && old(self).kind == MutexKind::Spin ==> r == LockStep::Retry
                && final(self).wait_queue@ == old(self).wait_queue@ && final(self).owner == old(self).owner,
            old(self).locked && old(self).kind == MutexKind::Blocking ==> r == LockStep::Wait
                && final(self).wait_queue@ == old(self).wait_queue@.push(tid) && final(self).owner
                == old(self).owner,
    {
        if !self.locked {
            self.locked = true;
            self.owner = Some(tid);
            LockStep::Acquired
        } else {
            match self.kind {
                MutexKind::Spin => LockStep::Retry,
                MutexKind::Blocking => {
                    self.wait_queue.push(tid);
                    LockStep::Wait
                },
            }
        }
    }

    /// Releases the mutex.  A blocking mutex hands itself to the first
    /// sleeper, whose id is returned; it stays locked then.
    pub fn unlock(&mut self) -> (woken: Option<usize>)
        requires
            old(self).kind == MutexKind::Blocking ==> old(self).locked,
        ensures
            final(self).kind == old(self).kind,
            old(self).kind == MutexKind::Spin ==> {
                &&& !final(self).locked
                &&& final(self).owner is None
                &&& woken is None
                &&& final(self).wait_queue@ == old(self).wait_queue@
            },
            old(self).kind == MutexKind::Blocking && old(self).wait_queue@.len() > 0 ==> {
                &&& final(self).locked
                &&& final(self).owner == Some(old(self).wait_queue@[0])
                &&& woken == Some(old(self).wait_queue@[0])
                &&& final(self).wait_queue@ == old(self).wait_queue@.drop_first()
            },
            old(self).kind == MutexKind::Blocking && old(self).wait_queue@.len() == 0 ==> {
                &&& !final(self).locked
                &&& final(self).owner is None
                &&& woken is None
                &&& final(self).wait_queue@ == old(self).wait_queue@
            },
    {
        match self.kind {
            MutexKind::Spin => {
                self.locked = false;
                self.owner = None;
                None
            },
            MutexKind::Blocking => {
                if self.wait_queue.len() > 0 {
                    let t = self.wait_queue.remove(0);
                    assert(self.wait_queue@ =~= old(self).wait_queue@.drop_first());
                    self.owner = Some(t);
                    Some(t)
                } else {
                    self.locked = false;
                    self.owner = None;
                    None
                }
            },
        }
    }
}

impl MutexState {
    /// How many times thread `tid` waits on this mutex.
    pub fn waits(&self, tid: usize) -> (n: usize)
        ensures
            n == occurrences(self.wait_queue@, tid),
    {
        let mut n: usize = 0;
        let mut i: usize = 0;
        while i < self.wait_queue.len()
            invariant
                i <= self.wait_queue@.len(),
                n == occurrences(self.wait_queue@.subrange(0, i as int), tid),
                n <= i,
            decreases self.wait_queue@.len() - i,
        {
            let ghost s = self.wait_queue@.subrange(0, i + 1);
            assert(s.drop_last() =~= self.wait_queue@.subrange(0, i as int));
            if self.wait_queue[i] == tid {
                n = n + 1;
            }
            i = i + 1;
        }
        assert(self.wait_queue@.subrange(0, i as int) =~= self.wait_queue@);
        n
    }
}

/// A counting semaphore.  A negative count is the number of sleepers.
pub struct Semaphore {
    pub count: isize,
    pub wait_queue: Vec<usize>,
}

impl Semaphore {
    pub fn new(res_count: usize) -> (s: Self)
        ensures
            s.count == res_count as isize,
            s.wait_queue@ == Seq::<usize>::empty(),
    {
        Semaphore { count: res_count as isize, wait_queue: Vec::new() }
    }

    /// Gives one resource back, waking the first sleeper when there is one
    /// and the count shows that somebody waits.
    pub fn up(&mut self) -> (woken: Option<usize>)
        requires
            old(self).count < isize::MAX,
        ensures
            final(self).count == old(self).count + 1,
            final(self).count <= 0 && old(self).wait_queue@.len() > 0 ==> {
                &&& woken == Some(old(self).wait_queue@[0])
                &&& final(self).wait_queue@ == old(self).wait_queue@.drop_first()
            },
            !(final(self).count <= 0 && old(self).wait_queue@.len() > 0) ==> {
                &&& woken is None
                &&& final(self).wait_queue@ == old(self).wait_queue@
            },
    {
        self.count = self.count + 1;
        if self.count <= 0 && self.wait_queue.len() > 0 {
            let t = self.wait_queue.remove(0);
            assert(self.wait_queue@ =~= old(self).wait_queue@.drop_first());
            Some(t)
        } else {
            None
        }
    }

    /// Thread `tid` takes one resource; it has to sleep (and `true` is
    /// returned) when none was left.
    pub fn down(&mut self, tid: usize) -> (blocked: bool)
        requires
            old(self).count > isize::MIN,
        ensures
            final(self).count == old(self).count - 1,
            blocked == (final(self).count < 0),
            blocked ==> final(self).wait_queue@ == old(self).wait_queue@.push(tid),
            !blocked ==> final(self).wait_queue@ == old(self).wait_queue@,
    {
        self.count = self.count - 1;
        if self.count < 0 {
            self.wait_queue.push(tid);
            true
        } else {
            false
        }
    }

    pub fn get_count(&self) -> (r: isize)
        ensures
            r == self.count,
    {
        self.count
    }

    /// How many times thread `tid` waits on this semaphore.
    pub fn get_need(&self, tid: usize) -> (r: isize)
        requires
            self.wait_queue@.len() <= isize::MAX,
        ensures
            r == occurrences(self.wait_queue@, tid),
    {
        let mut n: isize = 0;
        let mut i: usize = 0;
        while i < self.wait_queue.len()
            invariant
                i <= self.wait_queue@.len() <= isize::MAX,
                n == occurrences(self.wait_queue@.subrange(0, i as int), tid),
                n <= i,
            decreases self.wait_queue@.len() - i,
        {
            let ghost s = self.wait_queue@.subrange(0, i + 1);
            assert(s.drop_last() =~= self.wait_queue@.subrange(0, i as int));
            if self.wait_queue[i] == tid {
                n = n + 1;
            }
            i = i + 1;
        }
        assert(self.wait_queue@.subrange(0, i as int) =~= self.wait_queue@);
        n
    }
}

/// A condition variable: the threads that wait on it, first come first.
pub struct Condvar {
    pub wait_queue: Vec<usize>,
}

impl Condvar {
    pub fn new() -> (c: Self)
        ensures
            c.wait_queue@ == Seq::<usize>::empty(),
    {
        Condvar { wait_queue: Vec::new() }
    }

    /// Wakes the first waiter, if any.
    pub fn signal(&mut self) -> (woken: Option<usize>)
        ensures
            old(self).wait_queue@.len() > 0 ==> woken == Some(old(self).wait_queue@[0])
                && final(self).wait_queue@ == old(self).wait_queue@.drop_first(),
            old(self).wait_queue@.len() == 0 ==> woken is None && final(self).wait_queue@
                == old(self).wait_queue@,
    {
        if self.wait_queue.len() > 0 {
            let t = self.wait_queue.remove(0);
            assert(self.wait_queue@ =~= old(self).wait_queue@.drop_first());
            Some(t)
        } else {
            None
        }
    }

    /// Queues thread `tid` as a waiter.
    pub fn wait(&mut self, tid: usize)
        ensures
            final(self).wait_queue@ == old(self).wait_queue@.push(tid),
    {
        self.wait_queue.push(tid);
    }
}

} // verus!
