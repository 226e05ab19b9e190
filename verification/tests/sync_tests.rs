use os_syscall::banker::safety_check;
use os_syscall::locks::{Condvar, LockStep, MutexKind, MutexState, Semaphore};
use os_syscall::sync::{
    mutex_lock_continue, sem_try_down, semaphore_down_resume, sys_condvar_create,
    sys_condvar_signal, sys_condvar_wait, sys_enable_deadlock_detect, sys_mutex_create,
    sys_mutex_lock, sys_mutex_unlock, sys_semaphore_create, sys_semaphore_down,
    sys_semaphore_up, sys_sleep, ProcessInner, SyscallStep, DEADLOCK,
};

#[test]
fn mutex_create_takes_first_free_slot() {
    let mut p = ProcessInner::new();
    assert_eq!(sys_mutex_create(&mut p, false), 0);
    assert_eq!(sys_mutex_create(&mut p, true), 1);
    assert_eq!(sys_mutex_create(&mut p, true), 2);
    p.mutex_list[1] = None;
    assert_eq!(sys_mutex_create(&mut p, false), 1);
    assert_eq!(p.mutex_list[1].as_ref().unwrap().kind, MutexKind::Spin);
    assert_eq!(p.mutex_list[2].as_ref().unwrap().kind, MutexKind::Blocking);
    assert_eq!(sys_mutex_create(&mut p, false), 3);
}

#[test]
fn spin_mutex_lock_and_unlock() {
    let mut p = ProcessInner::new();
    let id = sys_mutex_create(&mut p, false) as usize;
    assert_eq!(sys_mutex_lock(&mut p, 1, id), SyscallStep::Return(0));
    assert!(p.mutex_list[id].as_ref().unwrap().locked);
    // another thread has to yield and retry
    assert_eq!(sys_mutex_lock(&mut p, 2, id), SyscallStep::Yield);
    assert_eq!(sys_mutex_unlock(&mut p, id), (0, None));
    assert!(!p.mutex_list[id].as_ref().unwrap().locked);
    assert_eq!(mutex_lock_continue(&mut p, 2, id), SyscallStep::Return(0));
}

#[test]
fn blocking_mutex_hands_over_to_first_waiter() {
    let mut p = ProcessInner::new();
    let id = sys_mutex_create(&mut p, true) as usize;
    assert_eq!(sys_mutex_lock(&mut p, 1, id), SyscallStep::Return(0));
    assert_eq!(sys_mutex_lock(&mut p, 2, id), SyscallStep::Block);
    assert_eq!(sys_mutex_lock(&mut p, 3, id), SyscallStep::Block);
    assert_eq!(p.mutex_list[id].as_ref().unwrap().wait_queue, vec![2, 3]);
    assert_eq!(sys_mutex_unlock(&mut p, id), (0, Some(2)));
    assert!(p.mutex_list[id].as_ref().unwrap().locked);
    assert_eq!(sys_mutex_unlock(&mut p, id), (0, Some(3)));
    assert_eq!(sys_mutex_unlock(&mut p, id), (0, None));
    assert!(!p.mutex_list[id].as_ref().unwrap().locked);
}

#[test]
fn mutex_lock_reports_deadlock_when_detection_is_on() {
    let mut p = ProcessInner::new();
    p.add_thread(1);
    let id = sys_mutex_create(&mut p, true) as usize;
    assert_eq!(sys_enable_deadlock_detect(&mut p, 1), 0);
    assert_eq!(sys_mutex_lock(&mut p, 1, id), SyscallStep::Return(0));
    assert_eq!(p.mutex_list[id].as_ref().unwrap().owner, Some(1));
    // taking it again would wait for itself
    assert_eq!(sys_mutex_lock(&mut p, 1, id), SyscallStep::Return(DEADLOCK));
    assert_eq!(DEADLOCK, -0xDEAD);
    assert!(p.mutex_list[id].as_ref().unwrap().wait_queue.is_empty());
}

#[test]
fn mutex_wait_for_a_holder_that_can_finish_is_safe() {
    let mut p = ProcessInner::new();
    p.add_thread(0);
    p.add_thread(1);
    let id = sys_mutex_create(&mut p, true) as usize;
    assert_eq!(sys_enable_deadlock_detect(&mut p, 1), 0);
    assert_eq!(sys_mutex_lock(&mut p, 0, id), SyscallStep::Return(0));
    assert_eq!(sys_mutex_lock(&mut p, 1, id), SyscallStep::Block);
    assert_eq!(sys_mutex_unlock(&mut p, id), (0, Some(1)));
    assert_eq!(p.mutex_list[id].as_ref().unwrap().owner, Some(1));
}

#[test]
fn mutex_cycle_is_refused() {
    let mut p = ProcessInner::new();
    p.add_thread(0);
    p.add_thread(1);
    let a = sys_mutex_create(&mut p, true) as usize;
    let b = sys_mutex_create(&mut p, true) as usize;
    assert_eq!(sys_enable_deadlock_detect(&mut p, 1), 0);
    assert_eq!(sys_mutex_lock(&mut p, 0, a), SyscallStep::Return(0));
    assert_eq!(sys_mutex_lock(&mut p, 1, b), SyscallStep::Return(0));
    assert_eq!(sys_mutex_lock(&mut p, 0, b), SyscallStep::Block);
    assert_eq!(sys_mutex_lock(&mut p, 1, a), SyscallStep::Return(DEADLOCK));
    assert!(p.mutex_list[a].as_ref().unwrap().wait_queue.is_empty());
}

#[test]
fn enable_deadlock_detect_accepts_only_zero_and_one() {
    let mut p = ProcessInner::new();
    assert_eq!(sys_enable_deadlock_detect(&mut p, 2), -1);
    assert!(!p.enable_dld);
    assert_eq!(sys_enable_deadlock_detect(&mut p, 1), 0);
    assert!(p.enable_dld);
    assert_eq!(sys_enable_deadlock_detect(&mut p, 7), -1);
    assert!(p.enable_dld);
    assert_eq!(sys_enable_deadlock_detect(&mut p, 0), 0);
    assert!(!p.enable_dld);
}

#[test]
fn semaphore_create_records_available_and_work() {
    let mut p = ProcessInner::new();
    assert_eq!(sys_semaphore_create(&mut p, 3), 0);
    assert_eq!(sys_semaphore_create(&mut p, 1), 1);
    assert_eq!(p.sem_available, vec![3, 1]);
    assert_eq!(p.sem_work, vec![3, 1]);
    p.semaphore_list[0] = None;
    assert_eq!(sys_semaphore_create(&mut p, 5), 0);
    assert_eq!(p.sem_available, vec![5, 1]);
    assert_eq!(p.sem_work, vec![5, 1]);
    assert_eq!(p.semaphore_list[0].as_ref().unwrap().count, 5);
}

#[test]
fn semaphore_down_and_up_keep_the_books() {
    let mut p = ProcessInner::new();
    let s = sys_semaphore_create(&mut p, 1) as usize;
    assert_eq!(sys_semaphore_down(&mut p, 2, s), SyscallStep::Return(0));
    assert_eq!(p.sem_allocation[2], vec![1]);
    assert_eq!(p.sem_work[s], 0);
    assert_eq!(p.sem_need[2], vec![0]);
    assert_eq!(p.sem_allocation[0].len(), 0);
    // a second thread has to wait: it needs one unit and holds none yet
    assert_eq!(sys_semaphore_down(&mut p, 1, s), SyscallStep::Block);
    assert_eq!(p.sem_need[1], vec![1]);
    assert_eq!(p.sem_allocation[1], vec![0]);
    assert_eq!(p.sem_work[s], 0);
    assert_eq!(p.semaphore_list[s].as_ref().unwrap().wait_queue, vec![1]);
    // the holder releases and wakes it
    assert_eq!(sys_semaphore_up(&mut p, 2, s), (0, Some(1)));
    assert_eq!(p.sem_allocation[2], vec![0]);
    assert_eq!(p.sem_work[s], 1);
    // once running again, the woken thread holds the unit
    assert_eq!(semaphore_down_resume(&mut p, 1, s), 0);
    assert_eq!(p.sem_need[1], vec![0]);
    assert_eq!(p.sem_allocation[1], vec![1]);
    assert_eq!(p.sem_work[s], 0);
}

#[test]
fn sem_try_down_runs_the_safety_check() {
    let mut p = ProcessInner::new();
    sys_semaphore_create(&mut p, 1);
    p.add_thread(0);
    p.add_thread(1);
    // thread 0 holds the unit and thread 1 asks for it: 0 finishes, then 1
    p.sem_need = vec![vec![0], vec![0]];
    p.sem_allocation = vec![vec![1], vec![0]];
    p.sem_work = vec![0];
    assert!(sem_try_down(&p, 1, 0));
    // asking for what is left can be met
    p.sem_need = vec![vec![0], vec![0]];
    p.sem_allocation = vec![vec![0], vec![0]];
    p.sem_work = vec![1];
    assert!(sem_try_down(&p, 0, 0));
    // thread 1 already waits for the unit that thread 0 holds, and thread 0
    // asks for one more: nobody can finish
    p.sem_need = vec![vec![0], vec![1]];
    p.sem_allocation = vec![vec![1], vec![0]];
    p.sem_work = vec![0];
    assert!(!sem_try_down(&p, 0, 0));
    // the tables are only read
    assert_eq!(p.sem_need, vec![vec![0], vec![1]]);
    assert_eq!(p.sem_allocation, vec![vec![1], vec![0]]);
    assert_eq!(p.sem_work, vec![0]);
}

#[test]
fn sem_try_down_with_empty_tables() {
    let mut p = ProcessInner::new();
    sys_semaphore_create(&mut p, 1);
    p.add_thread(0);
    // nothing recorded yet: the one unit left meets the request
    assert!(sem_try_down(&p, 0, 0));
    p.sem_work = vec![0];
    assert!(!sem_try_down(&p, 0, 0));
}

#[test]
fn sem_try_down_needs_every_resource() {
    let mut p = ProcessInner::new();
    sys_semaphore_create(&mut p, 1);
    sys_semaphore_create(&mut p, 1);
    p.add_thread(0);
    p.add_thread(1);
    // each holds one semaphore; thread 1 waits for the first and thread 0
    // asks for the second
    p.sem_need = vec![vec![0, 0], vec![1, 0]];
    p.sem_allocation = vec![vec![1, 0], vec![0, 1]];
    p.sem_work = vec![0, 0];
    assert!(!sem_try_down(&p, 0, 1));
    // with the second one left over, thread 0 can finish, then thread 1
    p.sem_work = vec![0, 1];
    assert!(sem_try_down(&p, 0, 1));
}

#[test]
fn semaphore_down_reports_deadlock() {
    let mut p = ProcessInner::new();
    let s = sys_semaphore_create(&mut p, 0) as usize;
    p.add_thread(0);
    assert_eq!(sys_enable_deadlock_detect(&mut p, 1), 0);
    assert_eq!(sys_semaphore_down(&mut p, 0, s), SyscallStep::Return(DEADLOCK));
    // a refused request changes nothing
    assert_eq!(p.sem_allocation.len(), 0);
    assert_eq!(p.sem_need.len(), 0);
    assert_eq!(p.sem_work, vec![0]);
    assert_eq!(p.semaphore_list[s].as_ref().unwrap().count, 0);
    assert_eq!(p.semaphore_list[s].as_ref().unwrap().wait_queue.len(), 0);
}

#[test]
fn semaphore_down_with_a_free_unit_is_granted() {
    let mut p = ProcessInner::new();
    let s = sys_semaphore_create(&mut p, 1) as usize;
    p.add_thread(0);
    assert_eq!(sys_enable_deadlock_detect(&mut p, 1), 0);
    assert_eq!(sys_semaphore_down(&mut p, 0, s), SyscallStep::Return(0));
    assert_eq!(p.sem_allocation[0], vec![1]);
    assert_eq!(p.sem_work, vec![0]);
    assert_eq!(p.sem_available, vec![1]);
}

#[test]
fn threads_come_and_go() {
    let mut p = ProcessInner::new();
    assert_eq!(p.add_thread(5), 0);
    assert_eq!(p.add_thread(6), 1);
    p.remove_thread(0);
    assert_eq!(p.tasks, vec![None, Some(6)]);
    assert_eq!(p.add_thread(7), 0);
}

#[test]
fn condvar_wait_and_signal() {
    let mut p = ProcessInner::new();
    let m = sys_mutex_create(&mut p, true) as usize;
    let c = sys_condvar_create(&mut p) as usize;
    assert_eq!(c, 0);
    assert_eq!(sys_mutex_lock(&mut p, 1, m), SyscallStep::Return(0));
    assert_eq!(sys_mutex_lock(&mut p, 2, m), SyscallStep::Block);
    // thread 1 waits: the mutex passes to thread 2
    assert_eq!(sys_condvar_wait(&mut p, 1, c, m), Some(2));
    assert_eq!(p.condvar_list[c].as_ref().unwrap().wait_queue, vec![1]);
    assert_eq!(sys_condvar_signal(&mut p, c), (0, Some(1)));
    assert_eq!(sys_condvar_signal(&mut p, c), (0, None));
    // woken, thread 1 asks for the mutex again
    assert_eq!(mutex_lock_continue(&mut p, 1, m), SyscallStep::Block);
    assert_eq!(sys_mutex_unlock(&mut p, m), (0, Some(1)));
}

#[test]
fn sleep_expires_after_the_delay() {
    assert_eq!(sys_sleep(100, 50), 150);
    assert_eq!(sys_sleep(0, 0), 0);
}

#[test]
fn lock_objects_directly() {
    let mut m = MutexState::new(false);
    assert!(m.lock_try());
    assert_eq!(m.lock(4), LockStep::Acquired);
    assert!(!m.lock_try());
    assert_eq!(m.lock(5), LockStep::Retry);
    assert_eq!(m.unlock(), None);
    let mut s = Semaphore::new(0);
    assert!(s.down(3));
    assert!(s.down(3));
    assert_eq!(s.get_need(3), 2);
    assert_eq!(s.get_need(4), 0);
    assert_eq!(s.get_count(), -2);
    assert_eq!(s.up(), Some(3));
    assert_eq!(s.get_need(3), 1);
    let mut c = Condvar::new();
    c.wait(8);
    assert_eq!(c.signal(), Some(8));
}

fn balanced(p: &ProcessInner) -> bool {
    (0..p.sem_work.len()).all(|s| {
        let held: isize = p.sem_allocation.iter().map(|row| row.get(s).copied().unwrap_or(0)).sum();
        p.sem_work[s] + held == p.sem_available[s]
    })
}

#[test]
fn left_plus_held_stays_what_was_created() {
    let mut p = ProcessInner::new();
    let s = sys_semaphore_create(&mut p, 2) as usize;
    p.add_thread(0);
    p.add_thread(1);
    assert_eq!(sys_enable_deadlock_detect(&mut p, 1), 0);
    assert!(balanced(&p));
    assert_eq!(sys_semaphore_down(&mut p, 0, s), SyscallStep::Return(0));
    assert!(balanced(&p));
    assert_eq!(sys_semaphore_down(&mut p, 1, s), SyscallStep::Return(0));
    assert!(balanced(&p));
    assert_eq!(sys_semaphore_down(&mut p, 1, s), SyscallStep::Block);
    assert!(balanced(&p));
    assert_eq!(sys_semaphore_up(&mut p, 0, s), (0, Some(1)));
    assert!(balanced(&p));
    assert_eq!(semaphore_down_resume(&mut p, 1, s), 0);
    assert!(balanced(&p));
    assert_eq!(p.sem_allocation[1], vec![2]);
    assert_eq!(p.sem_work, vec![0]);
}

#[test]
fn banker_check_directly() {
    let live = vec![true, true, false];
    // thread 0 needs 2 of what has 1 left, thread 1 can finish and gives 1 back
    let need = vec![vec![2], vec![1], vec![100]];
    let alloc = vec![vec![0], vec![1], vec![0]];
    assert!(safety_check(&live, &need, &alloc, &vec![1]));
    assert!(!safety_check(&live, &need, &alloc, &vec![0]));
    assert!(safety_check(&vec![], &vec![], &vec![], &vec![0]));
}

#[test]
fn creates_in_a_row_get_consecutive_ids() {
    let mut p = ProcessInner::new();
    sys_semaphore_create(&mut p, 4);
    let n = p.semaphore_list.len();
    assert_eq!(sys_semaphore_create(&mut p, 2), n as isize);
    assert_eq!(sys_semaphore_create(&mut p, 9), n as isize + 1);
    assert_eq!(p.semaphore_list.len(), n + 2);
    assert_eq!(p.sem_work[n], 2);
    assert_eq!(p.sem_work[n + 1], 9);
}

#[test]
fn down_then_up_restores_the_books() {
    let mut p = ProcessInner::new();
    let s = sys_semaphore_create(&mut p, 3) as usize;
    p.add_thread(0);
    assert_eq!(sys_enable_deadlock_detect(&mut p, 1), 0);
    assert_eq!(sys_semaphore_down(&mut p, 0, s), SyscallStep::Return(0));
    assert_eq!(p.sem_work, vec![2]);
    assert_eq!(sys_semaphore_up(&mut p, 0, s), (0, None));
    assert_eq!(p.sem_work, vec![3]);
    assert_eq!(p.sem_allocation[0], vec![0]);
    assert_eq!(p.sem_need[0], vec![0]);
    assert_eq!(p.semaphore_list[s].as_ref().unwrap().count, 3);
}
