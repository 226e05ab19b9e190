use os_syscall::mm::{MAP_PERM_R, MAP_PERM_U, MAP_PERM_W, MAP_PERM_X};
use os_syscall::process::{
    copy_from_user, copy_to_user, run_next, sys_exec, sys_exit, sys_fork, sys_get_time,
    sys_getpid, sys_mmap, sys_munmap, sys_sbrk, sys_set_priority, sys_spawn, sys_task_info,
    sys_waitpid, sys_yield, record_syscall,
};
use os_syscall::syscall_count::SyscallCount;
use os_syscall::task::{ProgramImage, TaskManager, TaskStatus};

fn image(tag: u8, user_sp: usize) -> ProgramImage {
    ProgramImage { data: vec![tag, tag, tag], user_sp }
}

fn kernel() -> TaskManager {
    TaskManager::new(image(0, 0x10000), 0)
}

fn current(k: &TaskManager) -> usize {
    k.current.unwrap()
}

fn status(k: &TaskManager, pid: usize) -> TaskStatus {
    k.tasks[pid].as_ref().unwrap().status
}

#[test]
fn getpid_of_first_process() {
    let k = kernel();
    assert_eq!(sys_getpid(&k), 0);
}

#[test]
fn fork_returns_child_pid_and_child_sees_zero() {
    let mut k = kernel();
    assert_eq!(sys_mmap(&mut k, 0x1000, 0x1000, 3), 0);
    let child = sys_fork(&mut k);
    assert_eq!(child, 1);
    let c = k.tasks[1].as_ref().unwrap();
    assert_eq!(c.trap_a0, 0);
    assert_eq!(c.status, TaskStatus::Ready);
    assert_eq!(c.program, vec![0, 0, 0]);
    assert!(c.memory_set.is_mapped(1));
    assert_eq!(k.tasks[0].as_ref().unwrap().children, vec![1]);
    assert_eq!(k.ready_queue, vec![1]);
    assert_eq!(sys_fork(&mut k), 2);
    assert_eq!(k.tasks[0].as_ref().unwrap().children, vec![1, 2]);
}

#[test]
fn yield_runs_the_next_ready_process() {
    let mut k = kernel();
    sys_fork(&mut k);
    assert_eq!(sys_yield(&mut k, 10), 0);
    assert_eq!(current(&k), 1);
    assert_eq!(sys_getpid(&k), 1);
    assert_eq!(status(&k, 1), TaskStatus::Running);
    assert_eq!(status(&k, 0), TaskStatus::Ready);
    assert_eq!(k.ready_queue, vec![0]);
    assert_eq!(sys_yield(&mut k, 10), 0);
    assert_eq!(current(&k), 0);
}

#[test]
fn yield_alone_keeps_running() {
    let mut k = kernel();
    assert_eq!(sys_yield(&mut k, 10), 0);
    assert_eq!(current(&k), 0);
    assert!(k.ready_queue.is_empty());
    assert_eq!(status(&k, 0), TaskStatus::Running);
}

#[test]
fn spawn_and_exec_need_a_program() {
    let mut k = kernel();
    assert_eq!(sys_spawn(&mut k, None), -1);
    assert_eq!(sys_spawn(&mut k, Some(image(7, 0x20000))), 1);
    let c = k.tasks[1].as_ref().unwrap();
    assert_eq!(c.program, vec![7, 7, 7]);
    assert_eq!(c.heap_bottom, 0x20000);
    assert_eq!(k.tasks[0].as_ref().unwrap().children, vec![1]);
    assert_eq!(sys_exec(&mut k, None), -1);
    assert_eq!(k.tasks[0].as_ref().unwrap().program, vec![0, 0, 0]);
    assert_eq!(sys_exec(&mut k, Some(image(9, 0x30000))), 0);
    let t = k.tasks[0].as_ref().unwrap();
    assert_eq!(t.program, vec![9, 9, 9]);
    assert_eq!(t.program_brk, 0x30000);
    assert_eq!(t.children, vec![1]);
}

#[test]
fn waitpid_reaps_exited_child() {
    let mut k = kernel();
    let child = sys_fork(&mut k) as usize;
    assert_eq!(sys_waitpid(&mut k, 5), (-1, None));
    assert_eq!(sys_waitpid(&mut k, -1), (-2, None));
    assert_eq!(sys_waitpid(&mut k, child as isize), (-2, None));
    sys_yield(&mut k, 10);
    assert_eq!(current(&k), child);
    assert!(!sys_exit(&mut k, 42));
    assert_eq!(status(&k, child), TaskStatus::Zombie);
    assert_eq!(k.current, None);
    assert_eq!(run_next(&mut k, 20), Some(0));
    assert_eq!(sys_waitpid(&mut k, child as isize), (child as isize, Some(42)));
    assert!(k.tasks[child].is_none());
    assert!(k.tasks[0].as_ref().unwrap().children.is_empty());
    assert_eq!(sys_waitpid(&mut k, -1), (-1, None));
    // the freed pid is given to the next process
    assert_eq!(sys_fork(&mut k), child as isize);
}

#[test]
fn exit_hands_children_to_initproc() {
    let mut k = kernel();
    let a = sys_fork(&mut k) as usize;
    sys_yield(&mut k, 10);
    assert_eq!(current(&k), a);
    let b = sys_fork(&mut k) as usize;
    assert!(!sys_exit(&mut k, 3));
    assert_eq!(k.tasks[0].as_ref().unwrap().children, vec![a, b]);
    assert!(k.tasks[a].as_ref().unwrap().children.is_empty());
    assert_eq!(run_next(&mut k, 20), Some(0));
    assert_eq!(sys_waitpid(&mut k, -1), (a as isize, Some(3)));
}

#[test]
fn initproc_exit_shuts_down() {
    let mut k = kernel();
    assert!(sys_exit(&mut k, 0));
    assert_eq!(current(&k), 0);
    assert_eq!(status(&k, 0), TaskStatus::Running);
}

#[test]
fn run_next_with_nothing_ready() {
    let mut k = kernel();
    let child = sys_fork(&mut k) as usize;
    sys_yield(&mut k, 10);
    sys_yield(&mut k, 10);
    assert_eq!(current(&k), 0);
    assert_eq!(k.ready_queue, vec![child]);
}

#[test]
fn mmap_checks_its_arguments() {
    let mut k = kernel();
    assert_eq!(sys_mmap(&mut k, 0x1001, 0x1000, 1), -1);
    assert_eq!(sys_mmap(&mut k, 0x1000, 0x1000, 0), -1);
    assert_eq!(sys_mmap(&mut k, 0x1000, 0x1000, 8), -1);
    assert_eq!(sys_mmap(&mut k, 0x1000, 0x1000, 0x17), -1);
    assert_eq!(sys_mmap(&mut k, 0x1000, 0x1001, 7), 0);
    let ms = &k.tasks[0].as_ref().unwrap().memory_set;
    assert!(ms.is_mapped(1));
    assert!(ms.is_mapped(2));
    assert!(!ms.is_mapped(3));
    assert_eq!(ms.permission(1), Some(MAP_PERM_U | MAP_PERM_R | MAP_PERM_W | MAP_PERM_X));
    // overlapping mapping is refused
    assert_eq!(sys_mmap(&mut k, 0x2000, 0x1000, 1), -1);
    assert_eq!(sys_mmap(&mut k, 0x3000, 10, 2), 0);
    let ms = &k.tasks[0].as_ref().unwrap().memory_set;
    assert_eq!(ms.permission(3), Some(MAP_PERM_U | MAP_PERM_W));
}

#[test]
fn munmap_needs_every_page_mapped() {
    let mut k = kernel();
    assert_eq!(sys_mmap(&mut k, 0x4000, 0x2000, 1), 0);
    assert_eq!(sys_munmap(&mut k, 0x4001, 0x1000), -1);
    assert_eq!(sys_munmap(&mut k, 0x4000, 0x3000), -1);
    assert!(k.tasks[0].as_ref().unwrap().memory_set.is_mapped(4));
    assert_eq!(sys_munmap(&mut k, 0x5000, 0x1000), 0);
    assert!(!k.tasks[0].as_ref().unwrap().memory_set.is_mapped(5));
    assert!(k.tasks[0].as_ref().unwrap().memory_set.is_mapped(4));
    assert_eq!(sys_munmap(&mut k, 0x5000, 0x1000), -1);
    // a range unmapped can be mapped again
    assert_eq!(sys_mmap(&mut k, 0x5000, 0x1000, 4), 0);
}

#[test]
fn mmap_of_zero_length_maps_nothing() {
    let mut k = kernel();
    assert_eq!(sys_mmap(&mut k, 0x4000, 0, 1), 0);
    assert!(!k.tasks[0].as_ref().unwrap().memory_set.is_mapped(4));
    assert_eq!(sys_munmap(&mut k, 0x4000, 0), 0);
}

#[test]
fn sbrk_moves_the_heap_end() {
    let mut k = kernel();
    assert_eq!(sys_sbrk(&mut k, 0x100), 0x10000);
    assert_eq!(k.tasks[0].as_ref().unwrap().program_brk, 0x10100);
    let ms = &k.tasks[0].as_ref().unwrap().memory_set;
    assert_eq!(ms.permission(0x10), Some(0x16));
    assert!(!ms.is_mapped(0x11));
    assert_eq!(sys_sbrk(&mut k, 0x2000), 0x10100);
    assert!(k.tasks[0].as_ref().unwrap().memory_set.is_mapped(0x12));
    assert_eq!(sys_sbrk(&mut k, -0x2000), 0x12100);
    assert!(!k.tasks[0].as_ref().unwrap().memory_set.is_mapped(0x12));
    assert!(k.tasks[0].as_ref().unwrap().memory_set.is_mapped(0x10));
    assert_eq!(sys_sbrk(&mut k, -0x100), 0x10100);
    assert_eq!(k.tasks[0].as_ref().unwrap().program_brk, 0x10000);
    assert!(!k.tasks[0].as_ref().unwrap().memory_set.is_mapped(0x10));
    assert_eq!(sys_sbrk(&mut k, -1), -1);
    assert_eq!(k.tasks[0].as_ref().unwrap().program_brk, 0x10000);
    assert_eq!(sys_sbrk(&mut k, 0), 0x10000);
}

#[test]
fn set_priority_is_not_supported() {
    assert_eq!(sys_set_priority(16), -1);
    assert_eq!(sys_set_priority(1), -1);
}

#[test]
fn get_time_splits_microseconds() {
    let tv = sys_get_time(3_250_000);
    assert_eq!((tv.sec, tv.usec), (3, 250_000));
    let tv = sys_get_time(999_999);
    assert_eq!((tv.sec, tv.usec), (0, 999_999));
}

#[test]
fn task_info_reports_counts_and_time() {
    let mut k = TaskManager::new(image(0, 0x10000), 120);
    record_syscall(&mut k, 64);
    record_syscall(&mut k, 64);
    record_syscall(&mut k, 410);
    let info = sys_task_info(&k, 500);
    assert_eq!(info.status, TaskStatus::Running);
    assert_eq!(info.syscall_times.len(), 500);
    assert_eq!(info.syscall_times[64], 2);
    assert_eq!(info.syscall_times[410], 1);
    assert_eq!(info.syscall_times[93], 0);
    assert_eq!(info.time, 380);
    assert_eq!(sys_task_info(&k, 100).time, 0);
    // a forked child has its own counters and starts when it first runs
    sys_fork(&mut k);
    sys_yield(&mut k, 700);
    let info = sys_task_info(&k, 750);
    assert_eq!(info.syscall_times[64], 0);
    assert_eq!(info.time, 50);
}

#[test]
fn counters_of_a_kernel_task() {
    let mut c = SyscallCount::new();
    c.count_inc(3);
    assert_eq!(c.count_get(3), 1);
}

#[test]
fn copy_to_user_splits_over_pieces() {
    let src = vec![1u8, 2, 3, 4, 5, 6];
    let mut bufs = vec![vec![0u8; 2], vec![0u8; 3], vec![0u8; 1]];
    copy_to_user(&src, &mut bufs);
    assert_eq!(bufs, vec![vec![1, 2], vec![3, 4, 5], vec![6]]);
    let mut short = vec![vec![0u8; 4]];
    copy_to_user(&src, &mut short);
    assert_eq!(short, vec![vec![1, 2, 3, 4]]);
}

#[test]
fn copy_from_user_joins_the_pieces() {
    let mut dst = vec![0u8; 3];
    copy_from_user(&mut dst, &vec![vec![7, 8, 9]]);
    assert_eq!(dst, vec![7, 8, 9]);
    let mut dst = vec![0u8; 5];
    copy_from_user(&mut dst, &vec![vec![1, 2], vec![], vec![3, 4, 5]]);
    assert_eq!(dst, vec![1, 2, 3, 4, 5]);
    let mut empty: Vec<u8> = Vec::new();
    copy_from_user(&mut empty, &vec![]);
    assert!(empty.is_empty());
}

#[test]
fn mmap_then_munmap_gives_the_space_back() {
    let mut k = kernel();
    assert_eq!(sys_mmap(&mut k, 0x4000, 0x1000, 1), 0);
    let pages = |k: &TaskManager| -> Vec<bool> {
        let ms = &k.tasks[0].as_ref().unwrap().memory_set;
        (0..16).map(|v| ms.is_mapped(v)).collect()
    };
    let before = pages(&k);
    assert_eq!(sys_mmap(&mut k, 0x8000, 0x2001, 3), 0);
    assert_ne!(pages(&k), before);
    assert_eq!(sys_munmap(&mut k, 0x8000, 0x2001), 0);
    assert_eq!(pages(&k), before);
}
