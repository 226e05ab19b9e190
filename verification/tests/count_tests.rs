use os_syscall::config::MAX_SYSCALL_NUM;
use os_syscall::syscall_count::{count_get, count_inc, SyscallCount};

#[test]
fn counters_start_at_zero() {
    let c = SyscallCount::new();
    for id in 0..MAX_SYSCALL_NUM {
        assert_eq!(count_get(&c, id), 0);
    }
}

#[test]
fn count_inc_adds_one_to_its_counter_only() {
    let mut c = SyscallCount::new();
    count_inc(&mut c, 93);
    count_inc(&mut c, 93);
    count_inc(&mut c, 499);
    assert_eq!(count_get(&c, 93), 2);
    assert_eq!(count_get(&c, 499), 1);
    assert_eq!(count_get(&c, 0), 0);
    assert_eq!(c.count_get(92), 0);
}
