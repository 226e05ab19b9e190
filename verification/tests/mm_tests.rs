use os_syscall::mm::align_up_pagesize;

#[test]
fn align_up_rounds_to_page() {
    assert_eq!(align_up_pagesize(0), 0);
    assert_eq!(align_up_pagesize(1), 4096);
    assert_eq!(align_up_pagesize(4096), 4096);
    assert_eq!(align_up_pagesize(4097), 8192);
}

use os_syscall::memory_set::MemorySet;
use os_syscall::mm::{aligned, ceil, floor, map_permission};

#[test]
fn page_numbers() {
    assert!(aligned(0x3000));
    assert!(!aligned(0x3001));
    assert_eq!(floor(0x3fff), 3);
    assert_eq!(ceil(0x3001), 4);
    assert_eq!(ceil(0x3000), 3);
    assert_eq!(ceil(0), 0);
    assert_eq!(ceil(usize::MAX), usize::MAX / 4096 + 1);
}

#[test]
fn port_bits_become_permission_bits() {
    assert_eq!(map_permission(1), 0x12);
    assert_eq!(map_permission(2), 0x14);
    assert_eq!(map_permission(4), 0x18);
    assert_eq!(map_permission(7), 0x1e);
}

#[test]
fn map_then_unmap_restores_the_space() {
    let mut ms = MemorySet::new();
    assert_eq!(ms.mmap(2, 5, 0x12), 0);
    assert_eq!(ms.mmap(4, 6, 0x12), -1);
    assert!(!ms.is_mapped(5));
    assert_eq!(ms.munmap(2, 5), 0);
    for v in 0..8 {
        assert!(!ms.is_mapped(v));
    }
    let copy = ms.from_existed_user();
    assert!(!copy.is_mapped(2));
}
