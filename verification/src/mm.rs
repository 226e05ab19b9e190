use vstd::prelude::*;
use crate::config::PAGE_SIZE;

verus! {

/// `x` rounded up to the next multiple of `PAGE_SIZE`.
pub open spec fn page_ceil(x: int) -> int {
    if x % (PAGE_SIZE as int) == 0 {
        x
    } else {
        x - x % (PAGE_SIZE as int) + PAGE_SIZE as int
    }
}

/// Align up to PAGE_SIZE
pub fn align_up_pagesize(x: usize) -> (r: usize)
    requires
        x + PAGE_SIZE - 1 <= usize::MAX,
    ensures
        r == page_ceil(x as int),
        r % PAGE_SIZE == 0,
        x <= r < x + PAGE_SIZE,
{
    let y: usize = x + (PAGE_SIZE - 1);
    let r = y & !(PAGE_SIZE - 1);
    assert(r % 0x1000 == 0 && x <= r < x + 0x1000
        && (x % 0x1000 == 0 ==> r == x)
        && (x % 0x1000 != 0 ==> r == x - x % 0x1000 + 0x1000))
        by (bit_vector)
        requires
            y == x + 0xfff,
            r == y & !0xfffusize,
    ;
    r
}

/// Permission bit: the page can be read.
pub const MAP_PERM_R: u8 = 0x2;
/// Permission bit: the page can be written.
pub const MAP_PERM_W: u8 = 0x4;
/// Permission bit: the page can be executed.
pub const MAP_PERM_X: u8 = 0x8;
/// Permission bit: the page is reachable from user mode.
pub const MAP_PERM_U: u8 = 0x10;

/// The permission bits that an `mmap` port asks for: always user-reachable,
/// and read, write and execute as port bits 0, 1 and 2 say.
pub open spec fn port_permission(port: usize) -> u8 {
    (MAP_PERM_U + 2 * (port % 8)) as u8
}

/// The permission bits for `port`, which is meant to hold only its three
/// lowest bits.
pub fn map_permission(port: usize) -> (perm: u8)
    ensures
        perm == port_permission(port),
        (perm & MAP_PERM_U) != 0,
        ((perm & MAP_PERM_R) != 0) == ((port & 0x1) != 0),
        ((perm & MAP_PERM_W) != 0) == ((port & 0x2) != 0),
        ((perm & MAP_PERM_X) != 0) == ((port & 0x4) != 0),
{
    let r: u8 = if port & 0x1 != 0 { MAP_PERM_R } else { 0 };
    let w: u8 = if port & 0x2 != 0 { MAP_PERM_W } else { 0 };
    let x: u8 = if port & 0x4 != 0 { MAP_PERM_X } else { 0 };
    let permission: u8 = MAP_PERM_U | r | w | x;
    let b0: bool = port & 1 != 0;
    let b1: bool = port & 2 != 0;
    let b2: bool = port & 4 != 0;
    assert(permission == (16 + 2 * (port % 8)) as u8
        && ((permission & 0x10) != 0)
        && (((permission & 0x2) != 0) == ((port & 0x1) != 0))
        && (((permission & 0x4) != 0) == ((port & 0x2) != 0))
        && (((permission & 0x8) != 0) == ((port & 0x4) != 0))) by (bit_vector)
        requires
            b0 == (port & 1 != 0),
            b1 == (port & 2 != 0),
            b2 == (port & 4 != 0),
            r == if b0 { 0x2u8 } else { 0u8 },
            w == if b1 { 0x4u8 } else { 0u8 },
            x == if b2 { 0x8u8 } else { 0u8 },
            permission == ((0x10u8 | r) | w) | x,
    ;
    permission
}

/// Whether a virtual address is the start of a page.
pub fn aligned(va: usize) -> (r: bool)
    ensures
        r == (va % PAGE_SIZE == 0),
{
    va % PAGE_SIZE == 0
}

/// The number of the page that holds `va`.
pub fn floor(va: usize) -> (vpn: usize)
    ensures
        vpn == va / PAGE_SIZE,
{
    va / PAGE_SIZE
}

/// The number of the first page that starts at or after `va`.
pub fn ceil(va: usize) -> (vpn: usize)
    ensures
        vpn == page_ceil(va as int) / PAGE_SIZE as int,
{
    if va == 0 {
        0
    } else {
        let r = (va - 1) / PAGE_SIZE + 1;
        assert(r == page_ceil(va as int) / 4096) by (nonlinear_arith)
            requires
                va > 0,
                r == (va - 1) / 4096 + 1,
                page_ceil(va as int) == if va % 4096 == 0 { va as int } else { va - va % 4096 + 4096 },
        ;
        r
    }
}

} // verus!
