//! Linux error numbers, page rounding and `mmap` protection bits.
use vstd::prelude::*;

use crate::mm::page_table::{spec_flag_bits, PTEFlags};

verus! {

pub const EAGAIN: isize = 11;

pub const EBADF: isize = 9;

pub const ECHILD: isize = 10;

pub const EFAULT: isize = 14;

pub const EINVAL: isize = 22;

pub const ENOMEM: isize = 12;

pub const ERANGE: isize = 34;

pub const ENOSYS: isize = 38;

pub const PROT_READ: usize = 0x1;

pub const PROT_WRITE: usize = 0x2;

pub const PROT_EXEC: usize = 0x4;

pub const MAP_PRIVATE: usize = 0x02;

pub const MAP_FIXED: usize = 0x10;

pub const MAP_ANONYMOUS: usize = 0x20;

pub const PAGE_SIZE: usize = 4096;

/// The value a system call returns for error `errno`: `-errno` as an
/// unsigned word.
pub open spec fn spec_linux_error(errno: isize) -> usize {
    (-errno) as usize
}

pub fn linux_error(errno: isize) -> (r: usize)
    requires
        errno > isize::MIN,
    ensures
        r == spec_linux_error(errno),
{
    (-errno) as usize
}

/// `addr` rounded up to a multiple of the page size.
pub open spec fn spec_align_up(addr: int) -> int {
    ((addr + 4095) / 4096) * 4096
}

pub fn align_up(addr: usize) -> (r: usize)
    requires
        addr <= usize::MAX - 4095,
    ensures
        r == spec_align_up(addr as int),
        r % 4096 == 0,
        addr <= r < addr + 4096,
{
    let s: usize = addr + 4095;
    assert(s & !4095usize == (s / 4096) * 4096) by (bit_vector);
    s & !(PAGE_SIZE - 1)
}

/// `addr` rounded up to a page boundary, or `None` when that overflows.
pub fn checked_align_up(addr: usize) -> (r: Option<usize>)
    ensures
        match r {
            Some(a) => addr <= usize::MAX - 4095 && a == spec_align_up(addr as int),
            None => addr > usize::MAX - 4095,
        },
{
    if addr > usize::MAX - (PAGE_SIZE - 1) {
        None
    } else {
        Some(align_up(addr))
    }
}

/// The page flags for `mmap` protection bits `prot`: user pages, readable
/// when readable or writable; `None` for unknown bits or no access at all.
pub open spec fn spec_pte_flags_from_prot(prot: usize) -> Option<u8> {
    if prot & !7usize != 0 || prot == 0 {
        None
    } else {
        Some(
            spec_flag_bits(
                prot & PROT_READ != 0 || prot & PROT_WRITE != 0,
                prot & PROT_WRITE != 0,
                prot & PROT_EXEC != 0,
                true,
            ),
        )
    }
}

/// Every protection made of read, write and exec bits, and not empty, is
/// accepted; its page is valid and user-accessible, readable when it may be
/// read or written, writable when it may be written, and executable when it
/// may be executed. Anything else is refused.
pub proof fn law_protection_flags(prot: usize)
    ensures
        (spec_pte_flags_from_prot(prot) is None) == (prot == 0 || prot > 7),
        spec_pte_flags_from_prot(prot) matches Some(f) ==> {
            &&& f & 1u8 != 0
            &&& f & 16u8 != 0
            &&& (f & 2u8 != 0) == (prot & PROT_READ != 0 || prot & PROT_WRITE != 0)
            &&& (f & 4u8 != 0) == (prot & PROT_WRITE != 0)
            &&& (f & 8u8 != 0) == (prot & PROT_EXEC != 0)
            &&& f < 32
        },
{
    assert((prot & !7usize != 0) == (prot > 7)) by (bit_vector);
    crate::mm::page_table::lemma_flag_bits(
        prot & PROT_READ != 0 || prot & PROT_WRITE != 0,
        prot & PROT_WRITE != 0,
        prot & PROT_EXEC != 0,
        true,
    );
}

pub fn pte_flags_from_prot(prot: usize) -> (r: Option<PTEFlags>)
    ensures
        match r {
            Some(f) => spec_pte_flags_from_prot(prot) == Some(f.0),
            None => spec_pte_flags_from_prot(prot) is None,
        },
        (r is None) == (prot == 0 || prot > 7),
        r matches Some(f) ==> {
            &&& f.0 & 1u8 != 0
            &&& f.0 & 16u8 != 0
            &&& (f.0 & 2u8 != 0) == (prot & PROT_READ != 0 || prot & PROT_WRITE != 0)
            &&& (f.0 & 4u8 != 0) == (prot & PROT_WRITE != 0)
            &&& (f.0 & 8u8 != 0) == (prot & PROT_EXEC != 0)
            &&& f.0 < 32
        },
{
    proof {
        law_protection_flags(prot);
    }
    assert(PROT_READ | PROT_WRITE | PROT_EXEC == 7usize) by (bit_vector);
    if prot & !(PROT_READ | PROT_WRITE | PROT_EXEC) != 0 {
        return None;
    }
    if prot == 0 {
        return None;
    }
    let writable = prot & PROT_WRITE != 0;
    let readable = prot & PROT_READ != 0 || writable;
    let executable = prot & PROT_EXEC != 0;
    Some(PTEFlags::new(readable, writable, executable, true))
}

/// Whether `[a_start, a_end)` and `[b_start, b_end)` intersect.
pub fn ranges_overlap(a_start: usize, a_end: usize, b_start: usize, b_end: usize) -> (r: bool)
    ensures
        r == (a_start < b_end && b_start < a_end),
{
    a_start < b_end && b_start < a_end
}

/// Rounding up to a page keeps order, and keeps page-aligned bounds.
pub proof fn lemma_align_up_mono(a: int, b: int)
    requires
        0 <= a <= b,
    ensures
        spec_align_up(a) <= spec_align_up(b),
        b % 4096 == 0 ==> spec_align_up(b) == b,
        spec_align_up(a) % 4096 == 0,
        a <= spec_align_up(a) < a + 4096,
{
    assert(spec_align_up(a) <= spec_align_up(b)) by (nonlinear_arith)
        requires
            0 <= a <= b,
    ;
    assert(b % 4096 == 0 ==> spec_align_up(b) == b) by (nonlinear_arith);
    assert(spec_align_up(a) % 4096 == 0 && a <= spec_align_up(a) < a + 4096) by (nonlinear_arith)
        requires
            a >= 0,
    ;
}

/// Protection bits that pass the check ask for some access.
pub proof fn lemma_prot_some_access(prot: usize)
    requires
        prot & !7usize == 0,
        prot != 0,
    ensures
        prot & PROT_READ != 0 || prot & PROT_WRITE != 0 || prot & PROT_EXEC != 0,
{
    assert(prot & 1usize != 0 || prot & 2usize != 0 || prot & 4usize != 0) by (bit_vector)
        requires
            prot & !7usize == 0,
            prot != 0,
    ;
}

} // verus!
