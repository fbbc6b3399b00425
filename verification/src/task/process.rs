//! Processes and their memory-map bookkeeping.
use vstd::prelude::*;

use crate::mm::page_table::{PageTable, PhysAddr};
use crate::task::trapframe::TrapFrame;

verus! {

/// End of the lower half (the first `KERNEL_VPN2_MIN` root entries, 2 GiB):
/// all user memory lies below it.
pub const USER_SPACE_TOP: usize = 0x8000_0000;

pub const USER_HEAP_START: usize = 0x2_0000;

pub const USER_HEAP_LIMIT: usize = 0x3e00_0000;

pub const USER_MMAP_START: usize = 0x3e00_0000;

pub const USER_MMAP_LIMIT: usize = 0x3f00_0000;

pub const MAX_MMAP_AREAS: usize = 32;

pub const KERNEL_STACK_PAGES: usize = 8;

pub const KERNEL_STACK_SIZE: usize = 0x8000;

/// One anonymous mapping made by `mmap`: `[start, start + len)`.
#[derive(Clone, Copy, PartialEq, Eq, Structural, Debug)]
pub struct MmapArea {
    pub start: usize,
    pub len: usize,
    pub prot: usize,
    pub flags: usize,
    pub used: bool,
}

impl MmapArea {
    /// An unused slot.
    pub fn empty() -> (r: Self)
        ensures
            r == (MmapArea { start: 0, len: 0, prot: 0, flags: 0, used: false }),
    {
        MmapArea { start: 0, len: 0, prot: 0, flags: 0, used: false }
    }

    /// First address past the area.
    pub fn end(&self) -> (r: usize)
        requires
            self.start + self.len <= usize::MAX,
        ensures
            r == self.start + self.len,
    {
        self.start + self.len
    }
}

#[derive(Clone, Copy, PartialEq, Eq, Structural, Debug)]
pub enum ProcessState {
    Ready,
    Running,
    Blocked,
    Zombie(usize),
    Gone,
}

#[derive(Clone, Copy, Debug)]
pub struct Process {
    pub pid: usize,
    pub parent_pid: usize,
    pub state: ProcessState,
    pub page_table: PageTable,
    pub trap_frame: TrapFrame,
    pub kernel_sp: usize,
    pub kernel_stack_frame: PhysAddr,
    pub heap_start: usize,
    pub heap_end: usize,
    pub mmap_areas: [MmapArea; MAX_MMAP_AREAS],
}

} // verus!
