//! A verified model of a small RISC-V Sv39 teaching kernel: physical frame
//! management, three-level page tables, the process table and scheduler, and
//! the system-call logic (brk, mmap, munmap, fork, wait, exit, ...).
//!
//! Hardware state (CSRs, the UART, user data pages) is not modelled; the
//! functions here compute the decisions and the page-table updates, and
//! callers perform the remaining hardware work.
use vstd::prelude::*;

pub mod console;
pub mod mm;
pub mod syscall;
pub mod task;
pub mod trap;
