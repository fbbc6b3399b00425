use lib::mm::boot::{boot, Booted, CodeChunk, USER_CODE_BASE, USER_STACK_PAGE, USER_STACK_TOP};
use lib::mm::page_table::{PTEntry, PhysAddr, VirtAddr};
use lib::syscall::dispatch::{
    uname_image, word_bytes, SyscallOutcome, SYS_BRK, SYS_EXEC, SYS_EXIT, SYS_FORK, SYS_GETCWD,
    SYS_GETEUID, SYS_GETPID, SYS_GETPPID, SYS_GETTID, SYS_GETUID, SYS_MMAP, SYS_MUNMAP, SYS_READ,
    SYS_UNAME, SYS_WAIT, SYS_WRITE,
};
use lib::syscall::errno::linux_error;
use lib::syscall::kernel::Kernel;
use lib::syscall::wait::WaitResult;
use lib::task::process::{ProcessState, USER_HEAP_START};
use lib::trap::{CowResult, FaultOutcome};

const BUF: usize = USER_STACK_PAGE + 0xe00;

fn booted() -> Booted {
    boot(PhysAddr(0x8020_0000), 600).expect("boot")
}

fn ret(k: &mut Kernel, no: usize, args: [usize; 6]) -> usize {
    match k.dispatch(no, args) {
        SyscallOutcome::Return(v) => v,
        other => panic!("unexpected outcome {:?}", other),
    }
}

fn entry(k: &Kernel, va: usize) -> Option<PTEntry> {
    let pt = k.sched.current().page_table;
    pt.lookup(&k.ram, VirtAddr(va)).map(|s| PTEntry(k.ram.read_pte(s.table, s.index)))
}

#[test]
fn boot_sets_up_init() {
    let b = booted();
    assert_eq!(b.chunks, vec![CodeChunk { frame: b.chunks[0].frame, offset: 0, len: 600 }]);
    let k = &b.kernel;
    assert_eq!(k.sched.current, 0);
    assert_eq!(k.sched.next_pid, 2);
    let init = k.sched.current();
    assert_eq!(init.pid, 1);
    assert_eq!(init.parent_pid, 0);
    assert_eq!(init.state, ProcessState::Running);
    assert_eq!(init.trap_frame.sepc, USER_CODE_BASE);
    assert_eq!(init.trap_frame.regs[2], USER_STACK_TOP);
    assert_eq!(init.heap_start, USER_HEAP_START);
    assert_eq!(init.heap_end, USER_HEAP_START);
    assert_eq!(init.kernel_sp, init.kernel_stack_frame.0 + 0x8000);
    assert_eq!(b.satp, init.page_table.satp_val());
    let code = entry(k, USER_CODE_BASE).unwrap();
    assert!(code.is_u() && code.is_r() && code.is_x() && !code.is_w());
    assert_eq!(code.ppn_to_addr(), b.chunks[0].frame);
    let stack = entry(k, USER_STACK_PAGE).unwrap();
    assert!(stack.is_u() && stack.is_r() && stack.is_w());
    let uart = entry(k, 0x1000_0000).unwrap();
    assert!(uart.is_valid() && !uart.is_u() && uart.ppn_to_addr() == PhysAddr(0x1000_0000));
    let kernel = entry(k, 0x8010_0000).unwrap();
    assert!(kernel.is_x() && !kernel.is_u() && kernel.ppn_to_addr() == PhysAddr(0x8010_0000));
    for i in 1..32 {
        assert!(k.sched.procs[i].is_none());
    }
}

#[test]
fn boot_cuts_the_program_into_pages() {
    let b = boot(PhysAddr(0x8020_0000), 4097).unwrap();
    assert_eq!(b.chunks.len(), 2);
    assert_eq!((b.chunks[0].offset, b.chunks[0].len), (0, 4096));
    assert_eq!((b.chunks[1].offset, b.chunks[1].len), (4096, 1));
    let second = entry(&b.kernel, USER_CODE_BASE + 4096).unwrap();
    assert_eq!(second.ppn_to_addr(), b.chunks[1].frame);
}

#[test]
fn identity_syscalls_of_init() {
    let mut k = booted().kernel;
    assert_eq!(ret(&mut k, SYS_GETPID, [0; 6]), 1);
    assert_eq!(ret(&mut k, SYS_GETTID, [0; 6]), 1);
    assert_eq!(ret(&mut k, SYS_GETPPID, [0; 6]), 0);
    assert_eq!(ret(&mut k, SYS_GETUID, [0; 6]), 0);
    assert_eq!(ret(&mut k, SYS_GETEUID, [0; 6]), 0);
    assert_eq!(ret(&mut k, 9999, [0; 6]), linux_error(38));
}

#[test]
fn uname_copies_the_names() {
    let mut k = booted().kernel;
    match k.dispatch(SYS_UNAME, [BUF, 0, 0, 0, 0, 0]) {
        SyscallOutcome::CopyOut { dst, data, ret } => {
            assert_eq!((dst, ret), (BUF, 0));
            assert_eq!(data.len(), 390);
            assert_eq!(&data[0..7], b"Unit00\0");
            assert_eq!(&data[65..72], b"unit00\0");
            assert_eq!(&data[130..136], b"0.1.0\0");
            assert_eq!(&data[195..217], b"oskernel-2026 stage-1\0");
            assert_eq!(&data[260..268], b"riscv64\0");
            assert_eq!(&data[325..337], b"localdomain\0");
            assert!(data[337..390].iter().all(|&b| b == 0));
            assert_eq!(data, uname_image());
        },
        other => panic!("unexpected {:?}", other),
    }
    // a buffer that is not user memory
    assert_eq!(ret(&mut k, SYS_UNAME, [0x8000_0000, 0, 0, 0, 0, 0]), linux_error(14));
}

#[test]
fn getcwd_reports_root() {
    let mut k = booted().kernel;
    match k.dispatch(SYS_GETCWD, [BUF, 16, 0, 0, 0, 0]) {
        SyscallOutcome::CopyOut { dst, data, ret } => {
            assert_eq!((dst, ret), (BUF, 2));
            assert_eq!(data, vec![b'/', 0]);
        },
        other => panic!("unexpected {:?}", other),
    }
    assert_eq!(ret(&mut k, SYS_GETCWD, [BUF, 1, 0, 0, 0, 0]), linux_error(34));
    assert_eq!(ret(&mut k, SYS_GETCWD, [0, 16, 0, 0, 0, 0]), linux_error(14));
}

#[test]
fn read_and_write_check_fd_and_buffer() {
    let mut k = booted().kernel;
    assert!(matches!(k.dispatch(SYS_WRITE, [1, BUF, 3, 0, 0, 0]), SyscallOutcome::WriteConsole { buf: BUF, len: 3 }));
    assert!(matches!(k.dispatch(SYS_WRITE, [2, BUF, 3, 0, 0, 0]), SyscallOutcome::WriteConsole { buf: BUF, len: 3 }));
    assert_eq!(ret(&mut k, SYS_WRITE, [9, BUF, 1, 0, 0, 0]), linux_error(9));
    // code pages may be read, not written
    assert!(matches!(k.dispatch(SYS_WRITE, [1, USER_CODE_BASE, 16, 0, 0, 0]), SyscallOutcome::WriteConsole { .. }));
    assert_eq!(ret(&mut k, SYS_READ, [0, USER_CODE_BASE, 16, 0, 0, 0]), linux_error(14));
    assert!(matches!(k.dispatch(SYS_READ, [0, BUF, 8, 0, 0, 0]), SyscallOutcome::ReadConsole { buf: BUF, len: 8 }));
    assert_eq!(ret(&mut k, SYS_READ, [3, BUF, 8, 0, 0, 0]), linux_error(9));
    // a buffer running past the stack page touches an unmapped page
    assert_eq!(ret(&mut k, SYS_WRITE, [1, USER_STACK_TOP - 4, 8, 0, 0, 0]), linux_error(14));
    // an empty buffer is always fine
    assert!(matches!(k.dispatch(SYS_WRITE, [1, 0, 0, 0, 0, 0]), SyscallOutcome::WriteConsole { buf: 0, len: 0 }));
}

#[test]
fn brk_grows_and_shrinks_the_heap() {
    let mut k = booted().kernel;
    assert_eq!(ret(&mut k, SYS_BRK, [0; 6]), 0x20000);
    assert_eq!(ret(&mut k, SYS_BRK, [0x20008, 0, 0, 0, 0, 0]), 0x20008);
    let heap = entry(&k, 0x20000).unwrap();
    assert!(heap.is_u() && heap.is_r() && heap.is_w() && !heap.is_x());
    assert_eq!(ret(&mut k, SYS_BRK, [0x22000, 0, 0, 0, 0, 0]), 0x22000);
    assert!(entry(&k, 0x21000).unwrap().is_valid());
    assert_eq!(ret(&mut k, SYS_BRK, [0x20000, 0, 0, 0, 0, 0]), 0x20000);
    assert_eq!(entry(&k, 0x20000).unwrap().0, 0);
    assert_eq!(entry(&k, 0x21000).unwrap().0, 0);
    assert_eq!(ret(&mut k, SYS_BRK, [0x3f00_0000, 0, 0, 0, 0, 0]), 0x20000);
    assert_eq!(ret(&mut k, SYS_BRK, [0x1000, 0, 0, 0, 0, 0]), 0x20000);
    assert_eq!(k.sched.current().heap_end, 0x20000);
}

#[test]
fn mmap_and_munmap() {
    let mut k = booted().kernel;
    let minus_one = usize::MAX;
    let a = ret(&mut k, SYS_MMAP, [0, 8192, 3, 0x22, minus_one, 0]);
    assert_eq!(a, 0x3e00_0000);
    assert!(entry(&k, a).unwrap().is_w());
    assert!(entry(&k, a + 4096).unwrap().is_w());
    let area = k.sched.current().mmap_areas[0];
    assert!(area.used && area.start == a && area.len == 8192 && area.prot == 3 && area.flags == 0x22);
    assert_eq!(ret(&mut k, SYS_MUNMAP, [a, 4096, 0, 0, 0, 0]), 0);
    assert_eq!(entry(&k, a).unwrap().0, 0);
    assert!(entry(&k, a + 4096).unwrap().is_w());
    let area = k.sched.current().mmap_areas[0];
    assert!(area.used && area.start == a + 4096 && area.len == 4096);
    assert_eq!(ret(&mut k, SYS_MUNMAP, [a + 4096, 4096, 0, 0, 0, 0]), 0);
    assert!(!k.sched.current().mmap_areas[0].used);
    assert_eq!(ret(&mut k, SYS_MUNMAP, [a + 1, 4096, 0, 0, 0, 0]), linux_error(22));
    assert_eq!(ret(&mut k, SYS_MUNMAP, [a, 0, 0, 0, 0, 0]), linux_error(22));
    assert_eq!(ret(&mut k, SYS_MUNMAP, [0x1000, 4096, 0, 0, 0, 0]), linux_error(22));
    // file-backed, shared and fixed mappings are not supported
    assert_eq!(ret(&mut k, SYS_MMAP, [0, 4096, 3, 0x2, minus_one, 0]), linux_error(38));
    assert_eq!(ret(&mut k, SYS_MMAP, [0, 4096, 3, 0x21, minus_one, 0]), linux_error(38));
    assert_eq!(ret(&mut k, SYS_MMAP, [0, 4096, 3, 0x32, minus_one, 0]), linux_error(38));
    // bad length, offset or protection
    assert_eq!(ret(&mut k, SYS_MMAP, [0, 0, 3, 0x22, minus_one, 0]), linux_error(22));
    assert_eq!(ret(&mut k, SYS_MMAP, [0, 4096, 3, 0x22, minus_one, 12]), linux_error(22));
    assert_eq!(ret(&mut k, SYS_MMAP, [0, 4096, 0, 0x22, minus_one, 0]), linux_error(22));
    // too large for the mmap region
    assert_eq!(ret(&mut k, SYS_MMAP, [0, 0x0200_0000, 3, 0x22, minus_one, 0]), linux_error(12));
}

#[test]
fn exec_restarts_the_program() {
    let mut k = booted().kernel;
    assert_eq!(ret(&mut k, SYS_BRK, [0x21000, 0, 0, 0, 0, 0]), 0x21000);
    assert_eq!(ret(&mut k, SYS_MMAP, [0, 4096, 3, 0x22, usize::MAX, 0]), 0x3e00_0000);
    assert_eq!(ret(&mut k, SYS_EXEC, [0; 6]), 0);
    let p = k.sched.current();
    assert_eq!(p.trap_frame.sepc, 0x10000);
    assert_eq!(p.trap_frame.regs[2], 0x3F00_1000);
    assert_eq!(p.heap_end, p.heap_start);
    assert!(p.mmap_areas.iter().all(|a| !a.used));
}

#[test]
fn fork_shares_pages_copy_on_write_and_wait_reaps_the_child() {
    let mut k = booted().kernel;
    let stack_frame = entry(&k, USER_STACK_PAGE).unwrap().ppn_to_addr();
    let code_frame = entry(&k, USER_CODE_BASE).unwrap().ppn_to_addr();
    k.sched.procs[0].as_mut().unwrap().trap_frame.sepc = 0x10040;
    assert_eq!(ret(&mut k, SYS_FORK, [0; 6]), 2);
    // the parent's writable page became read-only copy-on-write
    let pe = entry(&k, USER_STACK_PAGE).unwrap();
    assert!(pe.is_cow() && !pe.is_w() && pe.is_r() && pe.is_u());
    assert_eq!(k.ram.get_ref(stack_frame), 2);
    assert_eq!(k.ram.get_ref(code_frame), 2);
    let child = k.sched.procs[1].unwrap();
    assert_eq!(child.pid, 2);
    assert_eq!(child.parent_pid, 1);
    assert_eq!(child.state, ProcessState::Ready);
    assert_eq!(child.trap_frame.regs[10], 0);
    assert_eq!(child.trap_frame.sepc, 0x10044);
    assert_eq!(child.trap_frame.scause, 8);
    assert_eq!(child.kernel_sp, child.kernel_stack_frame.0 + 0x8000);
    // the child maps the same frames, copy-on-write where the parent is
    let ce = child.page_table.lookup(&k.ram, VirtAddr(USER_STACK_PAGE)).map(|s| PTEntry(k.ram.read_pte(s.table, s.index))).unwrap();
    assert!(ce.is_cow() && !ce.is_w() && ce.ppn_to_addr() == stack_frame);
    let cc = child.page_table.lookup(&k.ram, VirtAddr(USER_CODE_BASE)).map(|s| PTEntry(k.ram.read_pte(s.table, s.index))).unwrap();
    assert!(!cc.is_cow() && cc.is_x() && cc.ppn_to_addr() == code_frame);
    // the kernel half is shared
    let kroot_p = k.ram.read_pte(k.sched.current().page_table.root, 2);
    let kroot_c = k.ram.read_pte(child.page_table.root, 2);
    assert_eq!(kroot_p, kroot_c);
    assert_ne!(kroot_p, 0);

    // the parent waits: the child is alive, so the parent blocks
    assert!(matches!(k.dispatch(SYS_WAIT, [BUF, 0, 0, 0, 0, 0]), SyscallOutcome::Reschedule));
    assert_eq!(k.sched.current().state, ProcessState::Blocked);
    let frame = k.sched.current().trap_frame;
    let sw = k.sched.schedule(frame).unwrap();
    assert_eq!(k.sched.current, 1);
    assert_eq!(sw.satp, child.page_table.satp_val());
    assert_eq!(sw.frame_sp, child.kernel_sp - 288);
    assert_eq!(k.sched.current().state, ProcessState::Running);

    // the child exits with 42: its user pages are released, the parent wakes
    assert!(matches!(k.dispatch(SYS_EXIT, [42, 0, 0, 0, 0, 0]), SyscallOutcome::Reschedule));
    assert_eq!(k.sched.procs[1].unwrap().state, ProcessState::Zombie(42));
    assert_eq!(k.sched.procs[0].unwrap().state, ProcessState::Ready);
    assert_eq!(k.ram.get_ref(stack_frame), 1);
    let frame = k.sched.current().trap_frame;
    k.sched.schedule(frame).unwrap();
    assert_eq!(k.sched.current, 0);

    // now the wait reaps the child and hands back its code
    let free_before = k.ram.free_list.len();
    match k.dispatch(SYS_WAIT, [BUF, 0, 0, 0, 0, 0]) {
        SyscallOutcome::CopyOut { dst, data, ret } => {
            assert_eq!((dst, ret), (BUF, 2));
            assert_eq!(data, 42u64.to_le_bytes().to_vec());
        },
        other => panic!("unexpected {:?}", other),
    }
    assert_eq!(k.sched.procs[1].unwrap().state, ProcessState::Gone);
    // stack (8), root and the child's lower-half tables went back to the allocator
    assert!(k.ram.free_list.len() >= free_before + 9);
    // the parent's stack page was shared no longer, so it is writable again in place
    let pe = entry(&k, USER_STACK_PAGE).unwrap();
    assert!(pe.is_w() && !pe.is_cow() && pe.ppn_to_addr() == stack_frame);
    // no children left
    assert_eq!(ret(&mut k, SYS_WAIT, [0; 6]), linux_error(10));
}

#[test]
fn wait_without_pointer_returns_the_pid() {
    let mut k = booted().kernel;
    assert_eq!(ret(&mut k, SYS_FORK, [0; 6]), 2);
    let mut child = k.sched.procs[1].unwrap();
    child.state = ProcessState::Zombie(7);
    k.sched.procs[1] = Some(child);
    assert_eq!(k.sys_wait(0), WaitResult::Reaped { pid: 2, code: 7 });
    assert_eq!(ret(&mut k, SYS_WAIT, [0; 6]), linux_error(10));
}

#[test]
fn fork_fails_when_the_table_is_full() {
    let mut k = booted().kernel;
    let init = *k.sched.current();
    for i in 1..32 {
        k.sched.procs[i] = Some(init);
    }
    assert_eq!(ret(&mut k, SYS_FORK, [0; 6]), linux_error(11));
}

#[test]
fn store_fault_on_a_shared_page_copies_it() {
    let mut k = booted().kernel;
    let stack_frame = entry(&k, USER_STACK_PAGE).unwrap().ppn_to_addr();
    assert_eq!(ret(&mut k, SYS_FORK, [0; 6]), 2);
    match k.page_fault_handler(15, USER_STACK_PAGE + 8) {
        FaultOutcome::Resolved(CowResult::Copied { from, to }) => {
            assert_eq!(from, stack_frame);
            let e = entry(&k, USER_STACK_PAGE).unwrap();
            assert!(e.is_w() && !e.is_cow() && e.is_u() && e.ppn_to_addr() == to);
            assert_eq!(k.ram.get_ref(stack_frame), 1);
            assert_eq!(k.ram.get_ref(to), 1);
        },
        other => panic!("unexpected {:?}", other),
    }
    // the child's page is now the only mapping of the old frame
    let child = k.sched.procs[1].unwrap();
    let ce = child.page_table.lookup(&k.ram, VirtAddr(USER_STACK_PAGE)).map(|s| PTEntry(k.ram.read_pte(s.table, s.index))).unwrap();
    assert_eq!(ce.ppn_to_addr(), stack_frame);
}

#[test]
fn other_faults_kill_the_process() {
    let mut k = booted().kernel;
    // a store to a page that is writable already is no copy-on-write fault
    assert_eq!(k.page_fault_handler(15, USER_STACK_PAGE), FaultOutcome::Killed);
    assert_eq!(k.sched.current().state, ProcessState::Zombie(1));
    let mut k = booted().kernel;
    assert_eq!(k.page_fault_handler(13, 0x5000_0000), FaultOutcome::Killed);
    assert_eq!(k.sched.current().state, ProcessState::Zombie(1));
}

#[test]
fn exit_word_bytes_are_little_endian() {
    assert_eq!(word_bytes(0x0102_0304_0506_0708), vec![8, 7, 6, 5, 4, 3, 2, 1]);
    assert_eq!(word_bytes(42), vec![42, 0, 0, 0, 0, 0, 0, 0]);
}

#[test]
fn boot_fails_without_room_above_the_kernel() {
    assert!(boot(PhysAddr(0x8800_0000), 600).is_none());
    assert!(boot(PhysAddr(0x87ff_f000), 600).is_none());
    assert!(boot(PhysAddr(0x8400_0000), 600).is_some());
}

#[test]
fn brk_fails_when_a_heap_page_is_already_mapped() {
    let mut k = booted().kernel;
    let pt = k.sched.current().page_table;
    let frame = k.ram.alloc_frame().unwrap();
    assert!(pt.map(&mut k.ram, VirtAddr(0x21000), frame, lib::mm::page_table::PTEFlags::new(true, true, false, true)));
    // the first page is mapped and then undone when the second is found taken
    assert_eq!(ret(&mut k, SYS_BRK, [0x22000, 0, 0, 0, 0, 0]), 0x20000);
    assert_eq!(k.sched.current().heap_end, 0x20000);
    assert!(!entry(&k, 0x20000).unwrap().is_valid());
    assert_eq!(entry(&k, 0x21000).unwrap().ppn_to_addr(), frame);
}

#[test]
fn brk_and_mmap_fail_when_ram_is_exhausted() {
    let mut k = booted().kernel;
    k.ram.free_list.clear();
    k.ram.next_frame = 0x8800_0000;
    assert_eq!(ret(&mut k, SYS_BRK, [0x21000, 0, 0, 0, 0, 0]), 0x20000);
    assert_eq!(ret(&mut k, SYS_MMAP, [0, 4096, 3, 0x22, usize::MAX, 0]), linux_error(12));
    assert!(!k.sched.current().mmap_areas[0].used);
}

#[test]
fn read_into_an_unshared_copy_on_write_page_needs_no_free_frame() {
    let mut k = booted().kernel;
    let stack_frame = entry(&k, USER_STACK_PAGE).unwrap().ppn_to_addr();
    assert_eq!(ret(&mut k, SYS_FORK, [0; 6]), 2);
    // the child exits, so the parent's copy-on-write stack is its own again
    assert!(matches!(k.dispatch(SYS_WAIT, [0; 6]), SyscallOutcome::Reschedule));
    let frame = k.sched.current().trap_frame;
    k.sched.schedule(frame).unwrap();
    assert_eq!(k.sched.current().pid, 2);
    assert!(matches!(k.dispatch(SYS_EXIT, [0; 6]), SyscallOutcome::Reschedule));
    let frame = k.sched.current().trap_frame;
    k.sched.schedule(frame).unwrap();
    assert_eq!(k.sched.current().pid, 1);
    assert_eq!(ret(&mut k, SYS_WAIT, [0; 6]), 2);
    assert_eq!(k.ram.get_ref(stack_frame), 1);
    assert!(entry(&k, USER_STACK_PAGE).unwrap().is_cow());
    k.ram.free_list.clear();
    k.ram.next_frame = 0x8800_0000;
    assert!(matches!(k.dispatch(SYS_READ, [0, BUF, 8, 0, 0, 0]), SyscallOutcome::ReadConsole { buf: BUF, len: 8 }));
    let e = entry(&k, USER_STACK_PAGE).unwrap();
    assert!(e.is_w() && !e.is_cow() && e.ppn_to_addr() == stack_frame);
}

#[test]
fn munmap_of_a_fresh_mapping_restores_the_areas() {
    let mut k = booted().kernel;
    let a = ret(&mut k, SYS_MMAP, [0, 8192, 3, 0x22, usize::MAX, 0]);
    let before = k.sched.current().mmap_areas;
    let b = ret(&mut k, SYS_MMAP, [0, 4096, 1, 0x22, usize::MAX, 0]);
    assert_eq!(b, a + 8192);
    assert_eq!(ret(&mut k, SYS_MUNMAP, [b, 4096, 0, 0, 0, 0]), 0);
    assert_eq!(k.sched.current().mmap_areas, before);
    assert_eq!(entry(&k, b).unwrap().0, 0);
}

#[test]
fn brk_back_to_the_old_break_undoes_growth() {
    let mut k = booted().kernel;
    let before = *k.sched.current();
    assert_eq!(ret(&mut k, SYS_BRK, [0x23000, 0, 0, 0, 0, 0]), 0x23000);
    assert!(entry(&k, 0x22000).unwrap().is_valid());
    assert_eq!(ret(&mut k, SYS_BRK, [before.heap_end, 0, 0, 0, 0, 0]), before.heap_end);
    let after = *k.sched.current();
    assert_eq!((after.heap_start, after.heap_end), (before.heap_start, before.heap_end));
    assert_eq!(after.page_table, before.page_table);
    for va in [0x20000, 0x21000, 0x22000] {
        assert!(!entry(&k, va).unwrap().is_valid());
    }
}

#[test]
fn a_fault_in_the_child_leaves_the_parent_page_alone() {
    let mut k = booted().kernel;
    let stack_frame = entry(&k, USER_STACK_PAGE).unwrap().ppn_to_addr();
    assert_eq!(ret(&mut k, SYS_FORK, [0; 6]), 2);
    let parent_pt = k.sched.current().page_table;
    let parent_entry = entry(&k, USER_STACK_PAGE).unwrap();
    assert!(matches!(k.dispatch(SYS_WAIT, [0; 6]), SyscallOutcome::Reschedule));
    let frame = k.sched.current().trap_frame;
    k.sched.schedule(frame).unwrap();
    assert_eq!(k.sched.current().pid, 2);
    match k.page_fault_handler(15, USER_STACK_PAGE + 16) {
        FaultOutcome::Resolved(CowResult::Copied { from, to }) => {
            assert_eq!(from, stack_frame);
            let e = entry(&k, USER_STACK_PAGE).unwrap();
            assert!(e.is_w() && !e.is_cow() && e.ppn_to_addr() == to);
        },
        other => panic!("unexpected {:?}", other),
    }
    let pe = parent_pt.lookup(&k.ram, VirtAddr(USER_STACK_PAGE)).map(|s| PTEntry(k.ram.read_pte(s.table, s.index))).unwrap();
    assert_eq!(pe, parent_entry);
}
