use lib::mm::boot::boot;
use lib::mm::frame::{frame_index, Ram};
use lib::mm::page_table::{PTEFlags, PTEntry, PageTable, PhysAddr, VirtAddr};
use lib::syscall::areas::remove_mmap_range;
use lib::syscall::dispatch::{SyscallOutcome, SYS_BRK, SYS_EXEC, SYS_MMAP};
use lib::syscall::kernel::Kernel;
use lib::task::process::{MmapArea, MAX_MMAP_AREAS};
use lib::trap::timer_tick;

fn ret(k: &mut Kernel, no: usize, args: [usize; 6]) -> usize {
    match k.dispatch(no, args) {
        SyscallOutcome::Return(v) => v,
        other => panic!("unexpected outcome {:?}", other),
    }
}

fn frame_of(k: &Kernel, va: usize) -> PhysAddr {
    let pt = k.sched.current().page_table;
    let s = pt.lookup(&k.ram, VirtAddr(va)).unwrap();
    PTEntry(k.ram.read_pte(s.table, s.index)).ppn_to_addr()
}

fn all_zero(ram: &Ram, pa: PhysAddr) -> bool {
    let w = &ram.words[frame_index(pa)];
    w.len() == 512 && w.iter().all(|x| *x == 0)
}

#[test]
fn mmap_and_brk_pages_are_zero_filled() {
    let mut k = boot(PhysAddr(0x8020_0000), 600).expect("boot").kernel;
    let a = ret(&mut k, SYS_MMAP, [0, 8192, 3, 0x22, usize::MAX, 0]);
    assert!(all_zero(&k.ram, frame_of(&k, a)));
    assert!(all_zero(&k.ram, frame_of(&k, a + 4096)));
    assert_eq!(ret(&mut k, SYS_BRK, [0x21000, 0, 0, 0, 0, 0]), 0x21000);
    assert!(all_zero(&k.ram, frame_of(&k, 0x20000)));
}

#[test]
fn a_freed_page_frame_comes_back_zero_filled() {
    let mut k = boot(PhysAddr(0x8020_0000), 600).expect("boot").kernel;
    let a = ret(&mut k, SYS_MMAP, [0, 4096, 3, 0x22, usize::MAX, 0]);
    let f = frame_of(&k, a);
    // scribble on the frame, as user code would
    let i = frame_index(f);
    k.ram.words[i][7] = 0xdead_beef;
    assert_eq!(ret(&mut k, lib::syscall::dispatch::SYS_MUNMAP, [a, 4096, 0, 0, 0, 0]), 0);
    let b = ret(&mut k, SYS_MMAP, [0, 4096, 3, 0x22, usize::MAX, 0]);
    assert_eq!(frame_of(&k, b), f);
    assert!(all_zero(&k.ram, f));
}

#[test]
fn unmap_leaves_an_empty_entry() {
    let mut ram = Ram::frame_init(PhysAddr(0x8020_0000));
    let root = ram.alloc_frame().unwrap();
    ram.zero_frame(root);
    let pt = PageTable::new(root);
    let data = ram.alloc_frame().unwrap();
    assert!(pt.map(&mut ram, VirtAddr(0x4000), data, PTEFlags::new(true, true, false, true)));
    pt.unmap(&mut ram, VirtAddr(0x4000));
    let s = pt.lookup(&ram, VirtAddr(0x4abc)).unwrap();
    assert_eq!(ram.read_pte(s.table, s.index), 0);
}

#[test]
fn splitting_an_area_puts_its_tail_in_the_first_free_slot() {
    let mut areas = [MmapArea::empty(); MAX_MMAP_AREAS];
    areas[0] = MmapArea { start: 0x3e00_0000, len: 0x1000, prot: 1, flags: 0x22, used: true };
    areas[2] = MmapArea { start: 0x3e01_0000, len: 0x4000, prot: 3, flags: 0x22, used: true };
    remove_mmap_range(&mut areas, 0x3e01_1000, 0x3e01_2000);
    assert_eq!(areas[0], MmapArea { start: 0x3e00_0000, len: 0x1000, prot: 1, flags: 0x22, used: true });
    assert_eq!(areas[2], MmapArea { start: 0x3e01_0000, len: 0x1000, prot: 3, flags: 0x22, used: true });
    assert_eq!(areas[1], MmapArea { start: 0x3e01_2000, len: 0x2000, prot: 3, flags: 0x22, used: true });
    assert!(areas[3..].iter().all(|a| *a == MmapArea::empty()));
}

#[test]
fn exec_resets_every_slot_to_the_empty_area() {
    let mut k = boot(PhysAddr(0x8020_0000), 600).expect("boot").kernel;
    assert_eq!(ret(&mut k, SYS_MMAP, [0, 4096, 3, 0x22, usize::MAX, 0]), 0x3e00_0000);
    assert_eq!(ret(&mut k, SYS_EXEC, [0; 6]), 0);
    assert!(k.sched.current().mmap_areas.iter().all(|a| *a == MmapArea::empty()));
}

#[test]
fn timer_ticks_are_counted_and_reported() {
    let mut ticks: usize = 0;
    let mut tx = Vec::new();
    assert_eq!(timer_tick(&mut ticks, &mut tx, 5), 10_000_005);
    assert_eq!(ticks, 1);
    assert_eq!(tx, b"tick 0000000000000001\r\n".to_vec());
    let mut tx = Vec::new();
    ticks = 0x2a;
    timer_tick(&mut ticks, &mut tx, 0);
    assert_eq!(tx, b"tick 000000000000002b\r\n".to_vec());
}

#[test]
fn map_needs_only_the_missing_tables() {
    // five frames above the kernel
    let mut ram = Ram::frame_init(PhysAddr(0x8800_0000 - 5 * 4096));
    let root = ram.alloc_frame().unwrap();
    ram.zero_frame(root);
    let pt = PageTable::new(root);
    let flags = PTEFlags::new(true, true, false, true);
    let d1 = ram.alloc_frame().unwrap();
    assert!(pt.map(&mut ram, VirtAddr(0x4000), d1, flags));
    let d2 = ram.alloc_frame().unwrap();
    // no frame is left, and none is needed in the same last-level table
    assert!(ram.alloc_frame().is_none());
    assert!(pt.map(&mut ram, VirtAddr(0x5000), d2, flags));
    // another last-level table would be needed here
    assert!(!pt.map(&mut ram, VirtAddr(0x20_0000), d2, flags));
}

#[test]
fn a_shared_copy_on_write_page_needs_a_free_frame() {
    let mut k = boot(PhysAddr(0x8020_0000), 600).expect("boot").kernel;
    let stack = lib::mm::boot::USER_STACK_PAGE;
    // not copy-on-write yet: nothing to resolve
    assert!(k.cow_fault_ready(stack));
    assert_eq!(ret(&mut k, lib::syscall::dispatch::SYS_FORK, [0; 6]), 2);
    assert!(k.cow_fault_ready(stack));
    // use up every frame
    while k.ram.alloc_frame().is_some() {}
    assert!(!k.ram.has_free_frame());
    assert!(!k.cow_fault_ready(stack));
    // an address with no mapping at all can always be handled
    assert!(k.cow_fault_ready(0x7000_0000));
}

#[test]
fn fault_reports_match_the_console_format() {
    let mut tx = Vec::new();
    lib::trap::segfault_report(&mut tx, 13, 0x1000);
    assert_eq!(tx, b"\r\n[SEGFAULT] scause=0x000000000000000d stval=0x0000000000001000\r\n".to_vec());
    let mut tx = Vec::new();
    lib::trap::fatal_trap_report(&mut tx, 2);
    assert_eq!(tx, b"\r\n[TRAP]\r\n scause: 0x0000000000000002\r\n".to_vec());
}

#[test]
fn finishing_a_syscall_sets_a0_and_skips_the_ecall() {
    let mut tf = lib::task::trapframe::TrapFrame::new_user(0x1_0000, 0x3F00_1000);
    tf.finish_syscall(42);
    assert_eq!(tf.regs[10], 42);
    assert_eq!(tf.sepc, 0x1_0004);
    assert_eq!(tf.regs[2], 0x3F00_1000);
}

#[test]
fn mapping_succeeds_with_exactly_enough_frames() {
    // six frames: the root, then three pages and the two tables they share
    let mut ram = Ram::frame_init(PhysAddr(0x8800_0000 - 6 * 4096));
    let root = ram.alloc_frame().unwrap();
    ram.zero_frame(root);
    let pt = PageTable::new(root);
    let flags = PTEFlags::new(true, true, false, true);
    assert!(lib::syscall::user_mem::map_zeroed_user_pages(&mut ram, &pt, 0x10000, 0x13000, flags));
    assert!(!ram.has_free_frame());
    for va in [0x10000usize, 0x11000, 0x12000] {
        let s = pt.lookup(&ram, VirtAddr(va)).unwrap();
        let e = PTEntry(ram.read_pte(s.table, s.index));
        assert!(e.is_valid() && e.is_u() && e.is_w());
        assert!(all_zero(&ram, e.ppn_to_addr()));
    }
    // one page more would need a frame that is not there
    let mut ram = Ram::frame_init(PhysAddr(0x8800_0000 - 6 * 4096));
    let root = ram.alloc_frame().unwrap();
    ram.zero_frame(root);
    let pt = PageTable::new(root);
    assert!(!lib::syscall::user_mem::map_zeroed_user_pages(&mut ram, &pt, 0x10000, 0x14000, flags));
    // the frames taken for pages were given back; the two tables stay
    let mut left = 0;
    while ram.alloc_frame().is_some() {
        left += 1;
    }
    assert_eq!(left, 3);
}

#[test]
fn init_kernel_maps_with_exactly_enough_frames() {
    // root, one second-level and one last-level table for four pages
    let mut ram = Ram::frame_init(PhysAddr(0x8800_0000 - 3 * 4096));
    let (pt, _satp) = lib::mm::boot::init_kernel(&mut ram, PhysAddr(0x8000_0000), PhysAddr(0x8000_4000));
    assert!(!ram.has_free_frame());
    for pa in [0x8000_0000usize, 0x8000_1000, 0x8000_2000, 0x8000_3000] {
        let s = pt.lookup(&ram, VirtAddr(pa)).unwrap();
        let e = PTEntry(ram.read_pte(s.table, s.index));
        assert_eq!(e.ppn_to_addr().0, pa);
    }
}

#[test]
fn an_end_inside_a_page_maps_that_page() {
    let mut ram = Ram::frame_init(PhysAddr(0x8020_0000));
    let root = ram.alloc_frame().unwrap();
    ram.zero_frame(root);
    let pt = PageTable::new(root);
    let flags = PTEFlags::new(true, true, false, true);
    assert!(lib::syscall::user_mem::map_zeroed_user_pages(&mut ram, &pt, 0x10000, 0x11001, flags));
    assert!(pt.lookup(&ram, VirtAddr(0x11000)).map(|s| PTEntry(ram.read_pte(s.table, s.index)).is_valid()).unwrap());
    assert!(!pt.lookup(&ram, VirtAddr(0x12000)).map(|s| PTEntry(ram.read_pte(s.table, s.index)).is_valid()).unwrap());
}
