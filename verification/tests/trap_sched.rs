use lib::mm::frame::Ram;
use lib::mm::page_table::{PTEFlags, PTEntry, PageTable, PhysAddr, PteSlot, VirtAddr};
use lib::task::process::{MmapArea, Process, ProcessState, MAX_MMAP_AREAS};
use lib::task::scheduler::{Scheduler, MAX_PROCESSES};
use lib::task::trapframe::TrapFrame;
use lib::trap::{handle_cow_fault, next_timer_deadline, syscall_request, trap_kind, CowResult, TrapKind};

fn process(pid: usize, parent: usize, state: ProcessState) -> Process {
    Process {
        pid,
        parent_pid: parent,
        state,
        page_table: PageTable::new(PhysAddr(0x8040_0000 + pid * 0x1000)),
        trap_frame: TrapFrame::new_user(0x10000, 0x3F00_1000),
        kernel_sp: 0x8080_0000 + pid * 0x8000,
        kernel_stack_frame: PhysAddr(0x8078_0000 + pid * 0x8000),
        heap_start: 0x20000,
        heap_end: 0x20000,
        mmap_areas: [MmapArea::empty(); MAX_MMAP_AREAS],
    }
}

#[test]
fn trap_causes_are_told_apart() {
    assert_eq!(trap_kind((1u64 << 63) | 5), TrapKind::Interrupt);
    assert_eq!(trap_kind(8), TrapKind::Syscall);
    assert_eq!(trap_kind(12), TrapKind::PageFault);
    assert_eq!(trap_kind(13), TrapKind::PageFault);
    assert_eq!(trap_kind(15), TrapKind::PageFault);
    assert_eq!(trap_kind(2), TrapKind::Fatal);
    assert_eq!(trap_kind(9), TrapKind::Fatal);
}

#[test]
fn timer_is_rearmed_ten_million_ticks_later() {
    assert_eq!(next_timer_deadline(5), 10_000_005);
    assert_eq!(next_timer_deadline(0), 10_000_000);
}

#[test]
fn syscall_request_reads_a7_and_a0_to_a5() {
    let mut tf = TrapFrame::new_user(0x10000, 0x3F00_1000);
    for (i, r) in (10..16).enumerate() {
        tf.regs[r] = i + 1;
    }
    tf.regs[17] = 64;
    let (no, args) = syscall_request(&tf);
    assert_eq!(no, 64);
    assert_eq!(args, [1, 2, 3, 4, 5, 6]);
}

#[test]
fn new_user_frame_enters_user_mode() {
    let tf = TrapFrame::new_user(0x10000, 0x3F00_1000);
    assert_eq!(tf.sepc, 0x10000);
    assert_eq!(tf.sstatus, 32);
    assert_eq!(tf.scause, 8);
    assert_eq!(tf.stval, 0);
    assert_eq!(tf.regs[2], 0x3F00_1000);
    assert!(tf.regs.iter().enumerate().all(|(i, &r)| i == 2 || r == 0));
    let mut tf = tf;
    tf.set_a0(7);
    tf.set_sp(9);
    assert_eq!((tf.regs[10], tf.regs[2]), (7, 9));
}

#[test]
fn scheduler_picks_the_next_ready_round_robin() {
    let mut s = Scheduler::new();
    assert_eq!(s.procs.len(), MAX_PROCESSES);
    assert_eq!(s.find_empty_slot(), Some(0));
    assert_eq!(s.alloc_pid(), 1);
    assert_eq!(s.alloc_pid(), 2);
    s.install(0, process(1, 0, ProcessState::Running));
    s.install(3, process(2, 1, ProcessState::Ready));
    s.install(5, process(3, 1, ProcessState::Ready));
    assert_eq!(s.find_empty_slot(), Some(1));
    assert_eq!(s.pick_next(), 3);
    let tf = TrapFrame::new_user(0x10040, 0x3F00_0f00);
    let sw = s.schedule(tf).unwrap();
    assert_eq!(s.current, 3);
    assert_eq!(s.current_index(), 3);
    assert_eq!(sw.frame.sepc, 0x10000);
    assert_eq!(sw.frame_sp, 0x8080_0000 + 2 * 0x8000 - 288);
    assert_eq!(sw.satp, PageTable::new(PhysAddr(0x8040_2000)).satp_val());
    // the running process was saved, it is no longer picked until it is ready again
    assert_eq!(s.procs[0].unwrap().trap_frame.sepc, 0x10040);
    assert_eq!(s.procs[3].unwrap().state, ProcessState::Running);
    assert_eq!(s.pick_next(), 5);
}

#[test]
fn scheduler_reports_when_nothing_is_ready() {
    let mut s = Scheduler::new();
    s.install(0, process(1, 0, ProcessState::Blocked));
    assert_eq!(s.pick_next(), MAX_PROCESSES);
    assert!(s.schedule(TrapFrame::new_user(1, 2)).is_none());
    assert_eq!(s.current, 0);
}

#[test]
fn orphans_go_to_init_and_the_parent_wakes() {
    let mut s = Scheduler::new();
    s.install(0, process(1, 0, ProcessState::Blocked));
    s.install(1, process(2, 1, ProcessState::Running));
    s.install(2, process(3, 2, ProcessState::Ready));
    s.install(4, process(4, 2, ProcessState::Gone));
    s.current = 1;
    s.reparent_orphans_to_init();
    assert_eq!(s.procs[2].unwrap().parent_pid, 1);
    assert_eq!(s.procs[4].unwrap().parent_pid, 2);
    s.wake_parent();
    assert_eq!(s.procs[0].unwrap().state, ProcessState::Ready);
    // a gone process frees its slot
    assert_eq!(s.find_empty_slot(), Some(3));
    let mut full = Scheduler::new();
    for i in 0..MAX_PROCESSES {
        full.install(i, process(i + 1, 0, ProcessState::Ready));
    }
    assert_eq!(full.find_empty_slot(), None);
    full.install(9, process(10, 0, ProcessState::Gone));
    assert_eq!(full.find_empty_slot(), Some(9));
}

#[test]
fn cow_fault_on_an_unshared_page_makes_it_writable_in_place() {
    let mut ram = Ram::frame_init(PhysAddr(0x8020_0000));
    let root = ram.alloc_frame().unwrap();
    ram.zero_frame(root);
    let pt = PageTable::new(root);
    let data = ram.alloc_frame().unwrap();
    assert!(pt.map_cow(&mut ram, VirtAddr(0x5000), data, PTEFlags::new(true, false, true, true)));
    let slot: PteSlot = pt.lookup(&ram, VirtAddr(0x5000)).unwrap();
    assert_eq!(handle_cow_fault(&mut ram, VirtAddr(0x5000), slot), CowResult::Reused);
    let e = PTEntry(ram.read_pte(slot.table, slot.index));
    assert!(e.is_w() && !e.is_cow() && e.is_x() && e.ppn_to_addr() == data);
}

#[test]
fn cow_fault_on_a_shared_page_copies_it() {
    let mut ram = Ram::frame_init(PhysAddr(0x8020_0000));
    let root = ram.alloc_frame().unwrap();
    ram.zero_frame(root);
    let pt = PageTable::new(root);
    let data = ram.alloc_frame().unwrap();
    ram.inc_ref(data);
    assert!(pt.map_cow(&mut ram, VirtAddr(0x5000), data, PTEFlags::new(true, false, false, true)));
    let slot = pt.lookup(&ram, VirtAddr(0x5000)).unwrap();
    match handle_cow_fault(&mut ram, VirtAddr(0x5000), slot) {
        CowResult::Copied { from, to } => {
            assert_eq!(from, data);
            assert_ne!(to, data);
            assert_eq!(ram.get_ref(data), 1);
            assert_eq!(ram.get_ref(to), 1);
            let e = PTEntry(ram.read_pte(slot.table, slot.index));
            assert_eq!(e, PTEntry::new_leaf(to, PTEFlags::new(true, true, false, true)));
        },
        CowResult::Reused => panic!("a shared page must be copied"),
    }
}
