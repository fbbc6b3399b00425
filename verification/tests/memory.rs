use lib::mm::boot::init_kernel;
use lib::mm::frame::{frame_index, Ram, RAM_BASE};
use lib::mm::page_table::{PTEFlags, PTEntry, PageTable, PhysAddr, VirtAddr, PTE_COW};

fn fresh_ram() -> Ram {
    Ram::frame_init(PhysAddr(0x8020_0000))
}

#[test]
fn frame_init_rounds_kernel_end_up() {
    let ram = Ram::frame_init(PhysAddr(0x8020_0001));
    assert_eq!(ram.next_frame, 0x8020_1000);
    assert!(ram.free_list.is_empty());
    let ram = Ram::frame_init(PhysAddr(0x8020_0000));
    assert_eq!(ram.next_frame, 0x8020_0000);
}

#[test]
fn frame_index_counts_frames_from_ram_base() {
    assert_eq!(frame_index(PhysAddr(RAM_BASE)), 0);
    assert_eq!(frame_index(PhysAddr(0x8000_1fff)), 1);
    assert_eq!(frame_index(PhysAddr(0x8800_0000 - 1)), 32767);
}

#[test]
fn alloc_frame_bumps_then_reuses_freed_frames_last_in_first_out() {
    let mut ram = fresh_ram();
    let a = ram.alloc_frame().unwrap();
    let b = ram.alloc_frame().unwrap();
    let c = ram.alloc_frame().unwrap();
    assert_eq!(a, PhysAddr(0x8020_0000));
    assert_eq!(b, PhysAddr(0x8020_1000));
    assert_eq!(c, PhysAddr(0x8020_2000));
    assert_eq!(ram.get_ref(a), 1);
    ram.free_frame(a);
    ram.free_frame(c);
    assert_eq!(ram.get_ref(a), 0);
    assert_eq!(ram.alloc_frame(), Some(c));
    assert_eq!(ram.alloc_frame(), Some(a));
    assert_eq!(ram.alloc_frame(), Some(PhysAddr(0x8020_3000)));
}

#[test]
fn alloc_frame_fails_when_ram_is_exhausted() {
    let mut ram = Ram::frame_init(PhysAddr(0x8800_0000 - 0x2000));
    assert!(ram.alloc_frame().is_some());
    assert!(ram.alloc_frame().is_some());
    assert_eq!(ram.alloc_frame(), None);
}

#[test]
fn dec_ref_frees_on_last_reference() {
    let mut ram = fresh_ram();
    let a = ram.alloc_frame().unwrap();
    ram.inc_ref(a);
    assert_eq!(ram.get_ref(a), 2);
    assert_eq!(ram.dec_ref(a), 1);
    assert!(ram.free_list.is_empty());
    assert_eq!(ram.dec_ref(a), 0);
    assert_eq!(ram.free_list, vec![a.0]);
    assert_eq!(ram.alloc_frame(), Some(a));
}

#[test]
fn inc_ref_wraps_at_the_maximum() {
    let mut ram = fresh_ram();
    let a = ram.alloc_frame().unwrap();
    let i = frame_index(a);
    ram.refs[i] = u32::MAX;
    ram.inc_ref(a);
    assert_eq!(ram.get_ref(a), 0);
}

#[test]
fn alloc_contiguous_frames_takes_a_run_from_the_bump_pointer() {
    let mut ram = fresh_ram();
    let s = ram.alloc_contiguous_frames(8).unwrap();
    assert_eq!(s, PhysAddr(0x8020_0000));
    assert_eq!(ram.next_frame, 0x8020_8000);
    for k in 0..8 {
        assert_eq!(ram.get_ref(PhysAddr(s.0 + k * 4096)), 1);
    }
    let mut small = Ram::frame_init(PhysAddr(0x8800_0000 - 0x3000));
    assert_eq!(small.alloc_contiguous_frames(4), None);
    assert_eq!(small.next_frame, 0x8800_0000 - 0x3000);
}

#[test]
fn entry_encoding_round_trips() {
    let f = PTEFlags::new(true, true, false, true);
    assert_eq!(f.0, 0x17);
    assert_eq!(PTEFlags::new(true, false, true, true).0, 0x1b);
    assert_eq!(PTEFlags::new(false, false, false, false).0, 0x01);
    let e = PTEntry::new_leaf(PhysAddr(0x8020_0000), f);
    assert_eq!(e.0, (0x80200u64 << 10) | 0x17);
    assert_eq!(e.ppn_to_addr(), PhysAddr(0x8020_0000));
    assert!(e.is_valid() && e.is_r() && e.is_w() && !e.is_x() && e.is_u() && !e.is_cow());
    assert_eq!(e.flags().0, 0x17);
    let t = PTEntry::new_table(PhysAddr(0x8030_0000));
    assert_eq!(t.0, (0x80300u64 << 10) | 1);
    assert!(t.is_valid() && !t.is_r() && !t.is_w() && !t.is_x());
    assert_eq!(PTEntry::empty().0, 0);
}

#[test]
fn entry_write_and_cow_bits() {
    let mut e = PTEntry::new_leaf(PhysAddr(0x8020_0000), PTEFlags::new(true, true, false, true));
    e.clear_w();
    e.set_cow();
    assert!(!e.is_w() && e.is_cow());
    assert_eq!(e.0 & PTE_COW, PTE_COW);
    e.set_w(true);
    e.clear_cow();
    assert!(e.is_w() && !e.is_cow());
    e.set_w(false);
    assert!(!e.is_w());
}

#[test]
fn satp_holds_mode_and_root_page_number() {
    let pt = PageTable::new(PhysAddr(0x8020_0000));
    assert_eq!(pt.satp_val(), (8usize << 60) | 0x80200);
    assert_eq!(pt.root_addr(), PhysAddr(0x8020_0000));
}

#[test]
fn map_then_lookup_then_unmap() {
    let mut ram = fresh_ram();
    let root = ram.alloc_frame().unwrap();
    ram.zero_frame(root);
    let pt = PageTable::new(root);
    let data = ram.alloc_frame().unwrap();
    let flags = PTEFlags::new(true, true, false, true);
    assert!(pt.map(&mut ram, VirtAddr(0x1234_5678), data, flags));
    // two new tables were made for the walk
    assert_eq!(ram.next_frame, 0x8020_4000);
    let slot = pt.lookup(&ram, VirtAddr(0x1234_5000)).unwrap();
    let e = PTEntry(ram.read_pte(slot.table, slot.index));
    assert_eq!(e, PTEntry::new_leaf(data, flags));
    // an address in another page of the same last-level table finds an empty entry
    let other = pt.lookup(&ram, VirtAddr(0x1234_6000)).unwrap();
    assert_eq!(ram.read_pte(other.table, other.index), 0);
    // an address in another region has no walk at all
    assert!(pt.lookup(&ram, VirtAddr(0x3000_0000)).is_none());
    pt.unmap(&mut ram, VirtAddr(0x1234_5fff));
    let slot = pt.lookup(&ram, VirtAddr(0x1234_5000)).unwrap();
    assert_eq!(ram.read_pte(slot.table, slot.index), 0);
}

#[test]
fn map_cow_marks_the_entry() {
    let mut ram = fresh_ram();
    let root = ram.alloc_frame().unwrap();
    ram.zero_frame(root);
    let pt = PageTable::new(root);
    let data = ram.alloc_frame().unwrap();
    assert!(pt.map_cow(&mut ram, VirtAddr(0x4000), data, PTEFlags::new(true, false, false, true)));
    let slot = pt.lookup(&ram, VirtAddr(0x4000)).unwrap();
    let e = PTEntry(ram.read_pte(slot.table, slot.index));
    assert!(e.is_cow() && !e.is_w() && e.is_u());
    assert_eq!(e.ppn_to_addr(), data);
}

#[test]
fn map_fails_without_frames_for_tables() {
    let mut ram = Ram::frame_init(PhysAddr(0x8800_0000 - 0x2000));
    let root = ram.alloc_frame().unwrap();
    ram.zero_frame(root);
    let pt = PageTable::new(root);
    // one frame is left, the walk needs two tables
    assert!(!pt.map(&mut ram, VirtAddr(0x4000), PhysAddr(0x8000_0000), PTEFlags::new(true, false, false, true)));
    assert!(pt.lookup(&ram, VirtAddr(0x4000)).is_none());
}

#[test]
fn init_kernel_maps_memory_to_itself() {
    let mut ram = fresh_ram();
    let (pt, satp) = init_kernel(&mut ram, PhysAddr(0x8000_0000), PhysAddr(0x8000_3000));
    assert_eq!(satp, pt.satp_val());
    let kflags = PTEFlags::new(true, true, true, false);
    for pa in [0x8000_0000usize, 0x8000_1000, 0x8000_2000] {
        let slot = pt.lookup(&ram, VirtAddr(pa)).unwrap();
        assert_eq!(PTEntry(ram.read_pte(slot.table, slot.index)), PTEntry::new_leaf(PhysAddr(pa), kflags));
    }
    let past = pt.lookup(&ram, VirtAddr(0x8000_3000)).unwrap();
    assert_eq!(ram.read_pte(past.table, past.index), 0);
}
