use lib::syscall::areas::{
    can_split_mmap_range, choose_mmap_addr, find_free_mmap_slot, find_mmap_gap, mmap_range_available,
    remove_mmap_range,
};
use lib::syscall::errno::{
    align_up, checked_align_up, linux_error, pte_flags_from_prot, ranges_overlap, EINVAL, ENOSYS,
};
use lib::task::process::{MmapArea, MAX_MMAP_AREAS, USER_MMAP_LIMIT, USER_MMAP_START};

fn no_areas() -> [MmapArea; MAX_MMAP_AREAS] {
    [MmapArea::empty(); MAX_MMAP_AREAS]
}

fn area(start: usize, len: usize) -> MmapArea {
    MmapArea { start, len, prot: 3, flags: 0x22, used: true }
}

#[test]
fn linux_error_is_the_negated_errno() {
    assert_eq!(linux_error(EINVAL), (-22isize) as usize);
    assert_eq!(linux_error(ENOSYS), (-38isize) as usize);
    assert_eq!(linux_error(9), usize::MAX - 8);
}

#[test]
fn align_up_rounds_to_pages() {
    assert_eq!(align_up(0), 0);
    assert_eq!(align_up(1), 0x1000);
    assert_eq!(align_up(0x1000), 0x1000);
    assert_eq!(align_up(0x20008), 0x21000);
    assert_eq!(checked_align_up(0x1001), Some(0x2000));
    assert_eq!(checked_align_up(usize::MAX), None);
    assert_eq!(checked_align_up(usize::MAX - 4095), Some(usize::MAX & !0xfff));
}

#[test]
fn prot_becomes_user_flags() {
    assert_eq!(pte_flags_from_prot(0), None);
    assert_eq!(pte_flags_from_prot(8), None);
    assert_eq!(pte_flags_from_prot(1).unwrap().0, 0x13);
    assert_eq!(pte_flags_from_prot(2).unwrap().0, 0x17);
    assert_eq!(pte_flags_from_prot(3).unwrap().0, 0x17);
    assert_eq!(pte_flags_from_prot(4).unwrap().0, 0x19);
    assert_eq!(pte_flags_from_prot(7).unwrap().0, 0x1f);
}

#[test]
fn overlap_is_half_open() {
    assert!(!ranges_overlap(0, 10, 10, 20));
    assert!(ranges_overlap(0, 11, 10, 20));
    assert!(ranges_overlap(12, 13, 10, 20));
    assert!(!ranges_overlap(20, 30, 10, 20));
}

#[test]
fn area_end_is_start_plus_len() {
    assert_eq!(area(0x3e00_0000, 0x2000).end(), 0x3e00_2000);
}

#[test]
fn gap_search_starts_at_the_mmap_base_and_skips_areas() {
    let mut areas = no_areas();
    assert_eq!(find_mmap_gap(&areas, 8192), Some(USER_MMAP_START));
    areas[3] = area(0x3e00_0000, 0x2000);
    areas[7] = area(0x3e00_3000, 0x1000);
    assert_eq!(find_mmap_gap(&areas, 0x1000), Some(0x3e00_2000));
    assert_eq!(find_mmap_gap(&areas, 0x2000), Some(0x3e00_4000));
    assert_eq!(find_mmap_gap(&areas, USER_MMAP_LIMIT - USER_MMAP_START), None);
}

#[test]
fn hint_is_taken_when_free() {
    let mut areas = no_areas();
    areas[0] = area(0x3e00_0000, 0x2000);
    assert_eq!(choose_mmap_addr(&areas, 0x3e10_0000, 0x1000), Some(0x3e10_0000));
    assert_eq!(choose_mmap_addr(&areas, 0x3e10_0001, 0x1000), Some(0x3e10_1000));
    assert_eq!(choose_mmap_addr(&areas, 0x3e00_1000, 0x1000), Some(0x3e00_2000));
    assert_eq!(choose_mmap_addr(&areas, 0x1000, 0x1000), Some(0x3e00_2000));
    assert_eq!(choose_mmap_addr(&areas, 0, 0x1000), Some(0x3e00_2000));
    assert!(mmap_range_available(&areas, 0x3e00_2000, 0x3e00_3000));
    assert!(!mmap_range_available(&areas, 0x3e00_1000, 0x3e00_3000));
}

#[test]
fn free_slot_is_the_first_unused() {
    let mut areas = no_areas();
    assert_eq!(find_free_mmap_slot(&areas), Some(0));
    areas[0] = area(0x3e00_0000, 0x1000);
    areas[1] = area(0x3e00_1000, 0x1000);
    assert_eq!(find_free_mmap_slot(&areas), Some(2));
    let full = [area(0x3e00_0000, 0x1000); MAX_MMAP_AREAS];
    assert_eq!(find_free_mmap_slot(&full), None);
}

#[test]
fn removing_the_middle_splits_an_area() {
    let mut areas = no_areas();
    areas[0] = area(0x3e00_0000, 0x4000);
    assert!(can_split_mmap_range(&areas, 0x3e00_1000, 0x3e00_2000));
    remove_mmap_range(&mut areas, 0x3e00_1000, 0x3e00_2000);
    assert_eq!(areas[0], area(0x3e00_0000, 0x1000));
    assert_eq!(areas[1], area(0x3e00_2000, 0x2000));
    assert!(!areas[2].used);
}

#[test]
fn removing_ends_and_wholes() {
    let mut areas = no_areas();
    areas[0] = area(0x3e00_0000, 0x3000);
    areas[1] = area(0x3e01_0000, 0x1000);
    remove_mmap_range(&mut areas, 0x3e00_0000, 0x3e00_1000);
    assert_eq!(areas[0], area(0x3e00_1000, 0x2000));
    remove_mmap_range(&mut areas, 0x3e00_2000, 0x3e00_4000);
    assert_eq!(areas[0], area(0x3e00_1000, 0x1000));
    remove_mmap_range(&mut areas, 0x3e00_0000, 0x3e02_0000);
    assert!(!areas[0].used && !areas[1].used);
}

#[test]
fn splitting_needs_a_free_slot() {
    let mut full = [area(0x3e00_0000, 0x1000); MAX_MMAP_AREAS];
    for (i, a) in full.iter_mut().enumerate() {
        *a = area(0x3e00_0000 + i * 0x4000, 0x3000);
    }
    assert!(!can_split_mmap_range(&full, 0x3e00_1000, 0x3e00_2000));
    // cutting an end needs no slot
    assert!(can_split_mmap_range(&full, 0x3e00_0000, 0x3e00_1000));
}
