//! `wait`: reaping a zombie child and releasing what it held.
use vstd::prelude::*;

use crate::mm::frame::{
    holds_table, is_frame, pte_word, spec_frame_index, Ram, ENTRIES_PER_TABLE, NUM_FRAMES, PAGE_SIZE,
};
use crate::mm::page_table::{
    lemma_table_allocated, next_table, pte_valid, spec_ppn_to_addr, tree_shaped, l1_of, l0_of,
    PTEntry, PhysAddr, KERNEL_VPN2_MIN,
};
use crate::mm::page_table::outside_tree;
use crate::syscall::kernel::{exit_post, Kernel};
use crate::task::process::{Process, ProcessState, KERNEL_STACK_PAGES, KERNEL_STACK_SIZE, USER_SPACE_TOP};
use crate::syscall::user_mem::{frames_counted, lemma_counted_kept, page_in, user_frame_at};
use crate::task::scheduler::{blocked_with_pid, first_blocked_with_pid, reparented, Scheduler, MAX_PROCESSES};
use crate::mm::page_table::{below_second_level, leaf_slot, lookup_entry, page_num};
use crate::trap::{cow_copied_entry, cow_pending, cow_resolvable, cow_reused_entry};

verus! {

/// A valid entry with none of R, W, X: it points to the next table.
pub open spec fn pte_pointer(e: u64) -> bool {
    pte_valid(e) && e & 0xeu64 == 0
}

proof fn lemma_pointer_bits(x: u64)
    ensures
        (x & 0xeu64 == 0) == (x & 0x2u64 == 0 && x & 0x4u64 == 0 && x & 0x8u64 == 0),
{
    assert((x & 0xeu64 == 0) == (x & 0x2u64 == 0 && x & 0x4u64 == 0 && x & 0x8u64 == 0)) by (bit_vector);
}

/// `pa` is the last-level table that one of the first `j` pointer entries
/// of the table `t1` points to.
pub open spec fn freed_l0(w: Seq<Seq<u64>>, t1: usize, j: int, pa: usize) -> bool {
    exists|j2: int|
        0 <= j2 < j && pte_pointer(#[trigger] pte_word(w, t1, j2)) && next_table(w, t1, j2) == Some(
            pa,
        )
}

/// Frees the last-level tables that the pointer entries of the
/// second-level table `t1` point to.
fn free_l0_tables(ram: &mut Ram, t1: PhysAddr)
    requires
        old(ram).wf(),
        holds_table(old(ram).table_words(), t1.0),
        forall|j: int|
            0 <= j < 512 && pte_valid(#[trigger] pte_word(old(ram).table_words(), t1.0, j))
                ==> next_table(old(ram).table_words(), t1.0, j) is Some && next_table(
                old(ram).table_words(),
                t1.0,
                j,
            ) != Some(t1.0),
        forall|j1: int, j2: int|
            0 <= j1 < 512 && 0 <= j2 < 512 && j1 != j2 && pte_valid(
                #[trigger] pte_word(old(ram).table_words(), t1.0, j1),
            ) && pte_valid(#[trigger] pte_word(old(ram).table_words(), t1.0, j2)) ==> next_table(
                old(ram).table_words(),
                t1.0,
                j1,
            ) != next_table(old(ram).table_words(), t1.0, j2),
    ensures
        final(ram).wf(),
        final(ram).next_frame == old(ram).next_frame,
        forall|pa: usize|
            #[trigger] final(ram).is_allocated(pa) == (old(ram).is_allocated(pa) && !freed_l0(
                old(ram).table_words(),
                t1.0,
                512,
                pa,
            )),
        forall|t: usize|
            #[trigger] holds_table(final(ram).table_words(), t) == (holds_table(
                old(ram).table_words(),
                t,
            ) && !freed_l0(old(ram).table_words(), t1.0, 512, t)),
        forall|t: usize, k: int|
            0 <= k < 512 && !freed_l0(old(ram).table_words(), t1.0, 512, t) ==> #[trigger] pte_word(
                final(ram).table_words(),
                t,
                k,
            ) == pte_word(old(ram).table_words(), t, k),
        forall|pa: usize|
            is_frame(pa) && !freed_l0(old(ram).table_words(), t1.0, 512, pa)
                ==> #[trigger] final(ram).ref_of(pa) == old(ram).ref_of(pa),
{
    let ghost w0 = ram.table_words();
    let ghost r0 = *ram;
    let mut j: usize = 0;
    while j < 512
        invariant
            j <= 512,
            ram.wf(),
            w0 == old(ram).table_words(),
            r0 == *old(ram),
            r0.wf(),
            holds_table(w0, t1.0),
            ram.next_frame == r0.next_frame,
            forall|j3: int|
                0 <= j3 < 512 && pte_valid(#[trigger] pte_word(w0, t1.0, j3)) ==> next_table(
                    w0,
                    t1.0,
                    j3,
                ) is Some && next_table(w0, t1.0, j3) != Some(t1.0),
            forall|j1: int, j2: int|
                0 <= j1 < 512 && 0 <= j2 < 512 && j1 != j2 && pte_valid(
                    #[trigger] pte_word(w0, t1.0, j1),
                ) && pte_valid(#[trigger] pte_word(w0, t1.0, j2)) ==> next_table(w0, t1.0, j1)
                    != next_table(w0, t1.0, j2),
            forall|pa: usize|
                #[trigger] ram.is_allocated(pa) == (r0.is_allocated(pa) && !freed_l0(
                    w0,
                    t1.0,
                    j as int,
                    pa,
                )),
            forall|t: usize|
                #[trigger] holds_table(ram.table_words(), t) == (holds_table(w0, t) && !freed_l0(
                    w0,
                    t1.0,
                    j as int,
                    t,
                )),
            forall|t: usize, k: int|
                0 <= k < 512 && !freed_l0(w0, t1.0, j as int, t) ==> #[trigger] pte_word(
                    ram.table_words(),
                    t,
                    k,
                ) == pte_word(w0, t, k),
            forall|pa: usize|
                is_frame(pa) && !freed_l0(w0, t1.0, j as int, pa) ==> #[trigger] ram.ref_of(pa)
                    == r0.ref_of(pa),
        decreases 512 - j,
    {
        let ghost rc = *ram;
        proof {
            if freed_l0(w0, t1.0, j as int, t1.0) {
                let j2 = choose|j2: int|
                    0 <= j2 < j && pte_pointer(#[trigger] pte_word(w0, t1.0, j2)) && next_table(
                        w0,
                        t1.0,
                        j2,
                    ) == Some(t1.0);
            }
        }
        let e = PTEntry(ram.read_pte(t1, j));
        assert(e.0 == pte_word(w0, t1.0, j as int));
        if e.is_valid() && !e.is_r() && !e.is_w() && !e.is_x() {
            let l1 = e.ppn_to_addr();
            proof {
                lemma_pointer_bits(e.0);
                assert(next_table(w0, t1.0, j as int) == Some(l1.0));
                lemma_table_allocated(r0, l1.0);
                if freed_l0(w0, t1.0, j as int, l1.0) {
                    let j2 = choose|j2: int|
                        0 <= j2 < j && pte_pointer(#[trigger] pte_word(w0, t1.0, j2)) && next_table(
                            w0,
                            t1.0,
                            j2,
                        ) == Some(l1.0);
                    assert(pte_valid(pte_word(w0, t1.0, j2)));
                }
            }
            ram.free_frame(l1);
            proof {
                assert forall|t: usize| #[trigger]
                    freed_l0(w0, t1.0, j + 1, t) == (freed_l0(w0, t1.0, j as int, t) || t == l1.0) by {
                    if freed_l0(w0, t1.0, j + 1, t) && t != l1.0 {
                        let j2 = choose|j2: int|
                            0 <= j2 < j + 1 && pte_pointer(#[trigger] pte_word(w0, t1.0, j2))
                                && next_table(w0, t1.0, j2) == Some(t);
                        assert(freed_l0(w0, t1.0, j as int, t));
                    }
                    if freed_l0(w0, t1.0, j as int, t) {
                        let j2 = choose|j2: int|
                            0 <= j2 < j && pte_pointer(#[trigger] pte_word(w0, t1.0, j2)) && next_table(
                                w0,
                                t1.0,
                                j2,
                            ) == Some(t);
                        assert(freed_l0(w0, t1.0, j + 1, t));
                    }
                    if t == l1.0 {
                        assert(freed_l0(w0, t1.0, j + 1, t));
                    }
                }
                assert forall|t: usize| #[trigger] holds_table(ram.table_words(), t) == (holds_table(
                    w0,
                    t,
                ) && !freed_l0(w0, t1.0, j + 1, t)) by {
                    assert(holds_table(rc.table_words(), t) == (holds_table(w0, t) && !freed_l0(
                        w0,
                        t1.0,
                        j as int,
                        t,
                    )));
                    assert(freed_l0(w0, t1.0, j + 1, t) == (freed_l0(w0, t1.0, j as int, t) || t == l1.0));
                    if is_frame(t) && t != l1.0 {
                        crate::mm::page_table::lemma_frame_index_injective(t, l1.0);
                    }
                }
                assert forall|t: usize, k: int|
                    0 <= k < 512 && !freed_l0(w0, t1.0, j + 1, t) implies #[trigger] pte_word(
                    ram.table_words(),
                    t,
                    k,
                ) == pte_word(w0, t, k) by {
                    assert(freed_l0(w0, t1.0, j + 1, t) == (freed_l0(w0, t1.0, j as int, t) || t == l1.0));
                    assert(pte_word(rc.table_words(), t, k) == pte_word(w0, t, k));
                    assert(holds_table(ram.table_words(), t) == holds_table(rc.table_words(), t));
                    if is_frame(t) && t != l1.0 {
                        crate::mm::page_table::lemma_frame_index_injective(t, l1.0);
                    }
                }
            }
        } else {
            proof {
                assert forall|t: usize| #[trigger]
                    freed_l0(w0, t1.0, j + 1, t) == freed_l0(w0, t1.0, j as int, t) by {
                    if freed_l0(w0, t1.0, j + 1, t) {
                        let j2 = choose|j2: int|
                            0 <= j2 < j + 1 && pte_pointer(#[trigger] pte_word(w0, t1.0, j2))
                                && next_table(w0, t1.0, j2) == Some(t);
                        if j2 == j {
                            lemma_pointer_bits(e.0);
                        }
                        assert(freed_l0(w0, t1.0, j as int, t));
                    }
                }
            }
        }
        j = j + 1;
    }
}

/// `pa` is one of the tables below root entries `lo` to `i - 1` of `root`:
/// a second-level table, or a last-level table that a pointer entry of one
/// points to.
pub open spec fn low_table_of(w: Seq<Seq<u64>>, root: usize, lo: int, i: int, pa: usize) -> bool {
    exists|i2: int|
        lo <= i2 < i && pte_valid(#[trigger] pte_word(w, root, i2)) && (l1_of(w, root, i2) == pa
            || freed_l0(w, l1_of(w, root, i2), 512, pa))
}

/// Frees the second- and last-level tables below root entries
/// `vpn2_min .. vpn2_max` of the page table at `root`.
pub fn free_intermediate_frames(ram: &mut Ram, root: PhysAddr, vpn2_min: usize, vpn2_max: usize)
    requires
        old(ram).wf(),
        tree_shaped(old(ram).table_words(), root.0),
        vpn2_min <= vpn2_max <= 512,
    ensures
        final(ram).wf(),
        final(ram).next_frame == old(ram).next_frame,
        forall|pa: usize|
            #[trigger] final(ram).is_allocated(pa) == (old(ram).is_allocated(pa) && !low_table_of(
                old(ram).table_words(),
                root.0,
                vpn2_min as int,
                vpn2_max as int,
                pa,
            )),
        forall|t: usize|
            #[trigger] holds_table(final(ram).table_words(), t) == (holds_table(
                old(ram).table_words(),
                t,
            ) && !low_table_of(old(ram).table_words(), root.0, vpn2_min as int, vpn2_max as int, t)),
        forall|t: usize, k: int|
            0 <= k < 512 && !low_table_of(
                old(ram).table_words(),
                root.0,
                vpn2_min as int,
                vpn2_max as int,
                t,
            ) ==> #[trigger] pte_word(final(ram).table_words(), t, k) == pte_word(
                old(ram).table_words(),
                t,
                k,
            ),
        forall|pa: usize|
            is_frame(pa) && !low_table_of(
                old(ram).table_words(),
                root.0,
                vpn2_min as int,
                vpn2_max as int,
                pa,
            ) ==> #[trigger] final(ram).ref_of(pa) == old(ram).ref_of(pa),
{
    let ghost w0 = ram.table_words();
    let ghost r0 = *ram;
    let ghost lo = vpn2_min as int;
    let mut i: usize = vpn2_min;
    while i < vpn2_max
        invariant
            vpn2_min <= i <= vpn2_max <= 512,
            lo == vpn2_min,
            ram.wf(),
            w0 == old(ram).table_words(),
            r0 == *old(ram),
            r0.wf(),
            tree_shaped(w0, root.0),
            ram.next_frame == r0.next_frame,
            forall|pa: usize|
                #[trigger] ram.is_allocated(pa) == (r0.is_allocated(pa) && !low_table_of(
                    w0,
                    root.0,
                    lo,
                    i as int,
                    pa,
                )),
            forall|t: usize|
                #[trigger] holds_table(ram.table_words(), t) == (holds_table(w0, t) && !low_table_of(
                    w0,
                    root.0,
                    lo,
                    i as int,
                    t,
                )),
            forall|t: usize, k: int|
                0 <= k < 512 && !low_table_of(w0, root.0, lo, i as int, t) ==> #[trigger] pte_word(
                    ram.table_words(),
                    t,
                    k,
                ) == pte_word(w0, t, k),
            forall|pa: usize|
                is_frame(pa) && !low_table_of(w0, root.0, lo, i as int, pa) ==> #[trigger] ram.ref_of(
                    pa,
                ) == r0.ref_of(pa),
        decreases vpn2_max - i,
    {
        let ghost rc = *ram;
        let ghost wc = ram.table_words();
        proof {
            if low_table_of(w0, root.0, lo, i as int, root.0) {
                let i2 = choose|i2: int|
                    lo <= i2 < i && pte_valid(#[trigger] pte_word(w0, root.0, i2)) && (l1_of(
                        w0,
                        root.0,
                        i2,
                    ) == root.0 || freed_l0(w0, l1_of(w0, root.0, i2), 512, root.0));
                if freed_l0(w0, l1_of(w0, root.0, i2), 512, root.0) {
                    let j2 = choose|j2: int|
                        0 <= j2 < 512 && pte_pointer(#[trigger] pte_word(w0, l1_of(w0, root.0, i2), j2))
                            && next_table(w0, l1_of(w0, root.0, i2), j2) == Some(root.0);
                    assert(l0_of(w0, root.0, i2, j2) == root.0);
                }
            }
        }
        let e = PTEntry(ram.read_pte(root, i));
        assert(e.0 == pte_word(w0, root.0, i as int));
        if e.is_valid() {
            let t1 = e.ppn_to_addr();
            proof {
                assert(t1.0 == l1_of(w0, root.0, i as int));
                // no table below the earlier entries is `t1` or one of its tables
                assert forall|t: usize|
                    (t == t1.0 || freed_l0(w0, t1.0, 512, t)) implies !low_table_of(
                    w0,
                    root.0,
                    lo,
                    i as int,
                    t,
                ) by {
                    if low_table_of(w0, root.0, lo, i as int, t) {
                        let i2 = choose|i2: int|
                            lo <= i2 < i && pte_valid(#[trigger] pte_word(w0, root.0, i2)) && (l1_of(
                                w0,
                                root.0,
                                i2,
                            ) == t || freed_l0(w0, l1_of(w0, root.0, i2), 512, t));
                        if freed_l0(w0, t1.0, 512, t) {
                            let j = choose|j: int|
                                0 <= j < 512 && pte_pointer(#[trigger] pte_word(w0, t1.0, j))
                                    && next_table(w0, t1.0, j) == Some(t);
                            assert(l0_of(w0, root.0, i as int, j) == t);
                            if freed_l0(w0, l1_of(w0, root.0, i2), 512, t) {
                                let j2 = choose|j2: int|
                                    0 <= j2 < 512 && pte_pointer(
                                        #[trigger] pte_word(w0, l1_of(w0, root.0, i2), j2),
                                    ) && next_table(w0, l1_of(w0, root.0, i2), j2) == Some(t);
                                assert(l0_of(w0, root.0, i2, j2) == t);
                            }
                        } else {
                            if freed_l0(w0, l1_of(w0, root.0, i2), 512, t) {
                                let j2 = choose|j2: int|
                                    0 <= j2 < 512 && pte_pointer(
                                        #[trigger] pte_word(w0, l1_of(w0, root.0, i2), j2),
                                    ) && next_table(w0, l1_of(w0, root.0, i2), j2) == Some(t);
                                assert(l0_of(w0, root.0, i2, j2) == t);
                            }
                        }
                    }
                }
                assert(holds_table(w0, t1.0));
                assert forall|j: int| 0 <= j < 512 implies #[trigger] pte_word(wc, t1.0, j) == pte_word(
                    w0,
                    t1.0,
                    j,
                ) by {}
                assert forall|j: int|
                    0 <= j < 512 && pte_valid(#[trigger] pte_word(w0, t1.0, j)) implies !low_table_of(
                    w0,
                    root.0,
                    lo,
                    i as int,
                    l0_of(w0, root.0, i as int, j),
                ) && l0_of(w0, root.0, i as int, j) != t1.0 by {
                    let t = l0_of(w0, root.0, i as int, j);
                    if low_table_of(w0, root.0, lo, i as int, t) {
                        let i2 = choose|i2: int|
                            lo <= i2 < i && pte_valid(#[trigger] pte_word(w0, root.0, i2)) && (l1_of(
                                w0,
                                root.0,
                                i2,
                            ) == t || freed_l0(w0, l1_of(w0, root.0, i2), 512, t));
                        if freed_l0(w0, l1_of(w0, root.0, i2), 512, t) {
                            let j2 = choose|j2: int|
                                0 <= j2 < 512 && pte_pointer(
                                    #[trigger] pte_word(w0, l1_of(w0, root.0, i2), j2),
                                ) && next_table(w0, l1_of(w0, root.0, i2), j2) == Some(t);
                            assert(l0_of(w0, root.0, i2, j2) == t);
                        }
                    }
                }
                assert forall|j: int|
                    0 <= j < 512 && pte_valid(#[trigger] pte_word(wc, t1.0, j)) implies next_table(
                    wc,
                    t1.0,
                    j,
                ) == next_table(w0, t1.0, j) && next_table(wc, t1.0, j) is Some && next_table(
                    wc,
                    t1.0,
                    j,
                ) != Some(t1.0) by {
                    assert(pte_valid(pte_word(w0, t1.0, j)));
                    assert(holds_table(wc, l0_of(w0, root.0, i as int, j)));
                }
                assert forall|t: usize| #[trigger] freed_l0(wc, t1.0, 512, t) == freed_l0(w0, t1.0, 512, t) by {
                    if freed_l0(wc, t1.0, 512, t) {
                        let j = choose|j: int|
                            0 <= j < 512 && pte_pointer(#[trigger] pte_word(wc, t1.0, j)) && next_table(
                                wc,
                                t1.0,
                                j,
                            ) == Some(t);
                        assert(pte_pointer(pte_word(w0, t1.0, j)));
                    }
                    if freed_l0(w0, t1.0, 512, t) {
                        let j = choose|j: int|
                            0 <= j < 512 && pte_pointer(#[trigger] pte_word(w0, t1.0, j)) && next_table(
                                w0,
                                t1.0,
                                j,
                            ) == Some(t);
                        assert(pte_pointer(pte_word(wc, t1.0, j)));
                    }
                }
            }
            free_l0_tables(ram, t1);
            proof {
                lemma_table_allocated(r0, t1.0);
                assert(!freed_l0(w0, t1.0, 512, t1.0)) by {
                    if freed_l0(w0, t1.0, 512, t1.0) {
                        let j = choose|j: int|
                            0 <= j < 512 && pte_pointer(#[trigger] pte_word(w0, t1.0, j)) && next_table(
                                w0,
                                t1.0,
                                j,
                            ) == Some(t1.0);
                    }
                }
            }
            let ghost rm = *ram;
            ram.free_frame(t1);
            proof {
                assert forall|t: usize| #[trigger] low_table_of(w0, root.0, lo, i + 1, t) == (low_table_of(
                    w0,
                    root.0,
                    lo,
                    i as int,
                    t,
                ) || t == t1.0 || freed_l0(w0, t1.0, 512, t)) by {
                    if low_table_of(w0, root.0, lo, i + 1, t) {
                        let i2 = choose|i2: int|
                            lo <= i2 < i + 1 && pte_valid(#[trigger] pte_word(w0, root.0, i2)) && (l1_of(
                                w0,
                                root.0,
                                i2,
                            ) == t || freed_l0(w0, l1_of(w0, root.0, i2), 512, t));
                        if i2 < i {
                            assert(low_table_of(w0, root.0, lo, i as int, t));
                        }
                    }
                    if low_table_of(w0, root.0, lo, i as int, t) {
                        let i2 = choose|i2: int|
                            lo <= i2 < i && pte_valid(#[trigger] pte_word(w0, root.0, i2)) && (l1_of(
                                w0,
                                root.0,
                                i2,
                            ) == t || freed_l0(w0, l1_of(w0, root.0, i2), 512, t));
                        assert(low_table_of(w0, root.0, lo, i + 1, t));
                    }
                    if t == t1.0 || freed_l0(w0, t1.0, 512, t) {
                        assert(pte_valid(pte_word(w0, root.0, i as int)));
                        assert(low_table_of(w0, root.0, lo, i + 1, t));
                    }
                }
                assert forall|t: usize| #[trigger] holds_table(ram.table_words(), t) == (holds_table(
                    w0,
                    t,
                ) && !low_table_of(w0, root.0, lo, i + 1, t)) by {
                    assert(holds_table(rm.table_words(), t) == (holds_table(wc, t) && !freed_l0(
                        wc,
                        t1.0,
                        512,
                        t,
                    )));
                    assert(holds_table(wc, t) == (holds_table(w0, t) && !low_table_of(
                        w0,
                        root.0,
                        lo,
                        i as int,
                        t,
                    )));
                    if is_frame(t) && t != t1.0 {
                        crate::mm::page_table::lemma_frame_index_injective(t, t1.0);
                    }
                }
                assert forall|t: usize, k: int|
                    0 <= k < 512 && !low_table_of(w0, root.0, lo, i + 1, t) implies #[trigger] pte_word(
                    ram.table_words(),
                    t,
                    k,
                ) == pte_word(w0, t, k) by {
                    assert(pte_word(rm.table_words(), t, k) == pte_word(wc, t, k));
                    assert(pte_word(wc, t, k) == pte_word(w0, t, k));
                    assert(holds_table(rm.table_words(), t) == (holds_table(wc, t) && !freed_l0(
                        wc,
                        t1.0,
                        512,
                        t,
                    )));
                    if is_frame(t) && t != t1.0 {
                        crate::mm::page_table::lemma_frame_index_injective(t, t1.0);
                    }
                }
                assert forall|pa: usize|
                    is_frame(pa) && !low_table_of(w0, root.0, lo, i + 1, pa) implies #[trigger] ram.ref_of(
                    pa,
                ) == r0.ref_of(pa) by {
                    assert(rm.ref_of(pa) == rc.ref_of(pa));
                    assert(rc.ref_of(pa) == r0.ref_of(pa));
                }
                assert forall|pa: usize| #[trigger] ram.is_allocated(pa) == (r0.is_allocated(pa)
                    && !low_table_of(w0, root.0, lo, i + 1, pa)) by {
                    assert(rm.is_allocated(pa) == (rc.is_allocated(pa) && !freed_l0(wc, t1.0, 512, pa)));
                    assert(rc.is_allocated(pa) == (r0.is_allocated(pa) && !low_table_of(
                        w0,
                        root.0,
                        lo,
                        i as int,
                        pa,
                    )));
                }
            }
        } else {
            proof {
                assert forall|t: usize| #[trigger] low_table_of(w0, root.0, lo, i + 1, t) == low_table_of(
                    w0,
                    root.0,
                    lo,
                    i as int,
                    t,
                ) by {
                    if low_table_of(w0, root.0, lo, i + 1, t) {
                        let i2 = choose|i2: int|
                            lo <= i2 < i + 1 && pte_valid(#[trigger] pte_word(w0, root.0, i2)) && (l1_of(
                                w0,
                                root.0,
                                i2,
                            ) == t || freed_l0(w0, l1_of(w0, root.0, i2), 512, t));
                        assert(i2 != i);
                        assert(low_table_of(w0, root.0, lo, i as int, t));
                    }
                    if low_table_of(w0, root.0, lo, i as int, t) {
                        let i2 = choose|i2: int|
                            lo <= i2 < i && pte_valid(#[trigger] pte_word(w0, root.0, i2)) && (l1_of(
                                w0,
                                root.0,
                                i2,
                            ) == t || freed_l0(w0, l1_of(w0, root.0, i2), 512, t));
                        assert(low_table_of(w0, root.0, lo, i + 1, t));
                    }
                }
            }
        }
        i = i + 1;
    }
}

/// `pa` is one of the frames of the kernel stack that starts at `ks`.
pub open spec fn stack_frame(ks: usize, pa: usize) -> bool {
    ks <= pa < ks + KERNEL_STACK_SIZE && (pa - ks) % 4096 == 0
}

/// What reaping `child` frees: its kernel stack, its root table, and the
/// tables below the lower-half root entries.
pub open spec fn reaped_frame(w: Seq<Seq<u64>>, child: Process, pa: usize) -> bool {
    ||| stack_frame(child.kernel_stack_frame.0, pa)
    ||| pa == child.page_table.root.0
    ||| low_table_of(w, child.page_table.root.0, 0, KERNEL_VPN2_MIN as int, pa)
}

/// The frames a reaped process still holds are its own: its kernel stack
/// frames are handed out and hold no table, and its page table is
/// tree-shaped.
pub open spec fn resources_held(ram: Ram, child: Process) -> bool {
    &&& child.kernel_stack_frame.0 + KERNEL_STACK_SIZE <= usize::MAX
    &&& child.kernel_stack_frame.0 % 4096 == 0
    &&& tree_shaped(ram.table_words(), child.page_table.root.0)
    &&& forall|pa: usize|
        stack_frame(child.kernel_stack_frame.0, pa) ==> #[trigger] ram.is_allocated(pa) && !holds_table(
            ram.table_words(),
            pa,
        )
}

/// Frees what a reaped process held: the frames of its kernel stack, the
/// tables of its lower half, and its root table.
pub fn free_user_pt_resources(ram: &mut Ram, child: &Process)
    requires
        old(ram).wf(),
        resources_held(*old(ram), *child),
    ensures
        final(ram).wf(),
        final(ram).next_frame == old(ram).next_frame,
        forall|pa: usize|
            #[trigger] final(ram).is_allocated(pa) == (old(ram).is_allocated(pa) && !reaped_frame(
                old(ram).table_words(),
                *child,
                pa,
            )),
        forall|t: usize|
            #[trigger] holds_table(final(ram).table_words(), t) == (holds_table(
                old(ram).table_words(),
                t,
            ) && !reaped_frame(old(ram).table_words(), *child, t)),
        forall|t: usize, k: int|
            0 <= k < 512 && !reaped_frame(old(ram).table_words(), *child, t) ==> #[trigger] pte_word(
                final(ram).table_words(),
                t,
                k,
            ) == pte_word(old(ram).table_words(), t, k),
        forall|pa: usize|
            is_frame(pa) && !reaped_frame(old(ram).table_words(), *child, pa)
                ==> #[trigger] final(ram).ref_of(pa) == old(ram).ref_of(pa),
{
    let ghost w0 = ram.table_words();
    let ghost r0 = *ram;
    let ks = child.kernel_stack_frame.0;
    let mut n: usize = 0;
    while n < KERNEL_STACK_PAGES
        invariant
            n <= KERNEL_STACK_PAGES,
            ks == child.kernel_stack_frame.0,
            ram.wf(),
            r0 == *old(ram),
            r0.wf(),
            w0 == old(ram).table_words(),
            resources_held(r0, *child),
            ram.table_words() == w0,
            ram.next_frame == r0.next_frame,
            forall|pa: usize|
                #[trigger] ram.is_allocated(pa) == (r0.is_allocated(pa) && !(stack_frame(ks, pa) && pa
                    < ks + n * 4096)),
            forall|pa: usize|
                is_frame(pa) && !(stack_frame(ks, pa) && pa < ks + n * 4096) ==> #[trigger] ram.ref_of(pa)
                    == r0.ref_of(pa),
        decreases KERNEL_STACK_PAGES - n,
    {
        let pa = PhysAddr(ks + n * PAGE_SIZE);
        let ghost rc = *ram;
        proof {
            assert(stack_frame(ks, pa.0)) by (nonlinear_arith)
                requires
                    pa.0 == ks + n * 4096,
                    n < 8,
                    KERNEL_STACK_SIZE == 0x8000,
            ;
            assert(r0.is_allocated(pa.0));
            assert(!holds_table(w0, pa.0));
            assert(w0[spec_frame_index(pa.0)].len() == 0) by {
                assert(0 <= spec_frame_index(pa.0) < NUM_FRAMES);
                assert(r0.words@[spec_frame_index(pa.0)]@.len() == 0 || r0.words@[spec_frame_index(
                    pa.0,
                )]@.len() == ENTRIES_PER_TABLE);
            }
        }
        ram.free_frame(pa);
        proof {
            assert(w0[spec_frame_index(pa.0)] =~= Seq::<u64>::empty());
            assert(ram.table_words() =~= w0);
            assert forall|q: usize| #[trigger] ram.is_allocated(q) == (r0.is_allocated(q) && !(stack_frame(
                ks,
                q,
            ) && q < ks + (n + 1) * 4096)) by {
                if q != pa.0 {
                    if is_frame(q) {
                        assert(ram.is_allocated(q) == rc.is_allocated(q));
                    } else {
                        assert(!ram.is_allocated(q));
                        assert(!r0.is_allocated(q));
                    }
                    if stack_frame(ks, q) && q < ks + (n + 1) * 4096 && !(q < ks + n * 4096) {
                        assert(q == pa.0) by (nonlinear_arith)
                            requires
                                ks <= q,
                                (q - ks) % 4096 == 0,
                                ks + n * 4096 <= q < ks + (n + 1) * 4096,
                                pa.0 == ks + n * 4096,
                        ;
                    }
                }
            }
            assert forall|q: usize|
                is_frame(q) && !(stack_frame(ks, q) && q < ks + (n + 1) * 4096) implies #[trigger] ram.ref_of(
                q,
            ) == r0.ref_of(q) by {
                assert(q != pa.0);
                assert(ram.ref_of(q) == rc.ref_of(q));
            }
        }
        n = n + 1;
    }
    let ghost r1 = *ram;
    let root = child.page_table.root_addr();
    free_intermediate_frames(ram, root, 0, KERNEL_VPN2_MIN);
    proof {
        assert(!low_table_of(w0, root.0, 0, KERNEL_VPN2_MIN as int, root.0)) by {
            if low_table_of(w0, root.0, 0, KERNEL_VPN2_MIN as int, root.0) {
                let i2 = choose|i2: int|
                    0 <= i2 < KERNEL_VPN2_MIN && pte_valid(#[trigger] pte_word(w0, root.0, i2)) && (
                    l1_of(w0, root.0, i2) == root.0 || freed_l0(w0, l1_of(w0, root.0, i2), 512, root.0));
                if freed_l0(w0, l1_of(w0, root.0, i2), 512, root.0) {
                    let j2 = choose|j2: int|
                        0 <= j2 < 512 && pte_pointer(#[trigger] pte_word(w0, l1_of(w0, root.0, i2), j2))
                            && next_table(w0, l1_of(w0, root.0, i2), j2) == Some(root.0);
                    assert(l0_of(w0, root.0, i2, j2) == root.0);
                }
            }
        }
        assert(holds_table(ram.table_words(), root.0));
        lemma_table_allocated(*ram, root.0);
    }
    let ghost r2 = *ram;
    ram.free_frame(root);
    proof {
        assert forall|pa: usize| #[trigger] ram.is_allocated(pa) == (r0.is_allocated(pa) && !reaped_frame(
            w0,
            *child,
            pa,
        )) by {
            assert(r2.is_allocated(pa) == (r1.is_allocated(pa) && !low_table_of(
                w0,
                root.0,
                0,
                KERNEL_VPN2_MIN as int,
                pa,
            )));
            assert(r1.is_allocated(pa) == (r0.is_allocated(pa) && !(stack_frame(ks, pa) && pa < ks + 8
                * 4096)));
            if pa != root.0 && is_frame(pa) {
                assert(ram.is_allocated(pa) == r2.is_allocated(pa));
            }
            if !is_frame(pa) {
                assert(!ram.is_allocated(pa));
                assert(!r0.is_allocated(pa));
            }
        }
        assert forall|t: usize| #[trigger] holds_table(ram.table_words(), t) == (holds_table(w0, t)
            && !reaped_frame(w0, *child, t)) by {
            assert(holds_table(r2.table_words(), t) == (holds_table(w0, t) && !low_table_of(
                w0,
                root.0,
                0,
                KERNEL_VPN2_MIN as int,
                t,
            )));
            if is_frame(t) && t != root.0 {
                crate::mm::page_table::lemma_frame_index_injective(t, root.0);
            }
            if stack_frame(ks, t) {
                assert(r0.is_allocated(t));
                assert(!holds_table(w0, t));
            }
        }
        assert forall|t: usize, k: int|
            0 <= k < 512 && !reaped_frame(w0, *child, t) implies #[trigger] pte_word(
            ram.table_words(),
            t,
            k,
        ) == pte_word(w0, t, k) by {
            assert(pte_word(r2.table_words(), t, k) == pte_word(w0, t, k));
            assert(holds_table(r2.table_words(), t) == (holds_table(w0, t) && !low_table_of(
                w0,
                root.0,
                0,
                KERNEL_VPN2_MIN as int,
                t,
            )));
            if is_frame(t) && t != root.0 {
                crate::mm::page_table::lemma_frame_index_injective(t, root.0);
            }
        }
        assert forall|pa: usize|
            is_frame(pa) && !reaped_frame(w0, *child, pa) implies #[trigger] ram.ref_of(pa) == r0.ref_of(
            pa,
        ) by {
            assert(ram.ref_of(pa) == r2.ref_of(pa));
            assert(r2.ref_of(pa) == r1.ref_of(pa));
            assert(r1.ref_of(pa) == r0.ref_of(pa));
        }
    }
}

/// What `wait` leaves to the caller.
#[derive(Clone, Copy, PartialEq, Eq, Structural, Debug)]
pub enum WaitResult {
    /// A zombie child was reaped: its pid, and the exit code that goes to
    /// the caller's pointer when that is not null.
    Reaped { pid: usize, code: usize },
    /// A child is still alive: the caller is now blocked and gives up the
    /// processor.
    Blocked,
    /// The caller has no child to wait for.
    NoChild,
}

pub open spec fn zombie_child(slot: Option<Process>, parent: usize) -> bool {
    slot matches Some(p) && p.parent_pid == parent && p.state is Zombie
}

pub open spec fn live_child(slot: Option<Process>, parent: usize) -> bool {
    slot matches Some(p) && p.parent_pid == parent && p.state != ProcessState::Gone && !(p.state is Zombie)
}

/// The first slot holding a zombie child of `parent`.
pub open spec fn first_zombie_child(procs: Seq<Option<Process>>, parent: usize) -> Option<int> {
    if exists|i: int| 0 <= i < procs.len() && zombie_child(#[trigger] procs[i], parent) {
        Some(
            choose|i: int|
                0 <= i < procs.len() && zombie_child(#[trigger] procs[i], parent) && forall|j: int|
                    0 <= j < i ==> !zombie_child(#[trigger] procs[j], parent),
        )
    } else {
        None
    }
}

pub open spec fn has_live_child(procs: Seq<Option<Process>>, parent: usize) -> bool {
    exists|i: int| 0 <= i < procs.len() && live_child(#[trigger] procs[i], parent)
}

/// The entry for `va` is a copy-on-write entry that a write must resolve.
pub open spec fn cow_pending_at(w: Seq<Seq<u64>>, root: usize, va: usize) -> bool {
    lookup_entry(w, root, va) matches Some(e) && cow_pending(e)
}

/// The child that `wait` would reap can be reaped: what it holds is its
/// own and lies outside the running process's page table, and a
/// copy-on-write entry at the exit-code pointer can be resolved.
pub open spec fn reap_ready(k: Kernel, ptr: usize) -> bool {
    match first_zombie_child(k.sched.procs@, k.sched.cur().pid) {
        Some(i) => {
            let ch = k.sched.procs@[i]->Some_0;
            let w = k.ram.table_words();
            &&& resources_held(k.ram, ch)
            &&& forall|pa: usize| reaped_frame(w, ch, pa) ==> #[trigger] outside_tree(w, k.root(), pa)
            &&& ptr != 0 ==> cow_resolvable(k.ram, k.root(), ptr)
            &&& ptr != 0 && cow_pending_at(w, k.root(), ptr) ==> (leaf_slot(w, k.root(), ptr) matches Some(
                (t, _),
            ) && below_second_level(w, ch.page_table.root.0, t))
        },
        None => true,
    }
}

fn find_zombie_child(sched: &Scheduler, parent: usize) -> (r: Option<usize>)
    requires
        sched.procs@.len() == MAX_PROCESSES,
    ensures
        r == match first_zombie_child(sched.procs@, parent) {
            Some(i) => Some(i as usize),
            None => None::<usize>,
        },
{
    let mut i: usize = 0;
    while i < MAX_PROCESSES
        invariant
            i <= MAX_PROCESSES,
            sched.procs@.len() == MAX_PROCESSES,
            forall|j: int| 0 <= j < i ==> !zombie_child(#[trigger] sched.procs@[j], parent),
        decreases MAX_PROCESSES - i,
    {
        match &sched.procs[i] {
            Some(p) => {
                if p.parent_pid == parent {
                    match p.state {
                        ProcessState::Zombie(_) => {
                            proof {
                                let procs = sched.procs@;
                                assert(zombie_child(procs[i as int], parent));
                                let k = first_zombie_child(procs, parent)->Some_0;
                                if k < i {
                                    assert(!zombie_child(procs[k], parent));
                                }
                                if k > i {
                                    assert(!zombie_child(procs[i as int], parent));
                                }
                            }
                            return Some(i);
                        },
                        _ => {},
                    }
                }
            },
            None => {},
        }
        i = i + 1;
    }
    None
}

fn find_live_child(sched: &Scheduler, parent: usize) -> (r: bool)
    requires
        sched.procs@.len() == MAX_PROCESSES,
    ensures
        r == has_live_child(sched.procs@, parent),
        r == exists|i: int|
            0 <= i < MAX_PROCESSES && (#[trigger] sched.procs@[i] matches Some(p) && p.parent_pid == parent && (
            p.state == ProcessState::Ready || p.state == ProcessState::Running || p.state
                == ProcessState::Blocked)),
{
    let mut i: usize = 0;
    while i < MAX_PROCESSES
        invariant
            i <= MAX_PROCESSES,
            sched.procs@.len() == MAX_PROCESSES,
            forall|j: int| 0 <= j < i ==> !live_child(#[trigger] sched.procs@[j], parent),
        decreases MAX_PROCESSES - i,
    {
        match &sched.procs[i] {
            Some(p) => {
                if p.parent_pid == parent && p.state != ProcessState::Gone {
                    match p.state {
                        ProcessState::Zombie(_) => {},
                        _ => {
                            assert(live_child(sched.procs@[i as int], parent));
                            return true;
                        },
                    }
                }
            },
            None => {},
        }
        i = i + 1;
    }
    false
}

/// Frames reaped from `root` are judged by its root and second-level
/// words only.
proof fn lemma_low_tables_same(w1: Seq<Seq<u64>>, w2: Seq<Seq<u64>>, root: usize)
    requires
        forall|t: usize| #[trigger] holds_table(w2, t) == holds_table(w1, t),
        forall|k: int| 0 <= k < 512 ==> #[trigger] pte_word(w2, root, k) == pte_word(w1, root, k),
        forall|i: int, j: int|
            0 <= i < KERNEL_VPN2_MIN && 0 <= j < 512 && pte_valid(pte_word(w1, root, i)) ==> #[trigger] pte_word(
                w2,
                l1_of(w1, root, i),
                j,
            ) == pte_word(w1, l1_of(w1, root, i), j),
    ensures
        forall|pa: usize|
            #[trigger] low_table_of(w2, root, 0, KERNEL_VPN2_MIN as int, pa) == low_table_of(
                w1,
                root,
                0,
                KERNEL_VPN2_MIN as int,
                pa,
            ),
{
    assert forall|pa: usize| #[trigger] low_table_of(w2, root, 0, KERNEL_VPN2_MIN as int, pa) == low_table_of(
        w1,
        root,
        0,
        KERNEL_VPN2_MIN as int,
        pa,
    ) by {
        if low_table_of(w1, root, 0, KERNEL_VPN2_MIN as int, pa) {
            let i2 = choose|i2: int|
                0 <= i2 < KERNEL_VPN2_MIN && pte_valid(#[trigger] pte_word(w1, root, i2)) && (l1_of(
                    w1,
                    root,
                    i2,
                ) == pa || freed_l0(w1, l1_of(w1, root, i2), 512, pa));
            assert(pte_word(w2, root, i2) == pte_word(w1, root, i2));
            if freed_l0(w1, l1_of(w1, root, i2), 512, pa) {
                let j2 = choose|j2: int|
                    0 <= j2 < 512 && pte_pointer(#[trigger] pte_word(w1, l1_of(w1, root, i2), j2))
                        && next_table(w1, l1_of(w1, root, i2), j2) == Some(pa);
                assert(pte_word(w2, l1_of(w2, root, i2), j2) == pte_word(w1, l1_of(w1, root, i2), j2));
                assert(freed_l0(w2, l1_of(w2, root, i2), 512, pa));
            }
            assert(low_table_of(w2, root, 0, KERNEL_VPN2_MIN as int, pa));
        }
        if low_table_of(w2, root, 0, KERNEL_VPN2_MIN as int, pa) {
            let i2 = choose|i2: int|
                0 <= i2 < KERNEL_VPN2_MIN && pte_valid(#[trigger] pte_word(w2, root, i2)) && (l1_of(
                    w2,
                    root,
                    i2,
                ) == pa || freed_l0(w2, l1_of(w2, root, i2), 512, pa));
            assert(pte_word(w2, root, i2) == pte_word(w1, root, i2));
            if freed_l0(w2, l1_of(w2, root, i2), 512, pa) {
                let j2 = choose|j2: int|
                    0 <= j2 < 512 && pte_pointer(#[trigger] pte_word(w2, l1_of(w2, root, i2), j2))
                        && next_table(w2, l1_of(w2, root, i2), j2) == Some(pa);
                assert(pte_word(w2, l1_of(w2, root, i2), j2) == pte_word(w1, l1_of(w1, root, i2), j2));
                assert(freed_l0(w1, l1_of(w1, root, i2), 512, pa));
            }
            assert(low_table_of(w1, root, 0, KERNEL_VPN2_MIN as int, pa));
        }
    }
}

/// No user page of the running process maps a frame that reaping `ch`
/// frees.
pub open spec fn reaps_no_user_frame(k: Kernel, ch: Process) -> bool {
    let w = k.ram.table_words();
    forall|va: usize|
        #![trigger user_frame_at(w, k.root(), va)]
        page_in(va, 0, USER_SPACE_TOP as int) && user_frame_at(w, k.root(), va) is Some ==> !reaped_frame(
            w,
            ch,
            user_frame_at(w, k.root(), va)->Some_0,
        )
}

/// What reaping a process frees was handed out.
proof fn lemma_reaped_allocated(ram: Ram, ch: Process, pa: usize)
    requires
        ram.wf(),
        resources_held(ram, ch),
        reaped_frame(ram.table_words(), ch, pa),
    ensures
        ram.is_allocated(pa),
{
    let w = ram.table_words();
    let croot = ch.page_table.root.0;
    if stack_frame(ch.kernel_stack_frame.0, pa) {
    } else if pa == croot {
        lemma_table_allocated(ram, pa);
    } else {
        let i2 = choose|i2: int|
            0 <= i2 < KERNEL_VPN2_MIN && pte_valid(#[trigger] pte_word(w, croot, i2)) && (l1_of(w, croot, i2)
                == pa || freed_l0(w, l1_of(w, croot, i2), 512, pa));
        if l1_of(w, croot, i2) != pa {
            let j2 = choose|j2: int|
                0 <= j2 < 512 && pte_pointer(#[trigger] pte_word(w, l1_of(w, croot, i2), j2))
                    && next_table(w, l1_of(w, croot, i2), j2) == Some(pa);
            assert(l0_of(w, croot, i2, j2) == pa);
        }
        lemma_table_allocated(ram, pa);
    }
}

/// What `wait` does (see [`Kernel::sys_wait`]).
pub open spec fn wait_post(o: Kernel, f: Kernel, ptr: usize, r: WaitResult) -> bool {
    let procs = o.sched.procs@;
    let cur = o.sched.cur();
    let root = o.root();
    let ow = o.ram.table_words();
    let fw = f.ram.table_words();
    match first_zombie_child(procs, cur.pid) {
        Some(i) => {
            let ch = procs[i]->Some_0;
            let pending = ptr != 0 && cow_pending_at(ow, root, ptr);
            &&& r == WaitResult::Reaped { pid: ch.pid, code: ch.state->Zombie_0 }
            &&& f.sched.procs@ == procs.update(i, Some(Process { state: ProcessState::Gone, ..ch }))
            &&& forall|pa: usize| reaped_frame(ow, ch, pa) ==> !#[trigger] f.ram.is_allocated(pa)
            &&& o.user_counted() && reaps_no_user_frame(o, ch) ==> f.user_counted()
            &&& forall|pa: usize|
                #![trigger f.ram.is_allocated(pa)]
                #![trigger f.ram.ref_of(pa)]
                is_frame(pa) && !reaped_frame(ow, ch, pa) && !(pending && (pa == spec_ppn_to_addr(
                    lookup_entry(ow, root, ptr)->Some_0,
                ) || !o.ram.is_allocated(pa))) ==> f.ram.is_allocated(pa) == o.ram.is_allocated(pa)
                    && f.ram.ref_of(pa) == o.ram.ref_of(pa)
            &&& forall|va: usize|
                !(pending && page_num(va) == page_num(ptr)) ==> #[trigger] lookup_entry(
                    fw,
                    root,
                    va,
                ) == lookup_entry(ow, root, va)
            &&& pending ==> {
                let e = lookup_entry(ow, root, ptr)->Some_0;
                let pa = spec_ppn_to_addr(e);
                &&& o.ram.ref_of(pa) > 1 ==> exists|to: usize|
                    #![trigger cow_copied_entry(e, to)]
                    !o.ram.is_allocated(to) && lookup_entry(fw, root, ptr) == Some(
                        cow_copied_entry(e, to),
                    )
                &&& o.ram.ref_of(pa) <= 1 ==> lookup_entry(fw, root, ptr) == Some(
                    cow_reused_entry(e),
                )
            }
        },
        None => if has_live_child(procs, cur.pid) {
            &&& r == WaitResult::Blocked
            &&& f.ram == o.ram
            &&& f.sched.procs@ == procs.update(
                o.sched.current as int,
                Some(Process { state: ProcessState::Blocked, ..cur }),
            )
        } else {
            r == WaitResult::NoChild && f == o
        },
    }
}

impl Kernel {
    /// `wait`: reaps the first zombie child of the running process (its
    /// kernel stack, lower-half tables and root table are freed and its
    /// slot is marked gone) and reports its pid and exit code; a
    /// copy-on-write page at `exit_code_ptr` is first made writable.
    /// Without a zombie child, blocks the caller when a child is alive,
    /// and reports that it has none otherwise.
    pub fn sys_wait(&mut self, exit_code_ptr: usize) -> (r: WaitResult)
        requires
            old(self).wf(),
            reap_ready(*old(self), exit_code_ptr),
        ensures
            final(self).wf(),
            final(self).sched.current == old(self).sched.current,
            final(self).sched.next_pid == old(self).sched.next_pid,
            wait_post(*old(self), *final(self), exit_code_ptr, r),

    {
        let cur_pid = self.sched.current().pid;
        let ghost o = *self;
        let ghost root = o.root();
        let ghost ow = o.ram.table_words();
        match find_zombie_child(&self.sched, cur_pid) {
            Some(idx) => {
                let ch = match &self.sched.procs[idx] {
                    Some(p) => *p,
                    None => {
                        assert(false);
                        return WaitResult::NoChild;
                    },
                };
                let code = match ch.state {
                    ProcessState::Zombie(c) => c,
                    _ => {
                        assert(false);
                        return WaitResult::NoChild;
                    },
                };
                proof {
                    reveal(outside_tree);
                    assert(reaped_frame(ow, ch, ch.page_table.root.0));
                    assert(outside_tree(ow, root, ch.page_table.root.0));
                    assert(idx != o.sched.current);
                }
                let resolved = if exit_code_ptr != 0 {
                    self.resolve_cow(exit_code_ptr)
                } else {
                    None
                };
                let ghost mid = self.ram;
                let ghost mw = mid.table_words();
                let ghost croot = ch.page_table.root.0;
                proof {
                    reveal(outside_tree);
                    if !(exit_code_ptr != 0 && cow_pending_at(ow, root, exit_code_ptr)) {
                        assert(mid == o.ram);
                    } else {
                        // the resolved entry lies in a last-level table of the running
                        // process, below the child's upper levels
                        let (ts, ks) = leaf_slot(ow, root, exit_code_ptr)->Some_0;
                        let e = lookup_entry(ow, root, exit_code_ptr)->Some_0;
                        crate::mm::page_table::lemma_vpn_bounds(exit_code_ptr);
                        let v2 = crate::mm::page_table::spec_vpn2(exit_code_ptr) as int;
                        let v1 = crate::mm::page_table::spec_vpn1(exit_code_ptr) as int;
                        assert(pte_valid(pte_word(ow, root, v2)));
                        assert(pte_valid(pte_word(ow, l1_of(ow, root, v2), v1)));
                        assert(ts == l0_of(ow, root, v2, v1));
                        assert forall|t: usize| reaped_frame(ow, ch, t) implies t != ts by {
                            assert(outside_tree(ow, root, t));
                        }
                        let new_e = pte_word(mw, ts, ks);
                        assert(mw == ow.update(
                            crate::mm::frame::spec_frame_index(ts),
                            ow[crate::mm::frame::spec_frame_index(ts)].update(ks, new_e),
                        ));
                        crate::mm::page_table::lemma_tree_shaped_leaf_write(ow, mw, croot, ts, ks, new_e);
                        crate::mm::page_table::lemma_tree_shaped_leaf_write(ow, mw, root, ts, ks, new_e);
                        crate::mm::page_table::lemma_write_words(ow, mw, ts, ks, new_e);
                        assert forall|k: int| 0 <= k < 512 implies #[trigger] pte_word(mw, croot, k)
                            == pte_word(ow, croot, k) by {
                            assert(reaped_frame(ow, ch, croot));
                        }
                        assert forall|i: int, j: int|
                            0 <= i < KERNEL_VPN2_MIN && 0 <= j < 512 && pte_valid(pte_word(ow, croot, i)) implies #[trigger] pte_word(
                            mw,
                            l1_of(ow, croot, i),
                            j,
                        ) == pte_word(ow, l1_of(ow, croot, i), j) by {
                            assert(low_table_of(ow, croot, 0, KERNEL_VPN2_MIN as int, l1_of(ow, croot, i)));
                        }
                        lemma_low_tables_same(ow, mw, croot);
                        assert forall|k: int| 0 <= k < 512 implies #[trigger] pte_word(mw, root, k)
                            == pte_word(ow, root, k) by {}
                        assert forall|i: int, j: int|
                            0 <= i < 512 && 0 <= j < 512 && pte_valid(pte_word(ow, root, i)) implies #[trigger] pte_word(
                            mw,
                            l1_of(mw, root, i),
                            j,
                        ) == pte_word(ow, l1_of(ow, root, i), j) by {
                            assert(l1_of(mw, root, i) == l1_of(ow, root, i));
                        }
                        crate::mm::page_table::lemma_same_upper_levels(ow, mw, root);
                        assert forall|pa: usize| #[trigger] stack_frame(ch.kernel_stack_frame.0, pa) implies mid.is_allocated(
                            pa,
                        ) && !holds_table(mw, pa) by {
                            assert(o.ram.is_allocated(pa));
                            assert(!holds_table(ow, pa));
                            if o.ram.ref_of(spec_ppn_to_addr(e)) > 1 {
                                assert(is_frame(pa));
                            }
                        }
                    }
                    assert forall|pa: usize| #[trigger] reaped_frame(mw, ch, pa) == reaped_frame(ow, ch, pa) by {}
                    assert(resources_held(mid, ch));
                    assert forall|pa: usize| reaped_frame(mw, ch, pa) implies #[trigger] outside_tree(
                        mw,
                        root,
                        pa,
                    ) by {
                        assert(outside_tree(ow, root, pa));
                    }
                }
                free_user_pt_resources(&mut self.ram, &ch);
                proof {
                    reveal(outside_tree);
                    let fw = self.ram.table_words();
                    assert(crate::syscall::fork::same_tree(mw, fw, root)) by {
                        assert(!reaped_frame(mw, ch, root)) by {
                            if reaped_frame(mw, ch, root) {
                                assert(outside_tree(mw, root, root));
                            }
                        }
                        assert forall|i: int|
                            0 <= i < 512 && pte_valid(#[trigger] pte_word(mw, root, i)) && holds_table(
                                mw,
                                l1_of(mw, root, i),
                            ) implies holds_table(fw, l1_of(mw, root, i)) by {
                            if reaped_frame(mw, ch, l1_of(mw, root, i)) {
                                assert(outside_tree(mw, root, l1_of(mw, root, i)));
                            }
                        }
                        assert forall|i: int, j: int|
                            0 <= i < 512 && 0 <= j < 512 && pte_valid(pte_word(mw, root, i)) && pte_valid(
                                #[trigger] pte_word(mw, l1_of(mw, root, i), j),
                            ) && holds_table(mw, l0_of(mw, root, i, j)) implies holds_table(
                            fw,
                            l0_of(mw, root, i, j),
                        ) by {
                            if reaped_frame(mw, ch, l0_of(mw, root, i, j)) {
                                assert(outside_tree(mw, root, l0_of(mw, root, i, j)));
                            }
                        }
                        assert forall|i: int, j: int|
                            0 <= i < 512 && 0 <= j < 512 && pte_valid(pte_word(mw, root, i)) implies #[trigger] pte_word(
                            fw,
                            l1_of(mw, root, i),
                            j,
                        ) == pte_word(mw, l1_of(mw, root, i), j) by {
                            if reaped_frame(mw, ch, l1_of(mw, root, i)) {
                                assert(outside_tree(mw, root, l1_of(mw, root, i)));
                            }
                        }
                        assert forall|i: int, j: int, k: int|
                            0 <= i < 512 && 0 <= j < 512 && 0 <= k < 512 && pte_valid(pte_word(mw, root, i))
                                && pte_valid(pte_word(mw, l1_of(mw, root, i), j)) implies #[trigger] pte_word(
                            fw,
                            l0_of(mw, root, i, j),
                            k,
                        ) == pte_word(mw, l0_of(mw, root, i, j), k) by {
                            if reaped_frame(mw, ch, l0_of(mw, root, i, j)) {
                                assert(outside_tree(mw, root, l0_of(mw, root, i, j)));
                            }
                        }
                    }
                    crate::syscall::fork::lemma_same_tree(mw, fw, root);
                    let pending = exit_code_ptr != 0 && cow_pending_at(ow, root, exit_code_ptr);
                    assert forall|pa: usize|
                        is_frame(pa) && !reaped_frame(ow, ch, pa) && !(pending && (pa == spec_ppn_to_addr(
                            lookup_entry(ow, root, exit_code_ptr)->Some_0,
                        ) || !o.ram.is_allocated(pa))) implies #[trigger] self.ram.is_allocated(pa)
                        == o.ram.is_allocated(pa) && self.ram.ref_of(pa) == o.ram.ref_of(pa) by {
                        assert(!reaped_frame(mw, ch, pa));
                        if pending {
                            let e = lookup_entry(ow, root, exit_code_ptr)->Some_0;
                            let cr = resolved->Some_0;
                            assert(mid.is_allocated(pa) == o.ram.is_allocated(pa) && mid.ref_of(pa) == o.ram.ref_of(
                                pa,
                            ));
                        } else {
                            assert(mid == o.ram);
                        }
                    }
                    if o.user_counted() && reaps_no_user_frame(o, ch) {
                        o.lemma_user_counted();
                        if exit_code_ptr != 0 && cow_pending_at(ow, root, exit_code_ptr) {
                            let e = lookup_entry(ow, root, exit_code_ptr)->Some_0;
                            let cr = resolved->Some_0;
                            crate::trap::lemma_counted_after_cow(o.ram, mid, root, exit_code_ptr, e, cr);
                            crate::trap::lemma_cow_frames_old_or_fresh(o.ram, mid, root, exit_code_ptr, e, cr);
                        } else {
                            assert(mid == o.ram);
                        }
                        assert forall|i: int, j: int|
                            0 <= i < 512 && 0 <= j < 512 && pte_valid(pte_word(mw, root, i)) implies #[trigger] pte_word(
                            fw,
                            l1_of(fw, root, i),
                            j,
                        ) == pte_word(mw, l1_of(mw, root, i), j) by {
                            assert(l1_of(fw, root, i) == l1_of(mw, root, i));
                        }
                        crate::mm::page_table::lemma_same_upper_levels(mw, fw, root);
                        assert forall|va: usize|
                            page_in(va, 0, USER_SPACE_TOP as int) && #[trigger] user_frame_at(mw, root, va) is Some implies self.ram.is_allocated(
                            user_frame_at(mw, root, va)->Some_0,
                        ) && self.ram.ref_of(user_frame_at(mw, root, va)->Some_0) == mid.ref_of(
                            user_frame_at(mw, root, va)->Some_0,
                        ) by {
                            let q = user_frame_at(mw, root, va)->Some_0;
                            if reaped_frame(ow, ch, q) {
                                if user_frame_at(mw, root, va) == user_frame_at(ow, root, va) {
                                    assert(!reaped_frame(ow, ch, q));
                                } else {
                                    lemma_reaped_allocated(o.ram, ch, q);
                                }
                            }
                            assert(!reaped_frame(mw, ch, q));
                        }
                        lemma_counted_kept(mid, self.ram, root);
                    }
                }
                let mut gone = ch;
                gone.state = ProcessState::Gone;
                self.sched.install(idx, gone);
                proof {
                    if o.user_counted() && reaps_no_user_frame(o, ch) {
                        self.lemma_user_counted();
                    }
                }
                WaitResult::Reaped { pid: ch.pid, code }
            },
            None => {
                if find_live_child(&self.sched, cur_pid) {
                    let mut c = *self.sched.current();
                    c.state = ProcessState::Blocked;
                    self.sched.set_current(c);
                    assert(self.sched.procs@ =~= o.sched.procs@.update(
                        o.sched.current as int,
                        Some(Process { state: ProcessState::Blocked, ..o.sched.cur() }),
                    ));
                    return WaitResult::Blocked;
                }
                WaitResult::NoChild
            },
        }
    }
}


/// A parent's `wait` reports the exit code that its child gave `exit`: when
/// the child's slot is as `exit` left it, and no zombie child of the parent
/// sits in an earlier slot, `wait` reaps that child, reports its pid and
/// code, and marks its slot gone.
pub proof fn law_wait_reports_exit_code(
    k0: Kernel,
    k1: Kernel,
    code: usize,
    k2: Kernel,
    k3: Kernel,
    ptr: usize,
    r: WaitResult,
)
    requires
        k0.sched.wf(),
        exit_post(k0, k1, code),
        k2.sched.wf(),
        k2.sched.procs@[k0.sched.current as int] == k1.sched.procs@[k0.sched.current as int],
        k2.sched.cur().pid == k1.sched.procs@[k0.sched.current as int]->Some_0.parent_pid,
        forall|j: int|
            0 <= j < k0.sched.current ==> !zombie_child(#[trigger] k2.sched.procs@[j], k2.sched.cur().pid),
        wait_post(k2, k3, ptr, r),
    ensures
        k1.sched.procs@[k0.sched.current as int] matches Some(z) && z.pid == k0.sched.cur().pid
            && z.state == ProcessState::Zombie(code),
        r == (WaitResult::Reaped { pid: k0.sched.cur().pid, code }),
        k3.sched.procs@[k0.sched.current as int] matches Some(g) && g.state == ProcessState::Gone,
{
    let c = k0.sched.current as int;
    let procs = k0.sched.procs@;
    let cur = k0.sched.cur();
    let p1 = Seq::new(procs.len(), |i: int| reparented(procs[i], cur.pid));
    let p2 = p1.update(c, Some(Process { state: ProcessState::Zombie(code), ..p1[c]->Some_0 }));
    assert(p2[c]->Some_0.pid == cur.pid);
    if let Some(i) = first_blocked_with_pid(p2, p2[c]->Some_0.parent_pid) {
        assert(blocked_with_pid(p2[i], p2[c]->Some_0.parent_pid)) by {
            assert(exists|i: int| 0 <= i < p2.len() && blocked_with_pid(#[trigger] p2[i], p2[c]->Some_0.parent_pid));
        }
        assert(i != c);
    }
    let z = k1.sched.procs@[c]->Some_0;
    assert(k1.sched.procs@[c] == p2[c]);
    let parent = k2.sched.cur().pid;
    assert(zombie_child(k2.sched.procs@[c], parent));
    let procs2 = k2.sched.procs@;
    assert(first_zombie_child(procs2, parent) == Some(c)) by {
        assert(0 <= c < procs2.len() && zombie_child(procs2[c], parent));
        let i = choose|i: int|
            0 <= i < procs2.len() && zombie_child(#[trigger] procs2[i], parent) && forall|j: int|
                0 <= j < i ==> !zombie_child(#[trigger] procs2[j], parent);
        assert(0 <= i < procs2.len() && zombie_child(procs2[i], parent) && forall|j: int|
            0 <= j < i ==> !zombie_child(#[trigger] procs2[j], parent)) by {
            assert(forall|j: int| 0 <= j < c ==> !zombie_child(#[trigger] procs2[j], parent));
        }
        if i < c {
            assert(!zombie_child(procs2[i], parent));
        }
        if i > c {
            assert(!zombie_child(procs2[c], parent));
        }
    }
}

proof fn lemma_zombie_min(procs: Seq<Option<Process>>, parent: usize, k: int)
    requires
        0 <= k < procs.len(),
        zombie_child(procs[k], parent),
    ensures
        exists|i: int|
            0 <= i < procs.len() && zombie_child(#[trigger] procs[i], parent) && forall|j: int|
                0 <= j < i ==> !zombie_child(#[trigger] procs[j], parent),
    decreases k,
{
    if exists|j: int| 0 <= j < k && zombie_child(#[trigger] procs[j], parent) {
        let j = choose|j: int| 0 <= j < k && zombie_child(#[trigger] procs[j], parent);
        lemma_zombie_min(procs, parent, j);
    } else {
        assert(forall|j: int| 0 <= j < k ==> !zombie_child(#[trigger] procs[j], parent));
    }
}

/// `wait` reports that the caller has no child only when no process that
/// is not gone names it as parent; when a child is ready, running or
/// blocked and none is a zombie, the caller blocks; when some child is a
/// zombie, one is reaped.
pub proof fn law_wait_outcome(k0: Kernel, k1: Kernel, ptr: usize, r: WaitResult)
    requires
        k0.sched.wf(),
        wait_post(k0, k1, ptr, r),
    ensures
        (r == WaitResult::NoChild) == (forall|i: int|
            0 <= i < MAX_PROCESSES ==> !(#[trigger] k0.sched.procs@[i] matches Some(p) && p.parent_pid
                == k0.sched.cur().pid && p.state != ProcessState::Gone)),
        (exists|i: int|
            0 <= i < MAX_PROCESSES && (#[trigger] k0.sched.procs@[i] matches Some(p) && p.parent_pid
                == k0.sched.cur().pid && (p.state == ProcessState::Ready || p.state == ProcessState::Running
                || p.state == ProcessState::Blocked))) && (forall|i: int|
            0 <= i < MAX_PROCESSES ==> !(#[trigger] k0.sched.procs@[i] matches Some(p) && p.parent_pid
                == k0.sched.cur().pid && p.state is Zombie)) ==> r == WaitResult::Blocked,
        (r is Reaped) == (exists|i: int|
            0 <= i < MAX_PROCESSES && (#[trigger] k0.sched.procs@[i] matches Some(p) && p.parent_pid
                == k0.sched.cur().pid && p.state is Zombie)),
        r matches WaitResult::Reaped { pid, code } ==> exists|i: int|
            0 <= i < MAX_PROCESSES && (#[trigger] k0.sched.procs@[i] matches Some(p) && p.parent_pid
                == k0.sched.cur().pid && p.pid == pid && p.state == ProcessState::Zombie(code))
                && (k1.sched.procs@[i] matches Some(q) && q.pid == pid && q.state == ProcessState::Gone),
{
    let procs = k0.sched.procs@;
    let pid = k0.sched.cur().pid;
    if exists|i: int| 0 <= i < MAX_PROCESSES && (#[trigger] procs[i] matches Some(p) && p.parent_pid == pid
        && p.state is Zombie) {
        let i = choose|i: int| 0 <= i < MAX_PROCESSES && (#[trigger] procs[i] matches Some(p) && p.parent_pid
            == pid && p.state is Zombie);
        assert(zombie_child(procs[i], pid));
        lemma_zombie_min(procs, pid, i);
        let m = first_zombie_child(procs, pid)->Some_0;
        assert(zombie_child(procs[m], pid));
        assert(k1.sched.procs@[m] matches Some(q) && q.pid == procs[m]->Some_0.pid && q.state
            == ProcessState::Gone);
    } else {
        assert forall|i: int| 0 <= i < procs.len() implies !zombie_child(#[trigger] procs[i], pid) by {}
    }
    if exists|i: int| 0 <= i < MAX_PROCESSES && (#[trigger] procs[i] matches Some(p) && p.parent_pid == pid
        && (p.state == ProcessState::Ready || p.state == ProcessState::Running || p.state
        == ProcessState::Blocked)) {
        let i = choose|i: int| 0 <= i < MAX_PROCESSES && (#[trigger] procs[i] matches Some(p) && p.parent_pid
            == pid && (p.state == ProcessState::Ready || p.state == ProcessState::Running || p.state
            == ProcessState::Blocked));
        assert(live_child(procs[i], pid));
    }
    if has_live_child(procs, pid) {
        let i = choose|i: int| 0 <= i < procs.len() && live_child(#[trigger] procs[i], pid);
        assert(procs[i] matches Some(p) && p.parent_pid == pid && p.state != ProcessState::Gone);
    }
    if exists|i: int| 0 <= i < MAX_PROCESSES && (#[trigger] procs[i] matches Some(p) && p.parent_pid == pid
        && p.state != ProcessState::Gone) {
        let i = choose|i: int| 0 <= i < MAX_PROCESSES && (#[trigger] procs[i] matches Some(p) && p.parent_pid
            == pid && p.state != ProcessState::Gone);
        if procs[i]->Some_0.state is Zombie {
            assert(zombie_child(procs[i], pid));
        } else {
            assert(live_child(procs[i], pid));
        }
    }
}

} // verus!
