//! `fork`: the child gets the parent's address space, its user pages shared
//! copy-on-write, and a copy of the parent's process record.
use vstd::prelude::*;

use crate::mm::frame::{
    holds_table, is_frame, pte_word, spec_frame_index, Ram, ENTRIES_PER_TABLE, NUM_FRAMES,
};
use crate::mm::page_table::{
    l0_of, l1_of, leaf_slot, lemma_frame_index_injective, outside_tree,
    translate, writes_on_path, lemma_table_allocated, lemma_zero_entry, page_num, lemma_page_num,
    pte_leaf, spec_new_leaf, PTE_U, PageTable, VirtAddr, only_allocates, frames_available,
    lemma_only_allocates_trans, lemma_vpn_bounds, words_wf, lookup_entry, pte_valid,
    spec_ppn_to_addr, spec_vpn0, spec_vpn1, spec_vpn2, tree_shaped, PTEntry, PhysAddr, PTE_COW,
    PTE_W, KERNEL_VPN2_MIN, fresh_links,
};
use crate::mm::frame::RAM_END;
use crate::syscall::errno::{linux_error, spec_linux_error, EAGAIN};
use crate::syscall::kernel::Kernel;
use crate::syscall::user_mem::{
    frames_counted, lemma_counted_kept, lemma_not_mapped_intro, lemma_unallocated_outside, lemma_write_page_entry, not_mapped_in, page_in,
    user_entry, user_frame_at,
};
use crate::task::process::USER_SPACE_TOP;
use crate::task::process::{Process, ProcessState, KERNEL_STACK_PAGES, KERNEL_STACK_SIZE};
use crate::task::scheduler::{is_reusable, MAX_PROCESSES};
use crate::task::trapframe::{TrapFrame, REG_A0};
use crate::trap::{cow_resolved, CowResult};

verus! {

/// An entry as the parent keeps it after `fork`: a writable user page
/// becomes read-only and copy-on-write; every other entry is kept.
pub open spec fn cow_marked(e: u64) -> u64 {
    if user_entry(e) && e & PTE_W != 0 {
        (e & !PTE_W) | PTE_COW
    } else {
        e
    }
}

/// The entry that the walk from `root` finds for `va` after the lower half
/// is marked: marked in the lower half, as before above it.
pub open spec fn marked_entry(e: Option<u64>, va: usize) -> Option<u64> {
    match e {
        Some(x) => Some(
            if spec_vpn2(va) < KERNEL_VPN2_MIN {
                cow_marked(x)
            } else {
                x
            },
        ),
        None => None,
    }
}


/// The frame of every user page of the lower half is a frame of RAM.
pub open spec fn lower_user_frames_in_ram(w: Seq<Seq<u64>>, root: usize) -> bool {
    forall|va: usize|
        #![trigger user_frame_at(w, root, va)]
        page_num(va) < LOWER_HALF_PAGES && user_frame_at(w, root, va) is Some ==> is_frame(
            user_frame_at(w, root, va)->Some_0,
        )
}

/// A reference count after one more reference (wrapping at the maximum).
pub open spec fn ref_inc(c: u32) -> u32 {
    if c == u32::MAX {
        0
    } else {
        (c + 1) as u32
    }
}

/// The pages below page `n + 1` map `pa` exactly when the pages below page
/// `n` do, or page `n` does.
proof fn lemma_mapped_step(w: Seq<Seq<u64>>, root: usize, n: usize, pa: usize)
    requires
        n < LOWER_HALF_PAGES,
    ensures
        not_mapped_in(w, root, 0, (n + 1) * 4096, pa) == (not_mapped_in(w, root, 0, n * 4096, pa)
            && user_frame_at(w, root, n << 12usize) != Some(pa)),
{
    reveal(not_mapped_in);
    let va = n << 12usize;
    lemma_lower_half_pages(va, n);
    assert forall|v: usize| page_num(v) == n implies #[trigger] user_frame_at(w, root, v)
        == user_frame_at(w, root, va) by {
        lemma_page_num(v, va);
    }
    if user_frame_at(w, root, va) == Some(pa) {
        assert(page_in(va, 0, (n + 1) * 4096));
    }
}

/// With no two user pages sharing a frame, the frame of page `n` is mapped
/// by no earlier page.
proof fn lemma_first_mapping(ram: Ram, root: usize, n: usize, pa: usize)
    requires
        n < LOWER_HALF_PAGES,
        frames_counted(ram, root, 0, USER_SPACE_TOP as int),
        user_frame_at(ram.table_words(), root, n << 12usize) == Some(pa),
    ensures
        not_mapped_in(ram.table_words(), root, 0, n * 4096, pa),
{
    let w = ram.table_words();
    let va = n << 12usize;
    lemma_lower_half_pages(va, n);
    assert(page_in(va, 0, USER_SPACE_TOP as int));
    assert forall|v: usize| page_in(v, 0, n * 4096) implies #[trigger] user_frame_at(w, root, v)
        != Some(pa) by {
        assert(page_in(v, 0, USER_SPACE_TOP as int));
        assert(page_num(v) != page_num(va));
    }
    lemma_not_mapped_intro(w, root, 0, n * 4096, pa);
}

/// Marks the parent's lower half for sharing, page by page: each user page
/// gets one more reference to its frame, and each writable one becomes
/// read-only and copy-on-write.
fn mark_lower_half(ram: &mut Ram, parent: &PageTable)
    requires
        old(ram).wf(),
        tree_shaped(old(ram).table_words(), parent.root.0),
        lower_user_frames_in_ram(old(ram).table_words(), parent.root.0),
    ensures
        final(ram).wf(),
        final(ram).next_frame == old(ram).next_frame,
        final(ram).free_list@ == old(ram).free_list@,
        tree_shaped(final(ram).table_words(), parent.root.0),
        forall|va: usize|
            #[trigger] lookup_entry(final(ram).table_words(), parent.root.0, va) == marked_entry(
                lookup_entry(old(ram).table_words(), parent.root.0, va),
                va,
            ),
        forall|t: usize| #[trigger] holds_table(final(ram).table_words(), t) == holds_table(
            old(ram).table_words(),
            t,
        ),
        forall|pa: usize| #[trigger] outside_tree(final(ram).table_words(), parent.root.0, pa) == outside_tree(
            old(ram).table_words(),
            parent.root.0,
            pa,
        ),
        forall|pa: usize|
            is_frame(pa) && not_mapped_in(
                old(ram).table_words(),
                parent.root.0,
                0,
                USER_SPACE_TOP as int,
                pa,
            ) ==> #[trigger] final(ram).ref_of(pa) == old(ram).ref_of(pa),
        frames_counted(*old(ram), parent.root.0, 0, USER_SPACE_TOP as int) ==> forall|pa: usize|
            is_frame(pa) && !not_mapped_in(
                old(ram).table_words(),
                parent.root.0,
                0,
                USER_SPACE_TOP as int,
                pa,
            ) ==> #[trigger] final(ram).ref_of(pa) == ref_inc(old(ram).ref_of(pa)),
{
    let ghost p = parent.root.0;
    let ghost r0 = *ram;
    let ghost w0 = ram.table_words();
    let mut n: usize = 0;
    proof {
        reveal(not_mapped_in);
        assert forall|pa: usize| #[trigger] not_mapped_in(w0, p, 0, 0, pa) by {}
    }
    while n < LOWER_HALF_PAGES
        invariant
            n <= LOWER_HALF_PAGES,
            p == parent.root.0,
            r0 == *old(ram),
            w0 == r0.table_words(),
            ram.wf(),
            ram.next_frame == r0.next_frame,
            ram.free_list@ == r0.free_list@,
            words_wf(w0),
            tree_shaped(w0, p),
            tree_shaped(ram.table_words(), p),
            lower_user_frames_in_ram(w0, p),
            forall|t: usize| #[trigger] holds_table(ram.table_words(), t) == holds_table(w0, t),
            forall|pa: usize| #[trigger] outside_tree(ram.table_words(), p, pa) == outside_tree(w0, p, pa),
            forall|va: usize| #[trigger] leaf_slot(ram.table_words(), p, va) == leaf_slot(w0, p, va),
            forall|va: usize|
                #[trigger] lookup_entry(ram.table_words(), p, va) == if page_num(va) < n {
                    marked_entry(lookup_entry(w0, p, va), va)
                } else {
                    lookup_entry(w0, p, va)
                },
            forall|pa: usize|
                is_frame(pa) && not_mapped_in(w0, p, 0, n * 4096, pa) ==> #[trigger] ram.ref_of(pa)
                    == r0.ref_of(pa),
            frames_counted(r0, p, 0, USER_SPACE_TOP as int) ==> forall|pa: usize|
                is_frame(pa) && !not_mapped_in(w0, p, 0, n * 4096, pa) ==> #[trigger] ram.ref_of(pa)
                    == ref_inc(r0.ref_of(pa)),
        decreases LOWER_HALF_PAGES - n,
    {
        let ghost w = ram.table_words();
        let ghost r1 = *ram;
        let va: usize = n << 12;
        proof {
            lemma_lower_half_pages(va, n);
        }
        let mut fa: Option<usize> = None;
        if let Some(slot) = parent.lookup(ram, VirtAddr(va)) {
            let e = PTEntry(ram.read_pte(slot.table, slot.index));
            assert(lookup_entry(w, p, va) == Some(e.0));
            assert(lookup_entry(w0, p, va) == Some(e.0));
            if e.is_valid() && e.is_u() {
                assert(user_entry(e.0));
                assert(user_frame_at(w0, p, va) == Some(spec_ppn_to_addr(e.0)));
                let pa = e.ppn_to_addr();
                ram.inc_ref(pa);
                fa = Some(pa.0);
                if e.is_w() {
                    let mut m = e;
                    m.clear_w();
                    m.set_cow();
                    assert(m.0 == cow_marked(e.0));
                    let ghost w1 = ram.table_words();
                    ram.write_pte(slot.table, slot.index, m.0);
                    proof {
                        lemma_write_page_entry(w1, ram.table_words(), p, va, slot.table.0, slot.index as int, m.0);
                        assert forall|t: usize| #[trigger] holds_table(ram.table_words(), t) == holds_table(
                            w1,
                            t,
                        ) by {
                            if is_frame(t) && t != slot.table.0 {
                                lemma_frame_index_injective(t, slot.table.0);
                            }
                        }
                    }
                } else {
                    assert(cow_marked(e.0) == e.0);
                }
            } else {
                assert(cow_marked(e.0) == e.0);
                assert(user_frame_at(w0, p, va) is None);
            }
        } else {
            assert(lookup_entry(w0, p, va) is None);
        }
        proof {
            let w2 = ram.table_words();
            assert forall|v: usize| #[trigger] lookup_entry(w2, p, v) == if page_num(v) < n + 1 {
                marked_entry(lookup_entry(w0, p, v), v)
            } else {
                lookup_entry(w0, p, v)
            } by {
                lemma_page_num(v, va);
                if page_num(v) == n {
                    assert(leaf_slot(w0, p, v) == leaf_slot(w0, p, va));
                    assert(spec_vpn2(v) == spec_vpn2(va));
                }
            }
            assert(fa == user_frame_at(w0, p, va));
            assert forall|pa: usize|
                is_frame(pa) && not_mapped_in(w0, p, 0, (n + 1) * 4096, pa) implies #[trigger] ram.ref_of(pa)
                == r0.ref_of(pa) by {
                lemma_mapped_step(w0, p, n, pa);
                if let Some(f) = fa {
                    if pa != f {
                        lemma_frame_index_injective(pa, f);
                    }
                }
                assert(r1.ref_of(pa) == r0.ref_of(pa));
            }
            if frames_counted(r0, p, 0, USER_SPACE_TOP as int) {
                assert forall|pa: usize|
                    is_frame(pa) && !not_mapped_in(w0, p, 0, (n + 1) * 4096, pa) implies #[trigger] ram.ref_of(
                    pa,
                ) == ref_inc(r0.ref_of(pa)) by {
                    lemma_mapped_step(w0, p, n, pa);
                    if let Some(f) = fa {
                        if pa == f {
                            lemma_first_mapping(r0, p, n, f);
                            assert(r1.ref_of(pa) == r0.ref_of(pa));
                        } else {
                            lemma_frame_index_injective(pa, f);
                            assert(r1.ref_of(pa) == ref_inc(r0.ref_of(pa)));
                        }
                    } else {
                        assert(r1.ref_of(pa) == ref_inc(r0.ref_of(pa)));
                    }
                }
            }
        }
        n = n + 1;
    }
    proof {
        assert forall|va: usize| #[trigger] lookup_entry(ram.table_words(), p, va) == marked_entry(
            lookup_entry(w0, p, va),
            va,
        ) by {
            lemma_lower_half_pages(va, 0);
        }
    }
}



/// Marking keeps the frame and the user bit of an entry.
proof fn lemma_marked_frame(e: u64)
    ensures
        spec_ppn_to_addr(cow_marked(e)) == spec_ppn_to_addr(e),
        user_entry(cow_marked(e)) == user_entry(e),
{
    let m = (e & !0x4u64) | 0x100u64;
    assert(m & 1u64 == e & 1u64 && m & 0x10u64 == e & 0x10u64 && (((m >> 10u64) & 0xFFFF_FFFF_FFFFu64)
        == ((e >> 10u64) & 0xFFFF_FFFF_FFFFu64))) by (bit_vector)
        requires
            m == (e & !0x4u64) | 0x100u64,
    ;
}

/// No frame handed out has the highest count, so one more reference never
/// wraps.
pub open spec fn counts_below_max(ram: Ram) -> bool {
    forall|pa: usize| ram.is_allocated(pa) ==> #[trigger] ram.ref_of(pa) < u32::MAX
}

/// After the parent's lower half is marked and each user frame has one more
/// reference, the parent's user frames are still counted.
proof fn lemma_counted_after_mark(r0: Ram, r1: Ram, p: usize)
    requires
        frames_counted(r0, p, 0, USER_SPACE_TOP as int),
        counts_below_max(r0),
        r1.next_frame == r0.next_frame,
        r1.free_list@ == r0.free_list@,
        forall|va: usize|
            #[trigger] lookup_entry(r1.table_words(), p, va) == marked_entry(
                lookup_entry(r0.table_words(), p, va),
                va,
            ),
        forall|pa: usize| #[trigger] outside_tree(r1.table_words(), p, pa) == outside_tree(r0.table_words(), p, pa),
        forall|pa: usize|
            is_frame(pa) && !not_mapped_in(r0.table_words(), p, 0, USER_SPACE_TOP as int, pa)
                ==> #[trigger] r1.ref_of(pa) == ref_inc(r0.ref_of(pa)),
    ensures
        frames_counted(r1, p, 0, USER_SPACE_TOP as int),
{
    reveal(not_mapped_in);
    let w0 = r0.table_words();
    let w1 = r1.table_words();
    assert forall|va: usize| #[trigger] user_frame_at(w1, p, va) == user_frame_at(w0, p, va) by {
        if let Some(e) = lookup_entry(w0, p, va) {
            lemma_marked_frame(e);
        }
    }
    assert forall|va: usize|
        #![trigger user_frame_at(w1, p, va)]
        page_in(va, 0, USER_SPACE_TOP as int) && user_frame_at(w1, p, va) is Some implies {
        let pa = user_frame_at(w1, p, va)->Some_0;
        &&& is_frame(pa)
        &&& r1.ref_of(pa) >= 1
        &&& r1.is_allocated(pa)
        &&& outside_tree(w1, p, pa)
    } by {
        let pa = user_frame_at(w0, p, va)->Some_0;
        assert(!not_mapped_in(w0, p, 0, USER_SPACE_TOP as int, pa));
        assert(r0.is_allocated(pa));
    }
    assert forall|va1: usize, va2: usize|
        #![trigger user_frame_at(w1, p, va1), user_frame_at(w1, p, va2)]
        page_in(va1, 0, USER_SPACE_TOP as int) && page_in(va2, 0, USER_SPACE_TOP as int) && page_num(va1)
            != page_num(va2) && user_frame_at(w1, p, va1) is Some implies user_frame_at(w1, p, va1)
        != user_frame_at(w1, p, va2) by {
        assert(user_frame_at(w0, p, va1) != user_frame_at(w0, p, va2));
    }
}

/// The tables of the page table at `root` in `old` (the root, its
/// second-level and its last-level tables) still hold tables in `new`, with
/// the words they held in `old`.
pub open spec fn same_tree(old: Seq<Seq<u64>>, new: Seq<Seq<u64>>, root: usize) -> bool {
    &&& holds_table(old, root) ==> holds_table(new, root)
    &&& forall|i: int|
        0 <= i < 512 && pte_valid(#[trigger] pte_word(old, root, i)) && holds_table(
            old,
            l1_of(old, root, i),
        ) ==> holds_table(new, l1_of(old, root, i))
    &&& forall|i: int, j: int|
        0 <= i < 512 && 0 <= j < 512 && pte_valid(pte_word(old, root, i)) && pte_valid(
            #[trigger] pte_word(old, l1_of(old, root, i), j),
        ) && holds_table(old, l0_of(old, root, i, j)) ==> holds_table(new, l0_of(old, root, i, j))
    &&& forall|k: int| 0 <= k < 512 ==> #[trigger] pte_word(new, root, k) == pte_word(old, root, k)
    &&& forall|i: int, j: int|
        0 <= i < 512 && 0 <= j < 512 && pte_valid(pte_word(old, root, i)) ==> #[trigger] pte_word(
            new,
            l1_of(old, root, i),
            j,
        ) == pte_word(old, l1_of(old, root, i), j)
    &&& forall|i: int, j: int, k: int|
        0 <= i < 512 && 0 <= j < 512 && 0 <= k < 512 && pte_valid(pte_word(old, root, i))
            && pte_valid(pte_word(old, l1_of(old, root, i), j)) ==> #[trigger] pte_word(
            new,
            l0_of(old, root, i, j),
            k,
        ) == pte_word(old, l0_of(old, root, i, j), k)
}

/// A page table whose tables kept their words walks as before.
pub proof fn lemma_same_tree(old: Seq<Seq<u64>>, new: Seq<Seq<u64>>, root: usize)
    requires
        same_tree(old, new, root),
        tree_shaped(old, root),
    ensures
        tree_shaped(new, root),
        forall|i: int| 0 <= i < 512 ==> #[trigger] l1_of(new, root, i) == l1_of(old, root, i),
        forall|va: usize| #[trigger] leaf_slot(new, root, va) == leaf_slot(old, root, va),
        forall|va: usize| #[trigger] lookup_entry(new, root, va) == lookup_entry(old, root, va),
        forall|va: usize| #[trigger] translate(new, root, va) == translate(old, root, va),
{
    assert forall|i: int, j: int|
        0 <= i < 512 && 0 <= j < 512 && pte_valid(pte_word(old, root, i)) implies #[trigger] pte_word(
        new,
        l1_of(new, root, i),
        j,
    ) == pte_word(old, l1_of(old, root, i), j) by {
        assert(l1_of(new, root, i) == l1_of(old, root, i));
    }
    assert forall|va: usize| #[trigger] leaf_slot(new, root, va) == leaf_slot(old, root, va) by {
        lemma_vpn_bounds(va);
        let v2 = spec_vpn2(va) as int;
        let v1 = spec_vpn1(va) as int;
        assert(pte_word(new, root, v2) == pte_word(old, root, v2));
        if pte_valid(pte_word(old, root, v2)) {
            assert(pte_word(new, l1_of(new, root, v2), v1) == pte_word(old, l1_of(old, root, v2), v1));
        }
    }
    assert forall|va: usize| #[trigger] lookup_entry(new, root, va) == lookup_entry(old, root, va) by {
        lemma_vpn_bounds(va);
        let v2 = spec_vpn2(va) as int;
        let v1 = spec_vpn1(va) as int;
        let v0 = spec_vpn0(va) as int;
        assert(leaf_slot(new, root, va) == leaf_slot(old, root, va));
        if leaf_slot(old, root, va) is Some {
            assert(pte_valid(pte_word(old, root, v2)));
            assert(pte_valid(pte_word(old, l1_of(old, root, v2), v1)));
            assert(pte_word(new, l0_of(old, root, v2, v1), v0) == pte_word(old, l0_of(old, root, v2, v1), v0));
        }
    }
    assert forall|va: usize| #[trigger] translate(new, root, va) == translate(old, root, va) by {
        assert(lookup_entry(new, root, va) == lookup_entry(old, root, va));
    }
    assert(tree_shaped(new, root)) by {
        assert forall|i: int|
            0 <= i < 512 && pte_valid(#[trigger] pte_word(new, root, i)) implies {
            &&& holds_table(new, l1_of(new, root, i))
            &&& l1_of(new, root, i) != root
        } by {
            assert(pte_word(new, root, i) == pte_word(old, root, i));
        }
        assert forall|i: int, j: int|
            0 <= i < 512 && 0 <= j < 512 && pte_valid(pte_word(new, root, i)) && pte_valid(
                #[trigger] pte_word(new, l1_of(new, root, i), j),
            ) implies {
            &&& holds_table(new, l0_of(new, root, i, j))
            &&& l0_of(new, root, i, j) != root
        } by {
            assert(pte_word(new, root, i) == pte_word(old, root, i));
            assert(pte_word(new, l1_of(new, root, i), j) == pte_word(old, l1_of(old, root, i), j));
        }
        assert forall|i: int, j: int, k: int|
            0 <= i < 512 && 0 <= j < 512 && 0 <= k < 512 && pte_valid(pte_word(new, root, i))
                && pte_valid(#[trigger] pte_word(new, l1_of(new, root, i), j)) && pte_valid(
                #[trigger] pte_word(new, root, k),
            ) implies l0_of(new, root, i, j) != l1_of(new, root, k) by {
            assert(pte_word(new, root, i) == pte_word(old, root, i));
            assert(pte_word(new, root, k) == pte_word(old, root, k));
            assert(pte_word(new, l1_of(new, root, i), j) == pte_word(old, l1_of(old, root, i), j));
        }
        assert forall|i: int, k: int|
            0 <= i < 512 && 0 <= k < 512 && i != k && pte_valid(#[trigger] pte_word(new, root, i))
                && pte_valid(#[trigger] pte_word(new, root, k)) implies l1_of(new, root, i) != l1_of(
            new,
            root,
            k,
        ) by {
            assert(pte_word(new, root, i) == pte_word(old, root, i));
            assert(pte_word(new, root, k) == pte_word(old, root, k));
        }
        assert forall|i: int, j: int, k: int, l: int|
            0 <= i < 512 && 0 <= j < 512 && 0 <= k < 512 && 0 <= l < 512 && (i != k || j != l)
                && pte_valid(pte_word(new, root, i)) && pte_valid(
                #[trigger] pte_word(new, l1_of(new, root, i), j),
            ) && pte_valid(pte_word(new, root, k)) && pte_valid(
                #[trigger] pte_word(new, l1_of(new, root, k), l),
            ) implies l0_of(new, root, i, j) != l0_of(new, root, k, l) by {
            assert(pte_word(new, root, i) == pte_word(old, root, i));
            assert(pte_word(new, root, k) == pte_word(old, root, k));
            assert(pte_word(new, l1_of(new, root, i), j) == pte_word(old, l1_of(old, root, i), j));
            assert(pte_word(new, l1_of(new, root, k), l) == pte_word(old, l1_of(old, root, k), l));
        }
    }
}

/// The state while the lower half of the child at `c` is built from the
/// parent at `p`, whose tables held `pw`: both page tables are tree-shaped;
/// the parent's tables keep their words; the child's upper root entries are
/// the parent's and its lower ones are zero or valid; no lower-half table
/// of the parent, nor its root, is a table of the child.
pub open spec fn building(w: Seq<Seq<u64>>, pw: Seq<Seq<u64>>, p: usize, c: usize) -> bool {
    &&& words_wf(w)
    &&& tree_shaped(pw, p)
    &&& tree_shaped(w, c)
    &&& same_tree(pw, w, p)
    &&& forall|i: int|
        KERNEL_VPN2_MIN <= i < 512 ==> #[trigger] pte_word(w, c, i) == pte_word(pw, p, i)
    &&& forall|i: int|
        0 <= i < KERNEL_VPN2_MIN ==> #[trigger] pte_word(w, c, i) == 0 || pte_valid(
            pte_word(w, c, i),
        )
    &&& outside_tree(w, c, p)
    &&& forall|i: int|
        0 <= i < KERNEL_VPN2_MIN && pte_valid(#[trigger] pte_word(pw, p, i)) ==> outside_tree(
            w,
            c,
            l1_of(pw, p, i),
        )
    &&& forall|i: int, j: int|
        0 <= i < KERNEL_VPN2_MIN && 0 <= j < 512 && pte_valid(pte_word(pw, p, i)) && pte_valid(
            #[trigger] pte_word(pw, l1_of(pw, p, i), j),
        ) ==> outside_tree(w, c, l0_of(pw, p, i, j))
}

/// The tables of the lower half of the child at `c` are none of the tables
/// of the parent at `p`.
pub open spec fn lower_tables_outside(w: Seq<Seq<u64>>, c: usize, p: usize) -> bool {
    &&& forall|i: int|
        0 <= i < KERNEL_VPN2_MIN && pte_valid(#[trigger] pte_word(w, c, i)) ==> outside_tree(
            w,
            p,
            l1_of(w, c, i),
        )
    &&& forall|i: int, j: int|
        0 <= i < KERNEL_VPN2_MIN && 0 <= j < 512 && pte_valid(pte_word(w, c, i)) && pte_valid(
            #[trigger] pte_word(w, l1_of(w, c, i), j),
        ) ==> outside_tree(w, p, l0_of(w, c, i, j))
}

/// A map into the child's lower half links only frames that were not handed
/// out, so the child's lower tables stay apart from the parent's.
proof fn lemma_lower_outside_step(r0: Ram, w2: Seq<Seq<u64>>, pw: Seq<Seq<u64>>, p: usize, c: usize)
    requires
        r0.wf(),
        building(r0.table_words(), pw, p, c),
        building(w2, pw, p, c),
        lower_tables_outside(r0.table_words(), c, p),
        fresh_links(r0, w2, c),
    ensures
        lower_tables_outside(w2, c, p),
{
    let w = r0.table_words();
    lemma_same_tree(pw, w, p);
    lemma_same_tree(pw, w2, p);
    assert forall|k: int| 0 <= k < 512 implies #[trigger] pte_word(w2, p, k) == pte_word(w, p, k) by {}
    assert forall|i: int, j: int|
        0 <= i < 512 && 0 <= j < 512 && pte_valid(pte_word(w, p, i)) implies #[trigger] pte_word(
        w2,
        l1_of(w2, p, i),
        j,
    ) == pte_word(w, l1_of(w, p, i), j) by {
        assert(l1_of(w2, p, i) == l1_of(pw, p, i));
        assert(l1_of(w, p, i) == l1_of(pw, p, i));
    }
    crate::mm::page_table::lemma_same_upper_levels(w, w2, p);
    assert forall|i: int| 0 <= i < KERNEL_VPN2_MIN && pte_valid(#[trigger] pte_word(w2, c, i)) implies outside_tree(
        w2,
        p,
        l1_of(w2, c, i),
    ) by {
        if pte_word(w2, c, i) != pte_word(w, c, i) {
            lemma_unallocated_outside(r0, p, l1_of(w2, c, i));
        }
    }
    assert forall|i: int, j: int|
        0 <= i < KERNEL_VPN2_MIN && 0 <= j < 512 && pte_valid(pte_word(w2, c, i)) && pte_valid(
            #[trigger] pte_word(w2, l1_of(w2, c, i), j),
        ) implies outside_tree(w2, p, l0_of(w2, c, i, j)) by {
        let t = l1_of(w2, c, i);
        if pte_word(w2, t, j) != pte_word(w, t, j) {
            lemma_unallocated_outside(r0, p, l0_of(w2, c, i, j));
        } else if pte_word(w2, c, i) != pte_word(w, c, i) {
            assert(!r0.is_allocated(t));
            if holds_table(w, t) {
                lemma_table_allocated(r0, t);
            }
            lemma_zero_entry();
            assert(pte_word(w, t, j) == 0);
        } else {
            assert(l1_of(w2, c, i) == l1_of(w, c, i));
            assert(pte_valid(pte_word(w, l1_of(w, c, i), j)));
            assert(l0_of(w2, c, i, j) == l0_of(w, c, i, j));
            assert(outside_tree(w, p, l0_of(w, c, i, j)));
        }
    }
}

/// A map into the child's lower half keeps the building state.
proof fn lemma_build_step(
    ram: Ram,
    w2: Seq<Seq<u64>>,
    pw: Seq<Seq<u64>>,
    p: usize,
    c: usize,
    va: usize,
)
    requires
        ram.wf(),
        building(ram.table_words(), pw, p, c),
        words_wf(w2),
        tree_shaped(w2, c),
        writes_on_path(ram.table_words(), w2, c, va),
        spec_vpn2(va) < KERNEL_VPN2_MIN,
        forall|pa: usize|
            ram.is_allocated(pa) && outside_tree(ram.table_words(), c, pa) ==> #[trigger] outside_tree(
                w2,
                c,
                pa,
            ),
    ensures
        building(w2, pw, p, c),
{
    let w = ram.table_words();
    let v2 = spec_vpn2(va) as int;
    let v1 = spec_vpn1(va) as int;
    lemma_vpn_bounds(va);
    reveal(outside_tree);
    // frames of the parent's tables are handed out, so they stay outside
    assert forall|t: usize| holds_table(w, t) implies #[trigger] ram.is_allocated(t) by {
        lemma_table_allocated(ram, t);
    }
    assert(holds_table(w, p));
    assert(outside_tree(w2, c, p));
    assert forall|i: int|
        0 <= i < KERNEL_VPN2_MIN && pte_valid(#[trigger] pte_word(pw, p, i)) implies outside_tree(
        w2,
        c,
        l1_of(pw, p, i),
    ) by {
        assert(holds_table(pw, l1_of(pw, p, i)));
        assert(holds_table(w, l1_of(pw, p, i)));
        assert(outside_tree(w, c, l1_of(pw, p, i)));
    }
    assert forall|i: int, j: int|
        0 <= i < KERNEL_VPN2_MIN && 0 <= j < 512 && pte_valid(pte_word(pw, p, i)) && pte_valid(
            #[trigger] pte_word(pw, l1_of(pw, p, i), j),
        ) implies outside_tree(w2, c, l0_of(pw, p, i, j)) by {
        assert(holds_table(pw, l0_of(pw, p, i, j)));
        assert(holds_table(w, l0_of(pw, p, i, j)));
        assert(outside_tree(w, c, l0_of(pw, p, i, j)));
    }
    // a table that is outside the child's tree in `w2` kept its words
    assert forall|t: usize, k: int| 0 <= k < 512 && outside_tree(w2, c, t) implies #[trigger] pte_word(
        w2,
        t,
        k,
    ) == pte_word(w, t, k) by {
        if let Some((t0, i0)) = leaf_slot(w2, c, va) {
            assert(pte_valid(pte_word(w2, c, v2)));
            assert(pte_valid(pte_word(w2, l1_of(w2, c, v2), v1)));
            assert(t0 == l0_of(w2, c, v2, v1));
        }
    }
    // the child's upper root entries
    assert forall|i: int| KERNEL_VPN2_MIN <= i < 512 implies #[trigger] pte_word(w2, c, i) == pte_word(
        pw,
        p,
        i,
    ) by {
        if pte_valid(pte_word(w2, c, v2)) {
            assert(l1_of(w2, c, v2) != c);
        }
        if let Some((t0, i0)) = leaf_slot(w2, c, va) {
            assert(pte_valid(pte_word(w2, c, v2)));
            assert(pte_valid(pte_word(w2, l1_of(w2, c, v2), v1)));
            assert(t0 == l0_of(w2, c, v2, v1));
            assert(t0 != c);
        }
        assert(pte_word(w2, c, i) == pte_word(w, c, i));
    }
    assert forall|i: int| 0 <= i < KERNEL_VPN2_MIN implies #[trigger] pte_word(w2, c, i) == 0 || pte_valid(
        pte_word(w2, c, i),
    ) by {
        if i != v2 {
            if pte_valid(pte_word(w2, c, v2)) {
                assert(l1_of(w2, c, v2) != c);
            }
            if let Some((t0, i0)) = leaf_slot(w2, c, va) {
                assert(pte_valid(pte_word(w2, c, v2)));
                assert(pte_valid(pte_word(w2, l1_of(w2, c, v2), v1)));
                assert(t0 == l0_of(w2, c, v2, v1));
                assert(t0 != c);
            }
            assert(pte_word(w2, c, i) == pte_word(w, c, i));
        }
    }
    // the parent's tables kept their words
    assert forall|k: int| 0 <= k < 512 implies #[trigger] pte_word(w2, p, k) == pte_word(pw, p, k) by {
        assert(pte_word(w, p, k) == pte_word(pw, p, k));
    }
    assert forall|i: int, j: int|
        0 <= i < 512 && 0 <= j < 512 && pte_valid(pte_word(pw, p, i)) implies #[trigger] pte_word(
        w2,
        l1_of(pw, p, i),
        j,
    ) == pte_word(pw, l1_of(pw, p, i), j) by {
        let t1 = l1_of(pw, p, i);
        assert(pte_word(w, t1, j) == pte_word(pw, t1, j));
        if i >= KERNEL_VPN2_MIN {
            assert(pte_word(w2, c, i) == pte_word(pw, p, i));
            assert(l1_of(w2, c, i) == t1);
            if pte_valid(pte_word(w2, c, v2)) {
                assert(l1_of(w2, c, v2) != t1);
            }
            if let Some((t0, i0)) = leaf_slot(w2, c, va) {
                assert(pte_valid(pte_word(w2, c, v2)));
                assert(pte_valid(pte_word(w2, l1_of(w2, c, v2), v1)));
                assert(t0 == l0_of(w2, c, v2, v1));
                assert(t0 != t1);
            }
        }
    }
    assert forall|i: int, j: int, k: int|
        0 <= i < 512 && 0 <= j < 512 && 0 <= k < 512 && pte_valid(pte_word(pw, p, i)) && pte_valid(
            pte_word(pw, l1_of(pw, p, i), j),
        ) implies #[trigger] pte_word(w2, l0_of(pw, p, i, j), k) == pte_word(pw, l0_of(pw, p, i, j), k) by {
        let t1 = l1_of(pw, p, i);
        let t0p = l0_of(pw, p, i, j);
        assert(pte_word(w, t0p, k) == pte_word(pw, t0p, k));
        if i >= KERNEL_VPN2_MIN {
            assert(pte_word(w2, c, i) == pte_word(pw, p, i));
            assert(l1_of(w2, c, i) == t1);
            assert(pte_word(w2, t1, j) == pte_word(pw, t1, j));
            assert(l0_of(w2, c, i, j) == t0p);
            if pte_valid(pte_word(w2, c, v2)) {
                assert(l1_of(w2, c, v2) != t0p);
            }
            if let Some((t0, i0)) = leaf_slot(w2, c, va) {
                assert(pte_valid(pte_word(w2, c, v2)));
                assert(pte_valid(pte_word(w2, l1_of(w2, c, v2), v1)));
                assert(t0 == l0_of(w2, c, v2, v1));
                assert(t0 != t0p);
            }
        }
    }
}

/// The root table of a fresh child: the parent's upper root entries (the
/// kernel's mappings), zero below them.
pub open spec fn child_root_words(pw: Seq<Seq<u64>>, p: usize) -> Seq<u64> {
    Seq::new(
        512,
        |k: int|
            if KERNEL_VPN2_MIN <= k {
                pte_word(pw, p, k)
            } else {
                0u64
            },
    )
}

/// Copies the non-zero upper root entries of `parent` into `child`.
fn copy_kernel_half(ram: &mut Ram, parent: PhysAddr, child: PhysAddr)
    requires
        old(ram).wf(),
        holds_table(old(ram).table_words(), child.0),
        parent.0 != child.0,
    ensures
        final(ram).wf(),
        final(ram).next_frame == old(ram).next_frame,
        final(ram).free_list@ == old(ram).free_list@,
        final(ram).refs@ == old(ram).refs@,
        final(ram).table_words() == old(ram).table_words().update(
            spec_frame_index(child.0),
            Seq::new(
                512,
                |k: int|
                    if KERNEL_VPN2_MIN <= k && pte_word(old(ram).table_words(), parent.0, k) != 0 {
                        pte_word(old(ram).table_words(), parent.0, k)
                    } else {
                        pte_word(old(ram).table_words(), child.0, k)
                    },
            ),
        ),
{
    let ghost w0 = ram.table_words();
    let ghost idx = spec_frame_index(child.0);
    assert(0 <= idx < NUM_FRAMES);
    proof {
        let s0 = Seq::new(
            512,
            |k: int|
                if KERNEL_VPN2_MIN <= k < KERNEL_VPN2_MIN && pte_word(w0, parent.0, k) != 0 {
                    pte_word(w0, parent.0, k)
                } else {
                    pte_word(w0, child.0, k)
                },
        );
        assert(s0 =~= w0[idx]);
        assert(w0.update(idx, s0) =~= w0);
    }
    let mut v: usize = KERNEL_VPN2_MIN;
    while v < 512
        invariant
            KERNEL_VPN2_MIN <= v <= 512,
            ram.wf(),
            w0 == old(ram).table_words(),
            holds_table(w0, child.0),
            idx == spec_frame_index(child.0),
            0 <= idx < NUM_FRAMES,
            w0.len() == NUM_FRAMES,
            parent.0 != child.0,
            ram.next_frame == old(ram).next_frame,
            ram.free_list@ == old(ram).free_list@,
            ram.refs@ == old(ram).refs@,
            ram.table_words() == w0.update(
                idx,
                Seq::new(
                    512,
                    |k: int|
                        if KERNEL_VPN2_MIN <= k < v && pte_word(w0, parent.0, k) != 0 {
                            pte_word(w0, parent.0, k)
                        } else {
                            pte_word(w0, child.0, k)
                        },
                ),
            ),
        decreases 512 - v,
    {
        let ghost wc = ram.table_words();
        proof {
            if is_frame(parent.0) {
                lemma_frame_index_injective(parent.0, child.0);
            }
            assert(pte_word(wc, parent.0, v as int) == pte_word(w0, parent.0, v as int));
            assert(holds_table(wc, child.0));
        }
        let e = ram.read_pte(parent, v);
        if e != 0 {
            ram.write_pte(child, v, e);
        }
        proof {
            let target = w0.update(
                idx,
                Seq::new(
                    512,
                    |k: int|
                        if KERNEL_VPN2_MIN <= k < v + 1 && pte_word(w0, parent.0, k) != 0 {
                            pte_word(w0, parent.0, k)
                        } else {
                            pte_word(w0, child.0, k)
                        },
                ),
            );
            assert(ram.table_words()[idx] =~= target[idx]);
            assert(ram.table_words() =~= target);
        }
        v = v + 1;
    }
    proof {
        let fin = Seq::new(
            512,
            |k: int|
                if KERNEL_VPN2_MIN <= k && pte_word(w0, parent.0, k) != 0 {
                    pte_word(w0, parent.0, k)
                } else {
                    pte_word(w0, child.0, k)
                },
        );
        assert(ram.table_words()[idx] =~= fin);
        assert(ram.table_words() =~= w0.update(idx, fin));
    }
}

/// The child whose root holds the parent's upper root entries, and nothing
/// else yet, starts the building state.
proof fn lemma_build_init(pw: Seq<Seq<u64>>, p: usize, c: usize)
    requires
        words_wf(pw),
        tree_shaped(pw, p),
        is_frame(c),
        !holds_table(pw, c),
    ensures
        building(pw.update(spec_frame_index(c), child_root_words(pw, p)), pw, p, c),
        forall|va: usize|
            spec_vpn2(va) < KERNEL_VPN2_MIN ==> #[trigger] translate(
                pw.update(spec_frame_index(c), child_root_words(pw, p)),
                c,
                va,
            ) is None,
{
    let w = pw.update(spec_frame_index(c), child_root_words(pw, p));
    reveal(outside_tree);
    assert(0 <= spec_frame_index(c) < NUM_FRAMES);
    assert forall|t: usize| #[trigger] holds_table(w, t) == (holds_table(pw, t) || t == c) by {
        if is_frame(t) && t != c {
            lemma_frame_index_injective(t, c);
        }
    }
    assert forall|t: usize, k: int| 0 <= k < 512 && t != c implies #[trigger] pte_word(w, t, k) == pte_word(
        pw,
        t,
        k,
    ) by {
        if is_frame(t) {
            lemma_frame_index_injective(t, c);
        }
    }
    assert forall|k: int| 0 <= k < 512 implies #[trigger] pte_word(w, c, k) == if KERNEL_VPN2_MIN <= k {
        pte_word(pw, p, k)
    } else {
        0u64
    } by {}
    assert(words_wf(w)) by {
        assert forall|i: int| 0 <= i < NUM_FRAMES implies (#[trigger] w[i].len() == 0 || w[i].len()
            == ENTRIES_PER_TABLE) by {
            assert(pw[i].len() == 0 || pw[i].len() == ENTRIES_PER_TABLE);
        }
    }
    lemma_zero_entry();
    assert(p != c);
    // the parent's tables all held words, so none of them is `c`
    assert forall|i: int| 0 <= i < 512 && pte_valid(pte_word(pw, p, i)) implies l1_of(pw, p, i) != c by {}
    assert forall|i: int, j: int|
        0 <= i < 512 && 0 <= j < 512 && pte_valid(pte_word(pw, p, i)) && pte_valid(
            pte_word(pw, l1_of(pw, p, i), j),
        ) implies l0_of(pw, p, i, j) != c by {}
    assert forall|i: int| 0 <= i < 512 && pte_valid(#[trigger] pte_word(w, c, i)) implies i
        >= KERNEL_VPN2_MIN && l1_of(w, c, i) == l1_of(pw, p, i) && pte_valid(pte_word(pw, p, i)) by {}
    assert(same_tree(pw, w, p)) by {
        assert forall|i: int, j: int|
            0 <= i < 512 && 0 <= j < 512 && pte_valid(pte_word(pw, p, i)) implies #[trigger] pte_word(
            w,
            l1_of(pw, p, i),
            j,
        ) == pte_word(pw, l1_of(pw, p, i), j) by {}
        assert forall|i: int, j: int, k: int|
            0 <= i < 512 && 0 <= j < 512 && 0 <= k < 512 && pte_valid(pte_word(pw, p, i)) && pte_valid(
                pte_word(pw, l1_of(pw, p, i), j),
            ) implies #[trigger] pte_word(w, l0_of(pw, p, i, j), k) == pte_word(pw, l0_of(pw, p, i, j), k) by {}
    }
    assert(tree_shaped(w, c)) by {
        assert forall|i: int|
            0 <= i < 512 && pte_valid(#[trigger] pte_word(w, c, i)) implies {
            &&& holds_table(w, l1_of(w, c, i))
            &&& l1_of(w, c, i) != c
        } by {}
        assert forall|i: int, j: int|
            0 <= i < 512 && 0 <= j < 512 && pte_valid(pte_word(w, c, i)) && pte_valid(
                #[trigger] pte_word(w, l1_of(w, c, i), j),
            ) implies {
            &&& holds_table(w, l0_of(w, c, i, j))
            &&& l0_of(w, c, i, j) != c
        } by {
            assert(pte_word(w, l1_of(w, c, i), j) == pte_word(pw, l1_of(pw, p, i), j));
        }
        assert forall|i: int, j: int, k: int|
            0 <= i < 512 && 0 <= j < 512 && 0 <= k < 512 && pte_valid(pte_word(w, c, i)) && pte_valid(
                #[trigger] pte_word(w, l1_of(w, c, i), j),
            ) && pte_valid(#[trigger] pte_word(w, c, k)) implies l0_of(w, c, i, j) != l1_of(w, c, k) by {
            assert(pte_word(w, l1_of(w, c, i), j) == pte_word(pw, l1_of(pw, p, i), j));
            assert(pte_valid(pte_word(pw, l1_of(pw, p, i), j)));
            assert(pte_valid(pte_word(pw, p, k)));
        }
        assert forall|i: int, k: int|
            0 <= i < 512 && 0 <= k < 512 && i != k && pte_valid(#[trigger] pte_word(w, c, i)) && pte_valid(
                #[trigger] pte_word(w, c, k),
            ) implies l1_of(w, c, i) != l1_of(w, c, k) by {
            assert(pte_valid(pte_word(pw, p, i)));
            assert(pte_valid(pte_word(pw, p, k)));
        }
        assert forall|i: int, j: int, k: int, l: int|
            0 <= i < 512 && 0 <= j < 512 && 0 <= k < 512 && 0 <= l < 512 && (i != k || j != l)
                && pte_valid(pte_word(w, c, i)) && pte_valid(#[trigger] pte_word(w, l1_of(w, c, i), j))
                && pte_valid(pte_word(w, c, k)) && pte_valid(#[trigger] pte_word(w, l1_of(w, c, k), l))
                implies l0_of(w, c, i, j) != l0_of(w, c, k, l) by {
            assert(pte_word(w, l1_of(w, c, i), j) == pte_word(pw, l1_of(pw, p, i), j));
            assert(pte_word(w, l1_of(w, c, k), l) == pte_word(pw, l1_of(pw, p, k), l));
            assert(pte_valid(pte_word(pw, l1_of(pw, p, i), j)));
            assert(pte_valid(pte_word(pw, l1_of(pw, p, k), l)));
        }
    }
    assert(outside_tree(w, c, p)) by {
        assert forall|k: int| 0 <= k < 512 && pte_valid(#[trigger] pte_word(w, c, k)) implies p != l1_of(
            w,
            c,
            k,
        ) by {}
        assert forall|i: int, j: int|
            0 <= i < 512 && 0 <= j < 512 && pte_valid(pte_word(w, c, i)) && pte_valid(
                #[trigger] pte_word(w, l1_of(w, c, i), j),
            ) implies l0_of(w, c, i, j) != p by {
            assert(pte_word(w, l1_of(w, c, i), j) == pte_word(pw, l1_of(pw, p, i), j));
            assert(pte_valid(pte_word(pw, l1_of(pw, p, i), j)));
        }
    }
    assert forall|i: int|
        0 <= i < KERNEL_VPN2_MIN && pte_valid(#[trigger] pte_word(pw, p, i)) implies outside_tree(
        w,
        c,
        l1_of(pw, p, i),
    ) by {
        assert forall|k: int| 0 <= k < 512 && pte_valid(#[trigger] pte_word(w, c, k)) implies l1_of(
            pw,
            p,
            i,
        ) != l1_of(w, c, k) by {
            assert(pte_valid(pte_word(pw, p, k)));
        }
        assert forall|i2: int, j2: int|
            0 <= i2 < 512 && 0 <= j2 < 512 && pte_valid(pte_word(w, c, i2)) && pte_valid(
                #[trigger] pte_word(w, l1_of(w, c, i2), j2),
            ) implies l0_of(w, c, i2, j2) != l1_of(pw, p, i) by {
            assert(pte_word(w, l1_of(w, c, i2), j2) == pte_word(pw, l1_of(pw, p, i2), j2));
            assert(pte_valid(pte_word(pw, l1_of(pw, p, i2), j2)));
        }
    }
    assert forall|i: int, j: int|
        0 <= i < KERNEL_VPN2_MIN && 0 <= j < 512 && pte_valid(pte_word(pw, p, i)) && pte_valid(
            #[trigger] pte_word(pw, l1_of(pw, p, i), j),
        ) implies outside_tree(w, c, l0_of(pw, p, i, j)) by {
        assert forall|k: int| 0 <= k < 512 && pte_valid(#[trigger] pte_word(w, c, k)) implies l0_of(
            pw,
            p,
            i,
            j,
        ) != l1_of(w, c, k) by {
            assert(pte_valid(pte_word(pw, p, k)));
        }
        assert forall|i2: int, j2: int|
            0 <= i2 < 512 && 0 <= j2 < 512 && pte_valid(pte_word(w, c, i2)) && pte_valid(
                #[trigger] pte_word(w, l1_of(w, c, i2), j2),
            ) implies l0_of(w, c, i2, j2) != l0_of(pw, p, i, j) by {
            assert(pte_word(w, l1_of(w, c, i2), j2) == pte_word(pw, l1_of(pw, p, i2), j2));
            assert(pte_valid(pte_word(pw, l1_of(pw, p, i2), j2)));
        }
    }
    assert forall|va: usize| spec_vpn2(va) < KERNEL_VPN2_MIN implies #[trigger] translate(w, c, va) is None by {
        assert(!pte_valid(pte_word(w, c, spec_vpn2(va) as int)));
    }
}

/// The entry the child gets for the parent's entry `e`: the same frame and
/// flags, and copy-on-write when `e` is a copy-on-write user page.
pub open spec fn child_entry(e: u64) -> u64 {
    if user_entry(e) && e & PTE_COW != 0 {
        spec_new_leaf(spec_ppn_to_addr(e), (e & 0xffu64) as u8) | PTE_COW
    } else {
        spec_new_leaf(spec_ppn_to_addr(e), (e & 0xffu64) as u8)
    }
}

/// What the child translates for a page whose last-level entry in the
/// parent is `e`.
pub open spec fn child_view(e: Option<u64>) -> Option<u64> {
    match e {
        Some(x) => if pte_leaf(x) {
            Some(child_entry(x))
        } else {
            None
        },
        None => None,
    }
}

/// Entries that the pass for user pages (`user`) or for kernel pages
/// (`!user`) copies into the child.
pub open spec fn selected(e: Option<u64>, user: bool) -> bool {
    e matches Some(x) && pte_valid(x) && ((x & PTE_U != 0) == user)
}

/// Number of pages in the lower half.
pub const LOWER_HALF_PAGES: usize = 0x8_0000;

proof fn lemma_child_entry(x: u64)
    ensures
        pte_leaf(child_entry(x)) == pte_leaf(x),
{
    let pa = spec_ppn_to_addr(x);
    let f = (x & 0xffu64) as u8;
    assert((((((pa >> 12usize) << 10usize) as u64) | (f as u64)) & 1u64 != 0 && ((((pa >> 12usize)
        << 10usize) as u64) | (f as u64)) & 0xeu64 != 0) == (x & 1u64 != 0 && x & 0xeu64 != 0)
        && (((((pa >> 12usize) << 10usize) as u64) | (f as u64) | 0x100u64) & 1u64 != 0 && ((((pa
        >> 12usize) << 10usize) as u64) | (f as u64) | 0x100u64) & 0xeu64 != 0) == (x & 1u64 != 0
        && x & 0xeu64 != 0)) by (bit_vector)
        requires
            f == (x & 0xffu64) as u8,
    ;
}

/// The pages of the lower half are the first `LOWER_HALF_PAGES` page
/// numbers, and the page at `n << 12` has page number `n`.
proof fn lemma_lower_half_pages(va: usize, n: usize)
    ensures
        (page_num(va) < LOWER_HALF_PAGES) == (spec_vpn2(va) < KERNEL_VPN2_MIN),
        n < LOWER_HALF_PAGES ==> page_num(n << 12usize) == n && spec_vpn2(n << 12usize)
            < KERNEL_VPN2_MIN,
{
    assert((((va >> 12usize) & 0x7ff_ffffusize) < 0x8_0000usize) == (((va >> 30usize) & 0x1ffusize)
        < 2usize)) by (bit_vector);
    if n < LOWER_HALF_PAGES {
        assert((((n << 12usize) >> 12usize) & 0x7ff_ffffusize) == n && (((n << 12usize) >> 30usize)
            & 0x1ffusize) < 2usize) by (bit_vector)
            requires
                n < 0x8_0000usize,
        ;
    }
}

/// Copies into the child at `child` every entry of the parent's lower half
/// that is a valid user entry (`user`) or a valid kernel entry (`!user`):
/// copy-on-write user pages with `map_cow`, the others with `map`. Returns
/// whether every copy found room for its tables.
fn share_lower_half(
    ram: &mut Ram,
    parent: &PageTable,
    child: &PageTable,
    user: bool,
    Ghost(pw): Ghost<Seq<Seq<u64>>>,
) -> (ok: bool)
    requires
        old(ram).wf(),
        building(old(ram).table_words(), pw, parent.root.0, child.root.0),
        lower_tables_outside(old(ram).table_words(), child.root.0, parent.root.0),
    ensures
        final(ram).wf(),
        only_allocates(*old(ram), *final(ram)),
        frames_available(*final(ram)) <= frames_available(*old(ram)),
        building(final(ram).table_words(), pw, parent.root.0, child.root.0),
        lower_tables_outside(final(ram).table_words(), child.root.0, parent.root.0),
        !ok ==> frames_available(*final(ram)) < 2,
        tree_shaped(old(ram).table_words(), child.root.0) ==> forall|pa: usize|
            #[trigger] final(ram).is_allocated(pa) && !old(ram).is_allocated(pa) ==> !outside_tree(
                final(ram).table_words(),
                child.root.0,
                pa,
            ),
        tree_shaped(old(ram).table_words(), child.root.0) ==> forall|pa: usize|
            !outside_tree(old(ram).table_words(), child.root.0, pa) ==> !#[trigger] outside_tree(
                final(ram).table_words(),
                child.root.0,
                pa,
            ),
        forall|va: usize|
            spec_vpn2(va) < KERNEL_VPN2_MIN && (translate(old(ram).table_words(), child.root.0, va) is None
                || translate(old(ram).table_words(), child.root.0, va) == child_view(
                lookup_entry(pw, parent.root.0, va),
            )) ==> {
                ||| #[trigger] translate(final(ram).table_words(), child.root.0, va) is None
                ||| translate(final(ram).table_words(), child.root.0, va) == child_view(
                    lookup_entry(pw, parent.root.0, va),
                )
            },
        ok ==> forall|va: usize|
            spec_vpn2(va) < KERNEL_VPN2_MIN ==> #[trigger] translate(
                final(ram).table_words(),
                child.root.0,
                va,
            ) == if selected(lookup_entry(pw, parent.root.0, va), user) {
                child_view(lookup_entry(pw, parent.root.0, va))
            } else {
                translate(old(ram).table_words(), child.root.0, va)
            },
{
    let ghost p = parent.root.0;
    let ghost c = child.root.0;
    let ghost ws = ram.table_words();
    let mut ok = true;
    let mut n: usize = 0;
    while n < LOWER_HALF_PAGES
        invariant
            n <= LOWER_HALF_PAGES,
            p == parent.root.0,
            c == child.root.0,
            ws == old(ram).table_words(),
            ram.wf(),
            only_allocates(*old(ram), *ram),
            frames_available(*ram) <= frames_available(*old(ram)),
            building(ram.table_words(), pw, p, c),
            lower_tables_outside(ram.table_words(), c, p),
            !ok ==> frames_available(*ram) < 2,
            tree_shaped(ws, c) ==> tree_shaped(ram.table_words(), c),
            tree_shaped(ws, c) ==> forall|pa: usize|
                #[trigger] ram.is_allocated(pa) && !old(ram).is_allocated(pa) ==> !outside_tree(
                    ram.table_words(),
                    c,
                    pa,
                ),
            tree_shaped(ws, c) ==> forall|pa: usize|
                !outside_tree(ws, c, pa) ==> !#[trigger] outside_tree(ram.table_words(), c, pa),
            forall|va: usize|
                spec_vpn2(va) < KERNEL_VPN2_MIN && (translate(ws, c, va) is None || translate(ws, c, va)
                    == child_view(lookup_entry(pw, p, va))) ==> {
                    ||| #[trigger] translate(ram.table_words(), c, va) is None
                    ||| translate(ram.table_words(), c, va) == child_view(lookup_entry(pw, p, va))
                },
            ok ==> forall|va: usize|
                spec_vpn2(va) < KERNEL_VPN2_MIN ==> #[trigger] translate(ram.table_words(), c, va)
                    == if page_num(va) < n && selected(lookup_entry(pw, p, va), user) {
                    child_view(lookup_entry(pw, p, va))
                } else {
                    translate(ws, c, va)
                },
        decreases LOWER_HALF_PAGES - n,
    {
        let ghost w = ram.table_words();
        let ghost r0 = *ram;
        let va: usize = n << 12;
        proof {
            lemma_lower_half_pages(va, n);
            lemma_same_tree(pw, w, p);
        }
        let mut copied = false;
        match parent.lookup(ram, VirtAddr(va)) {
            Some(slot) => {
                let e = PTEntry(ram.read_pte(slot.table, slot.index));
                assert(leaf_slot(w, p, va) == Some((slot.table.0, slot.index as int)));
                assert(lookup_entry(w, p, va) == Some(e.0));
                assert(lookup_entry(pw, p, va) == Some(e.0));
                if e.is_valid() && e.is_u() == user {
                    let pa = e.ppn_to_addr();
                    let flags = e.flags();
                    let r = if user && e.is_cow() {
                        child.map_cow(ram, VirtAddr(va), pa, flags)
                    } else {
                        child.map(ram, VirtAddr(va), pa, flags)
                    };
                    proof {
                        lemma_only_allocates_trans(*old(ram), r0, *ram);
                        if tree_shaped(ws, c) {
                            assert forall|pa: usize| #[trigger] ram.is_allocated(pa) && !old(ram).is_allocated(pa) implies !outside_tree(
                                ram.table_words(),
                                c,
                                pa,
                            ) by {
                                if r0.is_allocated(pa) {
                                    assert(!outside_tree(w, c, pa));
                                }
                            }
                            assert forall|pa: usize| !outside_tree(ws, c, pa) implies !#[trigger] outside_tree(
                                ram.table_words(),
                                c,
                                pa,
                            ) by {
                                assert(!outside_tree(w, c, pa));
                            }
                        }
                        lemma_build_step(r0, ram.table_words(), pw, p, c, va);
                        lemma_lower_outside_step(r0, ram.table_words(), pw, p, c);
                        lemma_child_entry(e.0);
                        let w2 = ram.table_words();
                        if r {
                            assert forall|va2: usize|
                                spec_vpn2(va2) < KERNEL_VPN2_MIN && page_num(va2) == n implies #[trigger] translate(
                                w2,
                                c,
                                va2,
                            ) == child_view(lookup_entry(pw, p, va2)) && lookup_entry(pw, p, va2)
                                == Some(e.0) by {
                                lemma_page_num(va2, va);
                                lemma_vpn_bounds(va2);
                                assert(leaf_slot(pw, p, va2) == leaf_slot(pw, p, va));
                            }
                            assert forall|va2: usize|
                                spec_vpn2(va2) < KERNEL_VPN2_MIN && page_num(va2) != n implies #[trigger] translate(
                                w2,
                                c,
                                va2,
                            ) == translate(w, c, va2) by {
                                lemma_page_num(va2, va);
                            }
                        }
                    }
                    ok = ok && r;
                    copied = true;
                }
            },
            None => {
                assert(lookup_entry(pw, p, va) is None);
            },
        }
        proof {
            let w2 = ram.table_words();
            if !copied {
                assert(w2 == w);
                assert forall|va2: usize|
                    spec_vpn2(va2) < KERNEL_VPN2_MIN && page_num(va2) == n implies !selected(
                    #[trigger] lookup_entry(pw, p, va2),
                    user,
                ) by {
                    lemma_page_num(va2, va);
                    assert(leaf_slot(pw, p, va2) == leaf_slot(pw, p, va));
                }
            }
        }
        n = n + 1;
    }
    assert forall|va: usize| spec_vpn2(va) < KERNEL_VPN2_MIN implies page_num(va) < n by {
        lemma_lower_half_pages(va, 0);
    }
    ok
}

/// Above the lower half the child walks through the parent's tables.
proof fn lemma_building_upper(w: Seq<Seq<u64>>, pw: Seq<Seq<u64>>, p: usize, c: usize)
    requires
        building(w, pw, p, c),
    ensures
        forall|va: usize|
            spec_vpn2(va) >= KERNEL_VPN2_MIN ==> #[trigger] translate(w, c, va) == translate(pw, p, va),
        forall|va: usize| #[trigger] lookup_entry(w, p, va) == lookup_entry(pw, p, va),
        forall|va: usize| #[trigger] translate(w, p, va) == translate(pw, p, va),
        tree_shaped(w, p),
{
    lemma_same_tree(pw, w, p);
    assert forall|va: usize| spec_vpn2(va) >= KERNEL_VPN2_MIN implies #[trigger] translate(w, c, va)
        == translate(pw, p, va) by {
        lemma_vpn_bounds(va);
        let v2 = spec_vpn2(va) as int;
        let v1 = spec_vpn1(va) as int;
        let v0 = spec_vpn0(va) as int;
        assert(pte_word(w, c, v2) == pte_word(pw, p, v2));
        if pte_valid(pte_word(pw, p, v2)) {
            let t1 = l1_of(pw, p, v2);
            assert(l1_of(w, c, v2) == t1);
            assert(pte_word(w, t1, v1) == pte_word(pw, t1, v1));
            if pte_valid(pte_word(pw, t1, v1)) {
                assert(pte_word(w, l0_of(pw, p, v2, v1), v0) == pte_word(pw, l0_of(pw, p, v2, v1), v0));
            }
        }
    }
}

/// `fork` finds what it needs: a pid to hand out, room for the child's
/// root table and kernel stack, the frames of the parent's lower-half user
/// pages in RAM, and a return address that does not overflow.
pub open spec fn fork_ready(k: Kernel) -> bool {
    &&& k.sched.next_pid < usize::MAX
    &&& k.sched.cur().trap_frame.sepc <= usize::MAX - 4
    &&& lower_user_frames_in_ram(k.ram.table_words(), k.root())
    &&& if k.ram.free_list@.len() > 0 {
        k.ram.next_frame + KERNEL_STACK_PAGES * 4096 <= RAM_END
    } else {
        k.ram.next_frame + (KERNEL_STACK_PAGES + 1) * 4096 <= RAM_END
    }
}

/// Some slot of the process table can take a new process.
pub open spec fn has_reusable_slot(procs: Seq<Option<Process>>) -> bool {
    exists|i: int| 0 <= i < MAX_PROCESSES && is_reusable(#[trigger] procs[i])
}

/// The first slot that can take a new process.
pub open spec fn first_reusable_slot(procs: Seq<Option<Process>>) -> int {
    choose|i: int|
        0 <= i < MAX_PROCESSES && is_reusable(#[trigger] procs[i]) && forall|j: int|
            0 <= j < i ==> !is_reusable(#[trigger] procs[j])
}

proof fn lemma_reusable_min(procs: Seq<Option<Process>>, k: int)
    requires
        0 <= k < MAX_PROCESSES,
        is_reusable(procs[k]),
    ensures
        exists|i: int|
            0 <= i < MAX_PROCESSES && is_reusable(#[trigger] procs[i]) && forall|j: int|
                0 <= j < i ==> !is_reusable(#[trigger] procs[j]),
    decreases k,
{
    if exists|j: int| 0 <= j < k && is_reusable(#[trigger] procs[j]) {
        let j = choose|j: int| 0 <= j < k && is_reusable(#[trigger] procs[j]);
        lemma_reusable_min(procs, j);
    } else {
        assert(forall|j: int| 0 <= j < k ==> !is_reusable(#[trigger] procs[j]));
    }
}

/// The first slot that can take a new process is one, and every slot
/// before it is taken.
pub proof fn lemma_first_reusable_slot(procs: Seq<Option<Process>>)
    requires
        has_reusable_slot(procs),
    ensures
        0 <= first_reusable_slot(procs) < MAX_PROCESSES,
        is_reusable(procs[first_reusable_slot(procs)]),
        forall|j: int| 0 <= j < first_reusable_slot(procs) ==> !is_reusable(#[trigger] procs[j]),
{
    let k = choose|i: int| 0 <= i < MAX_PROCESSES && is_reusable(#[trigger] procs[i]);
    lemma_reusable_min(procs, k);
}

/// What `fork` does (see [`Kernel::sys_fork`]).
pub open spec fn fork_post(o: Kernel, f: Kernel, r: usize) -> bool {
    &&& !has_reusable_slot(o.sched.procs@) ==> r == spec_linux_error(EAGAIN) && f == o
    &&& has_reusable_slot(o.sched.procs@) ==> {
        let par = o.sched.cur();
        let par_slot = o.sched.procs@[o.sched.current as int];
        let p = o.root();
        let i = first_reusable_slot(o.sched.procs@);
        let fresh = if o.ram.free_list@.len() > 0 {
            o.ram.free_list@.last()
        } else {
            o.ram.next_frame
        };
        let stack: int = if o.ram.free_list@.len() > 0 {
            o.ram.next_frame as int
        } else {
            o.ram.next_frame + 4096
        };
        let child = Process {
            pid: o.sched.next_pid,
            parent_pid: par.pid,
            state: ProcessState::Ready,
            page_table: PageTable { root: PhysAddr(fresh) },
            trap_frame: TrapFrame {
                regs: f.sched.procs@[i]->Some_0.trap_frame.regs,
                sepc: (par.trap_frame.sepc + 4) as usize,
                scause: 8,
                ..par.trap_frame
            },
            kernel_sp: (stack + KERNEL_STACK_SIZE) as usize,
            kernel_stack_frame: PhysAddr(stack as usize),
            ..par
        };
        let wo = o.ram.table_words();
        let wf = f.ram.table_words();
        &&& r == o.sched.next_pid
        &&& forall|pa: usize|
            #[trigger] f.ram.is_allocated(pa) && !o.ram.is_allocated(pa) ==> pa == fresh || (stack <= pa
                < stack + KERNEL_STACK_SIZE) || !outside_tree(wf, fresh, pa)
        &&& f.sched.next_pid == o.sched.next_pid + 1
        &&& f.sched.current == o.sched.current
        &&& f.sched.procs@ == o.sched.procs@.update(i, Some(child))
        &&& child.trap_frame.regs@ == par.trap_frame.regs@.update(REG_A0 as int, 0)
        &&& !o.ram.is_allocated(fresh)
        &&& tree_shaped(wf, p)
        &&& tree_shaped(wf, fresh)
        &&& forall|i: int, j: int|
            0 <= i < KERNEL_VPN2_MIN && 0 <= j < 512 && pte_valid(pte_word(wf, p, i)) && pte_valid(
                #[trigger] pte_word(wf, l1_of(wf, p, i), j),
            ) ==> outside_tree(wf, fresh, l0_of(wf, p, i, j))
        &&& lower_tables_outside(wf, fresh, p)
        &&& forall|pa: usize| o.ram.is_allocated(pa) ==> #[trigger] f.ram.is_allocated(pa)
        &&& o.user_counted() && counts_below_max(o.ram) && !is_reusable(par_slot) ==> f.user_counted()
        &&& forall|pa: usize|
            o.ram.is_allocated(pa) && not_mapped_in(wo, p, 0, USER_SPACE_TOP as int, pa)
                ==> #[trigger] f.ram.ref_of(pa) == o.ram.ref_of(pa)
        &&& o.user_counted() ==> forall|pa: usize|
            o.ram.is_allocated(pa) && !not_mapped_in(wo, p, 0, USER_SPACE_TOP as int, pa)
                ==> #[trigger] f.ram.ref_of(pa) == ref_inc(o.ram.ref_of(pa))
        &&& forall|va: usize|
            #[trigger] lookup_entry(wf, p, va) == marked_entry(lookup_entry(wo, p, va), va)
        &&& forall|va: usize|
            spec_vpn2(va) >= KERNEL_VPN2_MIN ==> #[trigger] translate(wf, fresh, va) == translate(
                wf,
                p,
                va,
            )
        &&& forall|va: usize|
            spec_vpn2(va) < KERNEL_VPN2_MIN ==> {
                ||| #[trigger] translate(wf, fresh, va) is None
                ||| translate(wf, fresh, va) == child_view(lookup_entry(wf, p, va))
            }
        &&& frames_available(f.ram) >= 2 ==> forall|va: usize|
            spec_vpn2(va) < KERNEL_VPN2_MIN ==> #[trigger] translate(wf, fresh, va)
                == child_view(lookup_entry(wf, p, va))
    }
}

impl Kernel {
    /// `fork`: creates a child of the running process in the first free
    /// slot and returns its pid, or `-EAGAIN` when the table is full.
    ///
    /// The parent's writable user pages of the lower half become read-only
    /// and copy-on-write, and each of their frames gets one more reference.
    /// The child gets a fresh root table holding the parent's upper root
    /// entries (the kernel's mappings), the parent's lower-half pages mapped
    /// to the same frames (copy-on-write where the parent's are), a fresh
    /// kernel stack, and the parent's trap frame set to return 0 from the
    /// next instruction. Every frame it hands out is the child's root, a
    /// frame of its kernel stack, or a table of its page table.
    #[verifier::spinoff_prover]
    #[verifier::rlimit(40)]
    pub fn sys_fork(&mut self) -> (r: usize)
        requires
            old(self).wf(),
            has_reusable_slot(old(self).sched.procs@) ==> fork_ready(*old(self)),
        ensures
            final(self).wf(),
            fork_post(*old(self), *final(self), r),

    {
        let idx = match self.sched.find_empty_slot() {
            Some(i) => i,
            None => {
                return linux_error(EAGAIN);
            },
        };
        proof {
            assert(has_reusable_slot(old(self).sched.procs@));
            let i0 = first_reusable_slot(old(self).sched.procs@);
            if i0 < idx {
                assert(!is_reusable(old(self).sched.procs@[i0]));
            }
            if i0 > idx {
                assert(!is_reusable(old(self).sched.procs@[idx as int]));
            }
            assert(i0 == idx);
        }
        let pid = self.sched.alloc_pid();
        let parent = *self.sched.current();
        let ppt = parent.page_table;
        let ghost p = ppt.root.0;
        let ghost r0 = self.ram;
        let ghost w0 = self.ram.table_words();
        mark_lower_half(&mut self.ram, &ppt);
        let ghost pw = self.ram.table_words();
        let ghost r1 = self.ram;
        let ghost counted = old(self).user_counted() && counts_below_max(old(self).ram);
        proof {
            old(self).lemma_user_counted();
            if counted {
                lemma_counted_after_mark(r0, r1, p);
            }
        }
        let root_frame = match self.ram.alloc_frame() {
            Some(f) => f,
            None => {
                assert(false);
                return linux_error(EAGAIN);
            },
        };
        let ghost ra = self.ram;
        let c = root_frame.0;
        self.ram.zero_frame(root_frame);
        let ghost wz = self.ram.table_words();
        copy_kernel_half(&mut self.ram, ppt.root, root_frame);
        proof {
            let wc = self.ram.table_words();
            let ic = spec_frame_index(c);
            assert(0 <= ic < NUM_FRAMES);
            assert(!holds_table(pw, c));
            assert forall|k: int| 0 <= k < 512 implies #[trigger] pte_word(wz, p, k) == pte_word(pw, p, k) by {
                if is_frame(p) {
                    lemma_frame_index_injective(p, c);
                }
            }
            assert(wc[ic] =~= child_root_words(pw, p));
            assert(wc =~= pw.update(ic, child_root_words(pw, p)));
            lemma_build_init(pw, p, c);
        }
        let ghost r2 = self.ram;
        let kernel_stack = match self.ram.alloc_contiguous_frames(KERNEL_STACK_PAGES) {
            Some(s) => s,
            None => {
                assert(false);
                return linux_error(EAGAIN);
            },
        };
        let kernel_sp = kernel_stack.0 + KERNEL_STACK_SIZE;
        let mut child_tf = parent.trap_frame;
        child_tf.set_a0(0);
        child_tf.sepc = child_tf.sepc + 4;
        child_tf.scause = 8;
        let child_pt = PageTable::new(root_frame);
        let ghost r3 = self.ram;
        let ghost w3 = self.ram.table_words();
        proof {
            lemma_zero_entry();
            assert forall|i: int| 0 <= i < KERNEL_VPN2_MIN implies !pte_valid(#[trigger] pte_word(w3, c, i)) by {
                assert(pte_word(w3, c, i) == child_root_words(pw, p)[i]);
            }
        }
        let _ = share_lower_half(&mut self.ram, &ppt, &child_pt, true, Ghost(pw));
        let ghost w4 = self.ram.table_words();
        let ghost r4 = self.ram;
        let _ = share_lower_half(&mut self.ram, &ppt, &child_pt, false, Ghost(pw));
        proof {
            let w5 = self.ram.table_words();
            assert forall|pa: usize| #[trigger] self.ram.is_allocated(pa) && !old(self).ram.is_allocated(pa) implies pa
                == c || (r2.next_frame <= pa < r2.next_frame + KERNEL_STACK_SIZE) || !outside_tree(w5, c, pa) by {
                assert(building(w3, pw, p, c));
                assert(building(w4, pw, p, c));
                if r4.is_allocated(pa) {
                    if r3.is_allocated(pa) {
                        assert(r2.next_frame == r3.next_frame - KERNEL_STACK_SIZE);
                        if !r2.is_allocated(pa) {
                            assert(r2.free_list@ == r3.free_list@);
                            assert(r2.next_frame <= pa);
                            assert(pa < r2.next_frame + KERNEL_STACK_SIZE);
                        } else {
                            assert(r1.is_allocated(pa) == old(self).ram.is_allocated(pa));
                            assert(is_frame(pa));
                            if pa != c {
                                assert(r2.is_allocated(pa) == ra.is_allocated(pa));
                                assert(ra.is_allocated(pa) == r1.is_allocated(pa));
                            }
                        }
                    } else {
                        assert(!outside_tree(w4, c, pa));
                        assert(!outside_tree(w5, c, pa));
                    }
                } else {
                    assert(!outside_tree(w5, c, pa));
                }
            }
        }
        proof {
            let w5 = self.ram.table_words();
            lemma_building_upper(w5, pw, p, c);
            lemma_same_tree(pw, w5, p);
            assert forall|i: int, j: int|
                0 <= i < KERNEL_VPN2_MIN && 0 <= j < 512 && pte_valid(pte_word(w5, p, i)) && pte_valid(
                    #[trigger] pte_word(w5, l1_of(w5, p, i), j),
                ) implies outside_tree(w5, c, l0_of(w5, p, i, j)) by {
                assert(pte_word(w5, p, i) == pte_word(pw, p, i));
                assert(l1_of(w5, p, i) == l1_of(pw, p, i));
                assert(pte_word(w5, l1_of(pw, p, i), j) == pte_word(pw, l1_of(pw, p, i), j));
            }
            assert forall|va: usize| #[trigger] lookup_entry(w5, p, va) == marked_entry(
                lookup_entry(w0, p, va),
                va,
            ) by {
                assert(lookup_entry(w5, p, va) == lookup_entry(pw, p, va));
            }
            assert forall|va: usize| spec_vpn2(va) < KERNEL_VPN2_MIN implies {
                ||| #[trigger] translate(w5, c, va) is None
                ||| translate(w5, c, va) == child_view(lookup_entry(w5, p, va))
            } by {
                assert(lookup_entry(w5, p, va) == lookup_entry(pw, p, va));
                assert(translate(w3, c, va) is None);
            }
            if frames_available(self.ram) >= 2 {
                assert forall|va: usize| spec_vpn2(va) < KERNEL_VPN2_MIN implies #[trigger] translate(
                    w5,
                    c,
                    va,
                ) == child_view(lookup_entry(w5, p, va)) by {
                    assert(lookup_entry(w5, p, va) == lookup_entry(pw, p, va));
                    assert(translate(w3, c, va) is None);
                    let l = lookup_entry(pw, p, va);
                    if !selected(l, true) && !selected(l, false) {
                        if let Some(x) = l {
                            assert(!pte_valid(x));
                        }
                    }
                }
            }
            assert forall|pa: usize| old(self).ram.is_allocated(pa) implies #[trigger] self.ram.is_allocated(pa)
                && self.ram.ref_of(pa) == r1.ref_of(pa) by {
                assert(r1.is_allocated(pa));
                assert(r2.is_allocated(pa));
                assert(r2.ref_of(pa) == r1.ref_of(pa));
                assert(spec_frame_index(pa) < spec_frame_index(r2.next_frame));
                assert(r3.ref_of(pa) == r2.ref_of(pa));
                assert(r3.is_allocated(pa));
                assert(r4.is_allocated(pa));
                assert(r4.ref_of(pa) == r3.ref_of(pa));
                assert(self.ram.is_allocated(pa));
                assert(self.ram.ref_of(pa) == r4.ref_of(pa));
            }
            assert(r0 == old(self).ram);
            assert(p == old(self).root());
            assert forall|pa: usize|
                old(self).ram.is_allocated(pa) && not_mapped_in(w0, p, 0, USER_SPACE_TOP as int, pa)
                    implies #[trigger] self.ram.ref_of(pa) == old(self).ram.ref_of(pa) by {
                assert(self.ram.is_allocated(pa));
                assert(self.ram.ref_of(pa) == r1.ref_of(pa));
            }
            old(self).lemma_user_counted();
            if old(self).user_counted() {
                assert forall|pa: usize|
                    old(self).ram.is_allocated(pa) && !not_mapped_in(w0, p, 0, USER_SPACE_TOP as int, pa)
                        implies #[trigger] self.ram.ref_of(pa) == ref_inc(old(self).ram.ref_of(pa)) by {
                    assert(self.ram.is_allocated(pa));
                    assert(self.ram.ref_of(pa) == r1.ref_of(pa));
                }
            }
        }
        let child = Process {
            pid,
            parent_pid: parent.pid,
            state: ProcessState::Ready,
            page_table: child_pt,
            trap_frame: child_tf,
            kernel_sp,
            kernel_stack_frame: kernel_stack,
            heap_start: parent.heap_start,
            heap_end: parent.heap_end,
            mmap_areas: parent.mmap_areas,
        };
        proof {
            if counted {
                let w5 = self.ram.table_words();
                lemma_same_tree(pw, w5, p);
                crate::mm::page_table::lemma_same_upper_levels(pw, w5, p);
                assert forall|pa: usize| r1.is_allocated(pa) implies #[trigger] self.ram.is_allocated(pa)
                    && self.ram.ref_of(pa) == r1.ref_of(pa) by {
                    assert(old(self).ram.is_allocated(pa));
                }
                assert forall|va: usize|
                    page_in(va, 0, USER_SPACE_TOP as int) && #[trigger] user_frame_at(pw, p, va) is Some implies self.ram.is_allocated(
                    user_frame_at(pw, p, va)->Some_0,
                ) && self.ram.ref_of(user_frame_at(pw, p, va)->Some_0) == r1.ref_of(
                    user_frame_at(pw, p, va)->Some_0,
                ) by {
                    assert(r1.is_allocated(user_frame_at(pw, p, va)->Some_0));
                }
                lemma_counted_kept(r1, self.ram, p);
            }
        }
        self.sched.install(idx, child);
        proof {
            self.lemma_user_counted();
            if !is_reusable(old(self).sched.procs@[old(self).sched.current as int]) {
                assert(idx != old(self).sched.current);
                assert(self.root() == p);
            }
        }
        pid
    }
}


/// Copy-on-write keeps the two address spaces apart: after `fork`,
/// resolving a copy-on-write fault of the parent in its lower half leaves
/// every translation of the child as it was.
pub proof fn law_parent_cow_fault_keeps_child_view(
    k0: Kernel,
    k1: Kernel,
    r: usize,
    g: Ram,
    va: usize,
    e: u64,
    cr: CowResult,
)
    requires
        k0.sched.wf(),
        has_reusable_slot(k0.sched.procs@),
        fork_post(k0, k1, r),
        k1.ram.wf(),
        spec_vpn2(va) < KERNEL_VPN2_MIN,
        cow_resolved(k1.ram, g, k0.root(), va, e, cr),
    ensures
        ({
            let c = k1.sched.procs@[first_reusable_slot(k0.sched.procs@)]->Some_0.page_table.root.0;
            forall|v: usize| #[trigger] translate(g.table_words(), c, v) == translate(k1.ram.table_words(), c, v)
        }),
{
    let p = k0.root();
    let w = k1.ram.table_words();
    let c = k1.sched.procs@[first_reusable_slot(k0.sched.procs@)]->Some_0.page_table.root.0;
    lemma_first_reusable_slot(k0.sched.procs@);
    let fresh = if k0.ram.free_list@.len() > 0 {
        k0.ram.free_list@.last()
    } else {
        k0.ram.next_frame
    };
    assert(c == fresh);
    assert(tree_shaped(w, c));
    let (t, k) = leaf_slot(w, p, va)->Some_0;
    lemma_vpn_bounds(va);
    let v2 = spec_vpn2(va) as int;
    let v1 = spec_vpn1(va) as int;
    assert(pte_valid(pte_word(w, p, v2)));
    assert(pte_valid(pte_word(w, l1_of(w, p, v2), v1)));
    assert(t == l0_of(w, p, v2, v1));
    assert(outside_tree(w, c, t));
    assert(words_wf(w)) by {
        assert forall|i: int| 0 <= i < NUM_FRAMES implies (#[trigger] w[i].len() == 0 || w[i].len()
            == ENTRIES_PER_TABLE) by {
            assert(k1.ram.words@[i]@.len() == 0 || k1.ram.words@[i]@.len() == ENTRIES_PER_TABLE);
        }
    }
    let new_e = match cr {
        CowResult::Copied { from, to } => crate::trap::cow_copied_entry(e, to.0),
        CowResult::Reused => crate::trap::cow_reused_entry(e),
    };
    crate::mm::page_table::lemma_write_outside(w, g.table_words(), c, t, k, new_e);
}


/// Copy-on-write keeps the two address spaces apart the other way too:
/// after `fork`, resolving a copy-on-write fault of the child in its lower
/// half leaves every translation of the parent as it was.
pub proof fn law_child_cow_fault_keeps_parent_view(
    k0: Kernel,
    k1: Kernel,
    r: usize,
    g: Ram,
    va: usize,
    e: u64,
    cr: CowResult,
)
    requires
        k0.sched.wf(),
        has_reusable_slot(k0.sched.procs@),
        fork_post(k0, k1, r),
        k1.ram.wf(),
        spec_vpn2(va) < KERNEL_VPN2_MIN,
        cow_resolved(
            k1.ram,
            g,
            k1.sched.procs@[first_reusable_slot(k0.sched.procs@)]->Some_0.page_table.root.0,
            va,
            e,
            cr,
        ),
    ensures
        forall|v: usize| #[trigger] translate(g.table_words(), k0.root(), v) == translate(
            k1.ram.table_words(),
            k0.root(),
            v,
        ),
{
    let p = k0.root();
    let w = k1.ram.table_words();
    let c = k1.sched.procs@[first_reusable_slot(k0.sched.procs@)]->Some_0.page_table.root.0;
    lemma_first_reusable_slot(k0.sched.procs@);
    let fresh = if k0.ram.free_list@.len() > 0 {
        k0.ram.free_list@.last()
    } else {
        k0.ram.next_frame
    };
    assert(c == fresh);
    let (t, k) = leaf_slot(w, c, va)->Some_0;
    lemma_vpn_bounds(va);
    let v2 = spec_vpn2(va) as int;
    let v1 = spec_vpn1(va) as int;
    assert(pte_valid(pte_word(w, c, v2)));
    assert(pte_valid(pte_word(w, l1_of(w, c, v2), v1)));
    assert(t == l0_of(w, c, v2, v1));
    assert(outside_tree(w, p, t));
    assert(words_wf(w)) by {
        assert forall|i: int| 0 <= i < NUM_FRAMES implies (#[trigger] w[i].len() == 0 || w[i].len()
            == ENTRIES_PER_TABLE) by {
            assert(k1.ram.words@[i]@.len() == 0 || k1.ram.words@[i]@.len() == ENTRIES_PER_TABLE);
        }
    }
    let new_e = match cr {
        CowResult::Copied { from, to } => crate::trap::cow_copied_entry(e, to.0),
        CowResult::Reused => crate::trap::cow_reused_entry(e),
    };
    crate::mm::page_table::lemma_write_outside(w, g.table_words(), p, t, k, new_e);
}

} // verus!
