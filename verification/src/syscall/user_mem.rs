//! Mapping and unmapping ranges of user pages, and checking user buffers.
use vstd::prelude::*;

use crate::mm::frame::{
    RAM_BASE, holds_table, page_zeroed, is_frame, pte_word, spec_frame_index, Ram, ENTRIES_PER_TABLE, NUM_FRAMES,
};
use crate::syscall::errno::spec_align_up;
use crate::mm::page_table::{
    lemma_page_num, lemma_slot_determines_page, lemma_tree_shaped_leaf_write, lemma_write_words,
    lemma_zero_entry, valid_entry, frames_available,
    PTEntry, PageTable, VirtAddr, spec_new_leaf, translate, lemma_user_leaf_bits,
    lemma_leaf_entry, PTEFlags, only_allocates, set_leaf_post, same_page, writes_on_path,
    next_table, tables_needed, lemma_slots_kept,
};
use crate::task::process::USER_SPACE_TOP;
use crate::mm::page_table::{
    outside_tree, lemma_same_upper_levels, below_second_level, l0_of, l1_of, lemma_frame_index_injective, lemma_vpn_bounds, leaf_slot,
    lookup_entry, page_base, page_num, pte_valid, spec_ppn_to_addr, spec_vpn1, spec_vpn2,
    tree_shaped, words_wf, PTE_U,
};

verus! {

/// A valid entry that user mode may use.
pub open spec fn user_entry(e: u64) -> bool {
    e & 1u64 != 0 && e & PTE_U != 0
}

/// The frame that `va` maps as a user page, if any.
pub open spec fn user_frame_at(words: Seq<Seq<u64>>, root: usize, va: usize) -> Option<usize> {
    match lookup_entry(words, root, va) {
        Some(e) => if user_entry(e) {
            Some(spec_ppn_to_addr(e))
        } else {
            None
        },
        None => None,
    }
}

/// The page of `va` starts in `[start, end)`.
pub open spec fn page_in(va: usize, start: int, end: int) -> bool {
    start <= page_base(va) < end
}

/// No user page in `[start, end)` maps the frame `pa`.
#[verifier::opaque]
pub open spec fn not_mapped_in(words: Seq<Seq<u64>>, root: usize, start: int, end: int, pa: usize) -> bool {
    forall|va: usize|
        #![trigger user_frame_at(words, root, va)]
        page_in(va, start, end) ==> user_frame_at(words, root, va) != Some(pa)
}

pub proof fn lemma_not_mapped_intro(words: Seq<Seq<u64>>, root: usize, start: int, end: int, pa: usize)
    requires
        forall|va: usize|
            #![trigger user_frame_at(words, root, va)]
            page_in(va, start, end) ==> user_frame_at(words, root, va) != Some(pa),
    ensures
        not_mapped_in(words, root, start, end, pa),
{
    reveal(not_mapped_in);
}

/// The frames that user pages in `[start, end)` map are handed-out frames of
/// RAM with a count of at least one, that hold no table of `root`, and no
/// two of those pages share a frame.
pub open spec fn frames_counted(ram: Ram, root: usize, start: int, end: int) -> bool {
    let w = ram.table_words();
    &&& forall|va: usize|
        #![trigger user_frame_at(w, root, va)]
        page_in(va, start, end) && user_frame_at(w, root, va) is Some ==> {
            let pa = user_frame_at(w, root, va)->Some_0;
            &&& is_frame(pa)
            &&& ram.ref_of(pa) >= 1
            &&& ram.is_allocated(pa)
            &&& outside_tree(w, root, pa)
        }
    &&& forall|va1: usize, va2: usize|
        #![trigger user_frame_at(w, root, va1), user_frame_at(w, root, va2)]
        page_in(va1, start, end) && page_in(va2, start, end) && page_num(va1) != page_num(va2)
            && user_frame_at(w, root, va1) is Some ==> user_frame_at(w, root, va1)
            != user_frame_at(w, root, va2)
}

/// Freeing a frame that holds no table of `root` leaves the page table at
/// `root` as it is.
pub proof fn lemma_free_outside_tree(
    old: Seq<Seq<u64>>,
    new: Seq<Seq<u64>>,
    root: usize,
    q: usize,
)
    requires
        words_wf(old),
        tree_shaped(old, root),
        is_frame(q),
        outside_tree(old, root, q),
        new == old.update(spec_frame_index(q), Seq::<u64>::empty()),
    ensures
        words_wf(new),
        tree_shaped(new, root),
        forall|va: usize| #[trigger] leaf_slot(new, root, va) == leaf_slot(old, root, va),
        forall|va: usize| #[trigger] lookup_entry(new, root, va) == lookup_entry(old, root, va),
        forall|pa: usize| #[trigger] outside_tree(new, root, pa) == outside_tree(old, root, pa),
        forall|pa: usize| #[trigger] below_second_level(new, root, pa) == below_second_level(old, root, pa),
        forall|t: usize| #[trigger] holds_table(new, t) == (holds_table(old, t) && t != q),
{
    reveal(outside_tree);
    assert forall|t: usize| #[trigger] holds_table(new, t) == (holds_table(old, t) && t != q) by {
        if is_frame(t) && t != q {
            lemma_frame_index_injective(t, q);
        }
    }
    assert forall|t: usize, i: int| 0 <= i < 512 && t != q implies #[trigger] pte_word(new, t, i)
        == pte_word(old, t, i) by {
        if is_frame(t) {
            lemma_frame_index_injective(t, q);
        }
    }
    assert forall|j: int| 0 <= j < NUM_FRAMES implies (#[trigger] new[j].len() == 0 || new[j].len()
        == ENTRIES_PER_TABLE) by {
        assert(old[j].len() == 0 || old[j].len() == ENTRIES_PER_TABLE);
    }
    assert forall|k: int| 0 <= k < 512 implies #[trigger] pte_word(new, root, k) == pte_word(old, root, k) by {}
    assert forall|i: int| 0 <= i < 512 implies #[trigger] l1_of(new, root, i) == l1_of(old, root, i) by {}
    assert forall|i: int, j: int|
        0 <= i < 512 && 0 <= j < 512 && pte_valid(pte_word(old, root, i)) implies #[trigger] pte_word(
        new,
        l1_of(new, root, i),
        j,
    ) == pte_word(old, l1_of(old, root, i), j) by {}
    assert forall|va: usize| #[trigger] leaf_slot(new, root, va) == leaf_slot(old, root, va) by {
        lemma_vpn_bounds(va);
        let v2 = spec_vpn2(va) as int;
        let v1 = spec_vpn1(va) as int;
        if pte_valid(pte_word(old, root, v2)) {
            assert(pte_word(new, l1_of(new, root, v2), v1) == pte_word(old, l1_of(old, root, v2), v1));
        }
    }
    assert forall|va: usize| #[trigger] lookup_entry(new, root, va) == lookup_entry(old, root, va) by {
        lemma_vpn_bounds(va);
        assert(leaf_slot(new, root, va) == leaf_slot(old, root, va));
        if let Some((t0, i0)) = leaf_slot(old, root, va) {
            assert(pte_word(new, t0, i0) == pte_word(old, t0, i0));
        }
    }
    assert forall|i: int, j: int|
        0 <= i < 512 && 0 <= j < 512 && pte_valid(pte_word(new, root, i)) && pte_valid(
            #[trigger] pte_word(new, l1_of(new, root, i), j),
        ) implies {
        &&& holds_table(new, l0_of(new, root, i, j))
        &&& l0_of(new, root, i, j) != root
    } by {
        assert(pte_word(new, l1_of(new, root, i), j) == pte_word(old, l1_of(old, root, i), j));
    }
    assert forall|i: int, j: int, k: int|
        0 <= i < 512 && 0 <= j < 512 && 0 <= k < 512 && pte_valid(pte_word(new, root, i))
            && pte_valid(#[trigger] pte_word(new, l1_of(new, root, i), j)) && pte_valid(
            #[trigger] pte_word(new, root, k),
        ) implies l0_of(new, root, i, j) != l1_of(new, root, k) by {
        assert(pte_word(new, l1_of(new, root, i), j) == pte_word(old, l1_of(old, root, i), j));
    }
    assert forall|i: int, j: int, k: int, l: int|
        0 <= i < 512 && 0 <= j < 512 && 0 <= k < 512 && 0 <= l < 512 && (i != k || j != l)
            && pte_valid(pte_word(new, root, i)) && pte_valid(
            #[trigger] pte_word(new, l1_of(new, root, i), j),
        ) && pte_valid(pte_word(new, root, k)) && pte_valid(
            #[trigger] pte_word(new, l1_of(new, root, k), l),
        ) implies l0_of(new, root, i, j) != l0_of(new, root, k, l) by {
        assert(pte_word(new, l1_of(new, root, i), j) == pte_word(old, l1_of(old, root, i), j));
        assert(pte_word(new, l1_of(new, root, k), l) == pte_word(old, l1_of(old, root, k), l));
    }
    lemma_same_upper_levels(old, new, root);
}

/// Writing the last-level entry of the page of `va0` changes what the walk
/// finds for that page only.
pub proof fn lemma_write_page_entry(
    old: Seq<Seq<u64>>,
    new: Seq<Seq<u64>>,
    root: usize,
    va0: usize,
    t: usize,
    idx: int,
    e: u64,
)
    requires
        words_wf(old),
        tree_shaped(old, root),
        leaf_slot(old, root, va0) == Some((t, idx)),
        new == old.update(spec_frame_index(t), old[spec_frame_index(t)].update(idx, e)),
    ensures
        words_wf(new),
        tree_shaped(new, root),
        forall|va: usize| #[trigger] leaf_slot(new, root, va) == leaf_slot(old, root, va),
        forall|va: usize|
            #[trigger] lookup_entry(new, root, va) == if page_num(va) == page_num(va0) {
                Some(e)
            } else {
                lookup_entry(old, root, va)
            },
        forall|pa: usize| #[trigger] outside_tree(new, root, pa) == outside_tree(old, root, pa),
{
    lemma_vpn_bounds(va0);
    let v2 = spec_vpn2(va0) as int;
    let v1 = spec_vpn1(va0) as int;
    assert(t == l0_of(old, root, v2, v1));
    assert forall|k: int|
        0 <= k < 512 && pte_valid(#[trigger] pte_word(old, root, k)) implies t != l1_of(old, root, k) by {}
    lemma_tree_shaped_leaf_write(old, new, root, t, idx, e);
    assert forall|va: usize| #[trigger] lookup_entry(new, root, va) == if page_num(va) == page_num(va0) {
        Some(e)
    } else {
        lookup_entry(old, root, va)
    } by {
        lemma_page_num(va, va0);
        if leaf_slot(old, root, va) == Some((t, idx)) {
            lemma_slot_determines_page(old, root, va0, va);
        }
    }
    lemma_write_words(old, new, t, idx, e);
    assert forall|k: int| 0 <= k < 512 implies #[trigger] pte_word(new, root, k) == pte_word(old, root, k) by {}
    assert forall|i: int, j: int|
        0 <= i < 512 && 0 <= j < 512 && pte_valid(pte_word(old, root, i)) implies #[trigger] pte_word(
        new,
        l1_of(new, root, i),
        j,
    ) == pte_word(old, l1_of(old, root, i), j) by {
        assert(l1_of(new, root, i) == l1_of(old, root, i));
    }
    lemma_same_upper_levels(old, new, root);
}

/// The facts that `unmap_user_pages` keeps while it walks `[start, vaddr)`.
pub open spec fn unmap_progress(o: Ram, cur: Ram, root: usize, start: int, vaddr: int) -> bool {
    let ow = o.table_words();
    let w = cur.table_words();
    &&& cur.wf()
    &&& tree_shaped(w, root)
    &&& cur.next_frame == o.next_frame
    &&& forall|va: usize| #[trigger] leaf_slot(w, root, va) == leaf_slot(ow, root, va)
    &&& forall|va: usize|
        #[trigger] lookup_entry(w, root, va) == if page_in(va, start, vaddr) && user_frame_at(
            ow,
            root,
            va,
        ) is Some {
            Some(0u64)
        } else {
            lookup_entry(ow, root, va)
        }
    &&& forall|pa: usize| #[trigger] outside_tree(w, root, pa) == outside_tree(ow, root, pa)
    &&& forall|va: usize|
        #![trigger user_frame_at(ow, root, va)]
        page_in(va, start, vaddr) && user_frame_at(ow, root, va) is Some ==> {
            let pa = user_frame_at(ow, root, va)->Some_0;
            &&& cur.ref_of(pa) == o.ref_of(pa) - 1
            &&& cur.is_allocated(pa) == (o.is_allocated(pa) && o.ref_of(pa) != 1)
        }
    &&& forall|pa: usize|
        #![trigger cur.ref_of(pa)]
        is_frame(pa) && not_mapped_in(ow, root, start, vaddr, pa) ==> {
            &&& cur.ref_of(pa) == o.ref_of(pa)
            &&& cur.is_allocated(pa) == o.is_allocated(pa)
        }
}

/// Clears the entry of the page at `vaddr` when it maps a user frame, and
/// drops one reference to that frame.
#[verifier::spinoff_prover]
#[verifier::rlimit(30)]
fn unmap_user_page(ram: &mut Ram, pt: &PageTable, vaddr: usize)
    requires
        old(ram).wf(),
        tree_shaped(old(ram).table_words(), pt.root.0),
        user_frame_at(old(ram).table_words(), pt.root.0, vaddr) matches Some(pa) ==> {
            &&& is_frame(pa)
            &&& old(ram).ref_of(pa) >= 1
            &&& (old(ram).ref_of(pa) == 1 ==> old(ram).is_allocated(pa))
            &&& outside_tree(old(ram).table_words(), pt.root.0, pa)
        },
    ensures
        final(ram).wf(),
        tree_shaped(final(ram).table_words(), pt.root.0),
        final(ram).next_frame == old(ram).next_frame,
        forall|va: usize|
            #[trigger] leaf_slot(final(ram).table_words(), pt.root.0, va) == leaf_slot(
                old(ram).table_words(),
                pt.root.0,
                va,
            ),
        forall|va: usize|
            #[trigger] lookup_entry(final(ram).table_words(), pt.root.0, va) == if page_num(va)
                == page_num(vaddr) && user_frame_at(old(ram).table_words(), pt.root.0, vaddr) is Some {
                Some(0u64)
            } else {
                lookup_entry(old(ram).table_words(), pt.root.0, va)
            },
        forall|pa: usize|
            #[trigger] outside_tree(final(ram).table_words(), pt.root.0, pa) == outside_tree(
                old(ram).table_words(),
                pt.root.0,
                pa,
            ),
        user_frame_at(old(ram).table_words(), pt.root.0, vaddr) is None ==> *final(ram) == *old(ram),
        user_frame_at(old(ram).table_words(), pt.root.0, vaddr) matches Some(pa) ==> {
            &&& final(ram).ref_of(pa) == old(ram).ref_of(pa) - 1
            &&& final(ram).is_allocated(pa) == (old(ram).is_allocated(pa) && old(ram).ref_of(pa)
                != 1)
            &&& forall|p: usize|
                #![trigger final(ram).ref_of(p)]
                is_frame(p) && p != pa ==> final(ram).ref_of(p) == old(ram).ref_of(p)
                    && final(ram).is_allocated(p) == old(ram).is_allocated(p)
        },
{
    let ghost root = pt.root.0;
    let ghost w0 = ram.table_words();
    proof {
        lemma_page_num(vaddr, vaddr);
    }
    match pt.lookup(ram, VirtAddr(vaddr)) {
        Some(slot) => {
            let e = PTEntry(ram.read_pte(slot.table, slot.index));
            if e.is_valid() && e.is_u() {
                let pa = e.ppn_to_addr();
                assert(user_frame_at(w0, root, vaddr) == Some(pa.0));
                proof {
                    reveal(outside_tree);
                    lemma_vpn_bounds(vaddr);
                    assert(slot.table.0 == l0_of(w0, root, spec_vpn2(vaddr) as int, spec_vpn1(vaddr) as int));
                    assert(slot.table.0 != pa.0);
                }
                ram.dec_ref(pa);
                let ghost w1 = ram.table_words();
                let ghost r1 = *ram;
                proof {
                    if old(ram).ref_of(pa.0) == 1 {
                        lemma_free_outside_tree(w0, w1, root, pa.0);
                    } else {
                        assert(w1 == w0);
                    }
                    assert(pa.0 - (pa.0 - RAM_BASE) % 4096 == pa.0);
                }
                ram.write_pte(slot.table, slot.index, PTEntry::empty().0);
                proof {
                    let w2 = ram.table_words();
                    lemma_same_counts(r1, *ram);
                    lemma_zero_entry();
                    lemma_write_page_entry(w1, w2, root, vaddr, slot.table.0, slot.index as int, 0u64);
                    assert forall|p: usize| is_frame(p) && p != pa.0 implies #[trigger] ram.ref_of(p)
                        == old(ram).ref_of(p) && ram.is_allocated(p) == old(ram).is_allocated(p) by {
                        assert(r1.ref_of(p) == old(ram).ref_of(p));
                        assert(r1.is_allocated(p) == old(ram).is_allocated(p));
                    }
                    assert(ram.ref_of(pa.0) == old(ram).ref_of(pa.0) - 1);
                    assert(ram.is_allocated(pa.0) == (old(ram).is_allocated(pa.0) && old(ram).ref_of(pa.0) != 1));
                    assert(user_frame_at(old(ram).table_words(), root, vaddr) == Some(pa.0));
                    let fr = *ram;
                    assert(forall|p: usize|
                        #![trigger fr.ref_of(p)]
                        is_frame(p) && p != pa.0 ==> fr.ref_of(p) == old(ram).ref_of(p)
                            && fr.is_allocated(p) == old(ram).is_allocated(p));
                }
            } else {
                assert(user_frame_at(w0, root, vaddr) is None);
            }
        },
        None => {
            assert(user_frame_at(w0, root, vaddr) is None);
        },
    }
}

/// Clears the user pages in `[start, end)`: each valid user entry there is
/// emptied and the frame it mapped loses one reference (and is freed when
/// that was the last one). A page that `end` falls inside is cleared too.
/// The range lies inside the user half: above `USER_SPACE_TOP` the root
/// entries are the kernel's, shared by every process.
pub fn unmap_user_pages(ram: &mut Ram, pt: &PageTable, start: usize, end: usize)
    requires
        old(ram).wf(),
        tree_shaped(old(ram).table_words(), pt.root.0),
        start % 4096 == 0,
        start <= end <= USER_SPACE_TOP,
        frames_counted(*old(ram), pt.root.0, start as int, end as int),
    ensures
        unmap_progress(*old(ram), *final(ram), pt.root.0, start as int, spec_align_up(end as int)),
{
    let ghost o = *ram;
    let ghost root = pt.root.0;
    let ghost aend: usize = spec_align_up(end as int) as usize;
    proof {
        crate::syscall::errno::lemma_align_up_mono(end as int, end as int);
        crate::syscall::errno::lemma_align_up_mono(end as int, USER_SPACE_TOP as int);
    }
    let mut vaddr = start;
    while vaddr < end
        invariant
            root == pt.root.0,
            o.wf(),
            start <= vaddr,
            vaddr % 4096 == 0,
            start % 4096 == 0,
            vaddr <= aend,
            aend % 4096 == 0,
            aend == spec_align_up(end as int),
            end <= aend < end + 4096,
            aend <= USER_SPACE_TOP,
            end <= USER_SPACE_TOP,
            frames_counted(o, root, start as int, end as int),
            unmap_progress(o, *ram, root, start as int, vaddr as int),
        decreases aend - vaddr,
    {
        let ghost before = *ram;
        proof {
            lemma_unmap_pre(o, before, root, start as int, end as int, vaddr);
        }
        unmap_user_page(ram, pt, vaddr);
        proof {
            lemma_unmap_step(o, before, *ram, root, start as int, end as int, vaddr);
        }
        vaddr = vaddr + 4096;
    }
    proof {
        assert(vaddr == aend) by (nonlinear_arith)
            requires
                vaddr % 4096 == 0,
                aend % 4096 == 0,
                end <= vaddr <= aend,
                aend < end + 4096,
        ;
    }
}

/// Before clearing the page at `vaddr`, its frame (if any) is as counted
/// at the start.
proof fn lemma_unmap_pre(o: Ram, cur: Ram, root: usize, start: int, end: int, vaddr: usize)
    requires
        frames_counted(o, root, start, end),
        unmap_progress(o, cur, root, start, vaddr as int),
        start <= vaddr < end,
        vaddr % 4096 == 0,
        vaddr < USER_SPACE_TOP,
    ensures
        user_frame_at(cur.table_words(), root, vaddr) == user_frame_at(o.table_words(), root, vaddr),
        user_frame_at(cur.table_words(), root, vaddr) matches Some(pa) ==> {
            &&& is_frame(pa)
            &&& cur.ref_of(pa) >= 1
            &&& (cur.ref_of(pa) == 1 ==> cur.is_allocated(pa))
            &&& outside_tree(cur.table_words(), root, pa)
            &&& not_mapped_in(o.table_words(), root, start, vaddr as int, pa)
        },
{
    reveal(not_mapped_in);
    let ow = o.table_words();
    lemma_page_num(vaddr, vaddr);
    assert(!page_in(vaddr, start, vaddr as int));
    assert(page_in(vaddr, start, end));
    if let Some(pa) = user_frame_at(ow, root, vaddr) {
        assert forall|va: usize| page_in(va, start, vaddr as int) implies #[trigger] user_frame_at(
            ow,
            root,
            va,
        ) != Some(pa) by {
            lemma_page_num(va, vaddr);
            assert(page_in(va, start, end));
        }
    }
}

/// Clearing the page at `vaddr` extends the walked range by one page.
#[verifier::spinoff_prover]
#[verifier::rlimit(30)]
proof fn lemma_unmap_step(
    o: Ram,
    before: Ram,
    after: Ram,
    root: usize,
    start: int,
    end: int,
    vaddr: usize,
)
    requires
        o.wf(),
        frames_counted(o, root, start, end),
        unmap_progress(o, before, root, start, vaddr as int),
        start <= vaddr < end,
        vaddr % 4096 == 0,
        vaddr < USER_SPACE_TOP,
        user_frame_at(before.table_words(), root, vaddr) == user_frame_at(o.table_words(), root, vaddr),
        user_frame_at(before.table_words(), root, vaddr) matches Some(pa) ==> not_mapped_in(
            o.table_words(),
            root,
            start,
            vaddr as int,
            pa,
        ),
        after.wf(),
        tree_shaped(after.table_words(), root),
        after.next_frame == before.next_frame,
        forall|va: usize|
            #[trigger] leaf_slot(after.table_words(), root, va) == leaf_slot(
                before.table_words(),
                root,
                va,
            ),
        forall|va: usize|
            #[trigger] lookup_entry(after.table_words(), root, va) == if page_num(va) == page_num(vaddr)
                && user_frame_at(before.table_words(), root, vaddr) is Some {
                Some(0u64)
            } else {
                lookup_entry(before.table_words(), root, va)
            },
        forall|pa: usize|
            #[trigger] outside_tree(after.table_words(), root, pa) == outside_tree(
                before.table_words(),
                root,
                pa,
            ),
        match user_frame_at(before.table_words(), root, vaddr) {
            Some(pa) => {
                &&& after.ref_of(pa) == before.ref_of(pa) - 1
                &&& after.is_allocated(pa) == (before.is_allocated(pa) && before.ref_of(pa) != 1)
                &&& forall|p: usize|
                    #![trigger after.ref_of(p)]
                    is_frame(p) && p != pa ==> after.ref_of(p) == before.ref_of(p)
                        && after.is_allocated(p) == before.is_allocated(p)
            },
            None => after == before,
        },
    ensures
        unmap_progress(o, after, root, start, vaddr + 4096),
{
    reveal(not_mapped_in);
    let ow = o.table_words();
    let next = vaddr + 4096;
    lemma_page_num(vaddr, vaddr);
    assert forall|va: usize|
        #[trigger] lookup_entry(after.table_words(), root, va) == if page_in(va, start, next)
            && user_frame_at(ow, root, va) is Some {
            Some(0u64)
        } else {
            lookup_entry(ow, root, va)
        } by {
        lemma_page_num(va, vaddr);
        if page_num(va) == page_num(vaddr) {
            assert(leaf_slot(ow, root, va) == leaf_slot(ow, root, vaddr));
        }
    }
    assert forall|va: usize|
        page_in(va, start, next) && user_frame_at(ow, root, va) is Some implies {
        let pa = #[trigger] user_frame_at(ow, root, va)->Some_0;
        &&& after.ref_of(pa) == o.ref_of(pa) - 1
        &&& after.is_allocated(pa) == (o.is_allocated(pa) && o.ref_of(pa) != 1)
    } by {
        lemma_page_num(va, vaddr);
        let pa = user_frame_at(ow, root, va)->Some_0;
        if page_num(va) == page_num(vaddr) {
            assert(leaf_slot(ow, root, va) == leaf_slot(ow, root, vaddr));
            assert(user_frame_at(ow, root, vaddr) == Some(pa));
            assert(is_frame(pa)) by {
                assert(page_in(vaddr, start, end));
            }
            assert(before.ref_of(pa) == o.ref_of(pa));
            assert(before.is_allocated(pa) == o.is_allocated(pa));
        } else {
            assert(page_in(va, start, end));
            assert(page_in(vaddr, start, end));
            assert(page_in(va, start, vaddr as int));
            assert(is_frame(pa));
            match user_frame_at(before.table_words(), root, vaddr) {
                Some(qa) => {
                    assert(pa != qa);
                    assert(after.ref_of(pa) == before.ref_of(pa));
                },
                None => {},
            }
        }
    }
    assert forall|pa: usize|
        is_frame(pa) && not_mapped_in(ow, root, start, next, pa) implies {
        &&& #[trigger] after.ref_of(pa) == o.ref_of(pa)
        &&& after.is_allocated(pa) == o.is_allocated(pa)
    } by {
        assert(user_frame_at(ow, root, vaddr) != Some(pa)) by {
            assert(page_in(vaddr, start, next));
        }
        assert forall|va: usize| page_in(va, start, vaddr as int) implies #[trigger] user_frame_at(
            ow,
            root,
            va,
        ) != Some(pa) by {
            lemma_page_num(va, vaddr);
            assert(page_in(va, start, next));
        }
        assert(not_mapped_in(ow, root, start, vaddr as int, pa));
        match user_frame_at(before.table_words(), root, vaddr) {
            Some(qa) => {
                assert(qa != pa);
                assert(after.ref_of(pa) == before.ref_of(pa));
            },
            None => {},
        }
    }
}

/// Two states of RAM with the same counts, free list and bump pointer agree
/// on every frame's count and allocation.
pub proof fn lemma_same_counts(a: Ram, b: Ram)
    requires
        a.refs@ == b.refs@,
        a.free_list@ == b.free_list@,
        a.next_frame == b.next_frame,
    ensures
        forall|p: usize| #[trigger] a.ref_of(p) == b.ref_of(p),
        forall|p: usize| #[trigger] a.is_allocated(p) == b.is_allocated(p),
{
}

/// What `map_zeroed_user_pages` has achieved over `[start, vaddr)`: each
/// page there maps a zero-filled frame of its own, handed out for it, with `flags`;
/// those pages had no translation before; every other address translates
/// as before; frames handed out before keep their state.
pub open spec fn mapped_prefix(o: Ram, cur: Ram, root: usize, start: int, vaddr: int, flags: u8) -> bool {
    let ow = o.table_words();
    let w = cur.table_words();
    &&& cur.wf()
    &&& tree_shaped(w, root)
    &&& forall|va: usize|
        #![trigger user_frame_at(w, root, va)]
        page_in(va, start, vaddr) ==> {
            &&& user_frame_at(w, root, va) is Some
            &&& lookup_entry(w, root, va) == Some(
                spec_new_leaf(user_frame_at(w, root, va)->Some_0, flags),
            )
            &&& fresh_user_frame(o, cur, w, root, user_frame_at(w, root, va)->Some_0)
            &&& translate(ow, root, va) is None
        }
    &&& forall|va1: usize, va2: usize|
        #![trigger user_frame_at(w, root, va1), user_frame_at(w, root, va2)]
        page_in(va1, start, vaddr) && page_in(va2, start, vaddr) && page_num(va1) != page_num(va2)
            ==> user_frame_at(w, root, va1) != user_frame_at(w, root, va2)
    &&& forall|va: usize|
        #![trigger translate(w, root, va)]
        !page_in(va, start, vaddr) ==> translate(w, root, va) == translate(ow, root, va)
    &&& keeps_old_frames(o, cur)
}

/// `pa` is a frame handed out since `o`, counted once, outside the tree,
/// and zero-filled.
pub open spec fn fresh_user_frame(o: Ram, cur: Ram, w: Seq<Seq<u64>>, root: usize, pa: usize) -> bool {
    &&& is_frame(pa)
    &&& page_zeroed(w, pa)
    &&& !o.is_allocated(pa)
    &&& cur.is_allocated(pa)
    &&& cur.ref_of(pa) == 1
    &&& outside_tree(w, root, pa)
}

/// Every frame handed out in `o` is still handed out in `cur`, with the same
/// count.
pub open spec fn keeps_old_frames(o: Ram, cur: Ram) -> bool {
    forall|pa: usize|
        #![trigger cur.ref_of(pa)]
        #![trigger cur.is_allocated(pa)]
        o.is_allocated(pa) ==> cur.is_allocated(pa) && cur.ref_of(pa) == o.ref_of(pa)
}

/// Every frame handed out in `o` that was none of the tables of `root` is
/// none of them in `cur` either.
pub open spec fn keeps_outside(o: Ram, cur: Ram, root: usize) -> bool {
    forall|pa: usize|
        o.is_allocated(pa) && outside_tree(o.table_words(), root, pa) ==> #[trigger] outside_tree(
            cur.table_words(),
            root,
            pa,
        )
}

/// Nothing that the page table at `root` translates has changed, frames
/// handed out before keep their state, and every frame handed out since is
/// one of the page table's tables (the frames taken for pages are free
/// again).
pub open spec fn rolled_back(o: Ram, cur: Ram, root: usize) -> bool {
    &&& cur.wf()
    &&& tree_shaped(cur.table_words(), root)
    &&& forall|va: usize|
        #![trigger translate(cur.table_words(), root, va)]
        translate(cur.table_words(), root, va) == translate(o.table_words(), root, va)
    &&& keeps_old_frames(o, cur)
    &&& forall|pa: usize|
        #[trigger] cur.is_allocated(pa) && !o.is_allocated(pa) ==> !outside_tree(
            cur.table_words(),
            root,
            pa,
        )
}

/// Each frame handed out since `o` is one of the tables of `root`, or the
/// frame of a page in `[start, vaddr)`.
pub open spec fn new_frames_placed(o: Ram, cur: Ram, root: usize, start: int, vaddr: int) -> bool {
    let w = cur.table_words();
    forall|pa: usize|
        #[trigger] cur.is_allocated(pa) && !o.is_allocated(pa) ==> !outside_tree(w, root, pa) || exists|
            va: usize,
        | page_in(va, start, vaddr) && #[trigger] user_frame_at(w, root, va) == Some(pa)
}

/// The pages mapped so far are counted as `unmap_user_pages` needs.
proof fn lemma_prefix_counted(o: Ram, cur: Ram, root: usize, start: int, vaddr: int, flags: u8)
    requires
        mapped_prefix(o, cur, root, start, vaddr, flags),
    ensures
        frames_counted(cur, root, start, vaddr),
{
    let w = cur.table_words();
    assert forall|va1: usize, va2: usize|
        page_in(va1, start, vaddr) && page_in(va2, start, vaddr) && page_num(va1) != page_num(va2)
            && user_frame_at(w, root, va1) is Some implies #[trigger] user_frame_at(w, root, va1)
        != #[trigger] user_frame_at(w, root, va2) by {}
}

/// Unmapping the pages mapped so far undoes `map_zeroed_user_pages`.
#[verifier::spinoff_prover]
#[verifier::rlimit(30)]
proof fn lemma_rollback(o: Ram, cur: Ram, after: Ram, root: usize, start: int, vaddr: int, flags: u8)
    requires
        mapped_prefix(o, cur, root, start, vaddr, flags),
        new_frames_placed(o, cur, root, start, vaddr),
        unmap_progress(cur, after, root, start, vaddr),
        flags & 1u8 != 0,
        flags & 16u8 != 0,
        range_unmapped(o.table_words(), root, start, vaddr),
        forall|va: usize|
            !page_in(va, start, vaddr) ==> #[trigger] valid_entry(cur.table_words(), root, va)
                == valid_entry(o.table_words(), root, va),
        keeps_outside(o, cur, root),
    ensures
        rolled_back(o, after, root),
        forall|va: usize| #[trigger] valid_entry(after.table_words(), root, va) == valid_entry(
            o.table_words(),
            root,
            va,
        ),
        keeps_outside(o, after, root),
{
    assert forall|va: usize| #[trigger] valid_entry(after.table_words(), root, va) == valid_entry(
        o.table_words(),
        root,
        va,
    ) by {
        lemma_zero_entry();
        if page_in(va, start, vaddr) {
            assert(user_frame_at(cur.table_words(), root, va) is Some);
            assert(lookup_entry(after.table_words(), root, va) == Some(0u64));
            assert(valid_entry(after.table_words(), root, va) is None);
            assert(valid_entry(o.table_words(), root, va) is None);
        } else {
            assert(lookup_entry(after.table_words(), root, va) == lookup_entry(cur.table_words(), root, va));
            assert(valid_entry(after.table_words(), root, va) == valid_entry(cur.table_words(), root, va));
            assert(valid_entry(cur.table_words(), root, va) == valid_entry(o.table_words(), root, va));
        }
    }
    assert forall|pa: usize| o.is_allocated(pa) && outside_tree(o.table_words(), root, pa) implies #[trigger] outside_tree(
        after.table_words(),
        root,
        pa,
    ) by {
        assert(outside_tree(cur.table_words(), root, pa));
    }
    let ow = o.table_words();
    let w = cur.table_words();
    let aw = after.table_words();
    lemma_zero_entry();
    assert forall|va: usize| #[trigger] translate(aw, root, va) == translate(ow, root, va) by {
        if page_in(va, start, vaddr) {
            assert(user_frame_at(w, root, va) is Some);
        } else {
            assert(translate(w, root, va) == translate(ow, root, va));
        }
    }
    assert forall|pa: usize| o.is_allocated(pa) implies #[trigger] after.is_allocated(pa)
        && after.ref_of(pa) == o.ref_of(pa) by {
        assert(cur.is_allocated(pa) && cur.ref_of(pa) == o.ref_of(pa));
        assert forall|va: usize| page_in(va, start, vaddr) implies #[trigger] user_frame_at(w, root, va)
            != Some(pa) by {}
        lemma_not_mapped_intro(w, root, start, vaddr, pa);
        assert(is_frame(pa));
        assert(is_frame(pa) && not_mapped_in(cur.table_words(), root, start, vaddr, pa));
        assert(after.ref_of(pa) == cur.ref_of(pa));
        assert(after.is_allocated(pa) == cur.is_allocated(pa));
    }
    assert(keeps_old_frames(o, after));
    lemma_rollback_frames(o, cur, after, root, start, vaddr, flags);
}

/// After the rollback, every frame handed out since `o` is a table.
#[verifier::spinoff_prover]
proof fn lemma_rollback_frames(o: Ram, cur: Ram, after: Ram, root: usize, start: int, vaddr: int, flags: u8)
    requires
        mapped_prefix(o, cur, root, start, vaddr, flags),
        new_frames_placed(o, cur, root, start, vaddr),
        unmap_progress(cur, after, root, start, vaddr),
    ensures
        forall|pa: usize|
            #[trigger] after.is_allocated(pa) && !o.is_allocated(pa) ==> !outside_tree(
                after.table_words(),
                root,
                pa,
            ),
{
    let w = cur.table_words();
    let aw = after.table_words();
    assert forall|pa: usize| #[trigger] after.is_allocated(pa) && !o.is_allocated(pa) implies !outside_tree(
        aw,
        root,
        pa,
    ) by {
        if exists|va: usize| page_in(va, start, vaddr) && #[trigger] user_frame_at(w, root, va) == Some(pa) {
            let va = choose|va: usize| page_in(va, start, vaddr) && #[trigger] user_frame_at(w, root, va) == Some(pa);
            assert(fresh_user_frame(o, cur, w, root, pa));
            assert(after.is_allocated(pa) == (cur.is_allocated(pa) && cur.ref_of(pa) != 1));
        } else {
            assert forall|v: usize| page_in(v, start, vaddr) implies #[trigger] user_frame_at(w, root, v)
                != Some(pa) by {}
            lemma_not_mapped_intro(w, root, start, vaddr, pa);
            assert(is_frame(pa));
            assert(after.ref_of(pa) == cur.ref_of(pa));
            assert(after.is_allocated(pa) == cur.is_allocated(pa));
            assert(!outside_tree(w, root, pa));
        }
    }
}

/// Replacing the words of another frame keeps a zero-filled frame so.
proof fn lemma_zeroed_other(w: Seq<Seq<u64>>, w2: Seq<Seq<u64>>, pa: usize, f: usize, v: Seq<u64>)
    requires
        page_zeroed(w, pa),
        is_frame(f),
        pa != f,
        w.len() == NUM_FRAMES,
        w2 == w.update(spec_frame_index(f), v),
    ensures
        page_zeroed(w2, pa),
{
    lemma_frame_index_injective(pa, f);
    assert(0 <= spec_frame_index(pa) < NUM_FRAMES);
    assert(w2[spec_frame_index(pa)] == w[spec_frame_index(pa)]);
    assert forall|k: int| 0 <= k < 512 implies #[trigger] pte_word(w2, pa, k) == 0 by {
        assert(pte_word(w, pa, k) == 0);
    }
}

/// A frame outside the tree keeps its words through a write on the path of
/// one address.
proof fn lemma_outside_words_kept(w2: Seq<Seq<u64>>, w3: Seq<Seq<u64>>, root: usize, va: usize, pa: usize)
    requires
        writes_on_path(w2, w3, root, va),
        tree_shaped(w3, root),
        outside_tree(w3, root, pa),
        page_zeroed(w2, pa),
    ensures
        page_zeroed(w3, pa),
{
    reveal(outside_tree);
    crate::mm::page_table::lemma_vpn_bounds(va);
    let v2 = crate::mm::page_table::spec_vpn2(va) as int;
    let v1 = crate::mm::page_table::spec_vpn1(va) as int;
    assert forall|k: int| 0 <= k < 512 implies #[trigger] pte_word(w3, pa, k) == 0 by {
        if let Some((t, j)) = leaf_slot(w3, root, va) {
            assert(pte_valid(pte_word(w3, root, v2)));
            assert(pte_valid(pte_word(w3, l1_of(w3, root, v2), v1)));
            assert(t == l0_of(w3, root, v2, v1));
        }
        assert(pte_word(w3, pa, k) == pte_word(w2, pa, k));
    }
}

/// One more page mapped: the facts of `mapped_prefix` extend over it.
#[verifier::spinoff_prover]
#[verifier::rlimit(80)]
proof fn lemma_map_step(
    o: Ram,
    cur: Ram,
    r2: Ram,
    r3: Ram,
    root: usize,
    start: int,
    vaddr: usize,
    frame: usize,
    flags: u8,
)
    requires
        mapped_prefix(o, cur, root, start, vaddr as int, flags),
        start <= vaddr,
        vaddr % 4096 == 0,
        vaddr < USER_SPACE_TOP,
        flags & 1u8 != 0,
        flags & 16u8 != 0,
        flags & 14u8 != 0,
        translate(cur.table_words(), root, vaddr) is None,
        is_frame(frame),
        !cur.is_allocated(frame),
        !holds_table(cur.table_words(), frame),
        r2.wf(),
        r2.is_allocated(frame),
        r2.ref_of(frame) == 1,
        forall|p: usize|
            #![trigger r2.ref_of(p)]
            #![trigger r2.is_allocated(p)]
            is_frame(p) && p != frame ==> r2.ref_of(p) == cur.ref_of(p) && r2.is_allocated(p)
                == cur.is_allocated(p),
        r2.table_words() == cur.table_words().update(
            spec_frame_index(frame),
            crate::mm::frame::zero_table(),
        ),
        only_allocates(r2, r3),
        r3.wf(),
        tree_shaped(r3.table_words(), root),
        set_leaf_post(
            r2.table_words(),
            r3.table_words(),
            root,
            vaddr,
            spec_new_leaf(frame, flags),
        ),
        writes_on_path(r2.table_words(), r3.table_words(), root, vaddr),
        forall|pa: usize|
            #![trigger outside_tree(r3.table_words(), root, pa)]
            r2.is_allocated(pa) && outside_tree(r2.table_words(), root, pa) ==> outside_tree(
                r3.table_words(),
                root,
                pa,
            ),
        new_frames_placed(o, cur, root, start, vaddr as int),
        forall|pa: usize|
            #[trigger] r3.is_allocated(pa) && !r2.is_allocated(pa) ==> !outside_tree(r3.table_words(), root, pa),
        forall|pa: usize|
            !outside_tree(r2.table_words(), root, pa) ==> !#[trigger] outside_tree(r3.table_words(), root, pa),
    ensures
        mapped_prefix(o, r3, root, start, vaddr + 4096, flags),
        new_frames_placed(o, r3, root, start, vaddr + 4096),
{
    let ow = o.table_words();
    let w = cur.table_words();
    let w2 = r2.table_words();
    let w3 = r3.table_words();
    let next = vaddr + 4096;
    let e = spec_new_leaf(frame, flags);
    lemma_user_leaf_bits(frame, flags);
    lemma_leaf_entry(frame, flags);
    lemma_page_num(vaddr, vaddr);
    lemma_zero_fresh(cur, r2, root, frame);
    assert(outside_tree(w3, root, frame));
    assert(lookup_entry(w3, root, vaddr) == Some(e));
    assert(user_frame_at(w3, root, vaddr) == Some(frame));
    assert forall|va: usize| page_in(va, start, next) implies {
        &&& #[trigger] user_frame_at(w3, root, va) is Some
        &&& lookup_entry(w3, root, va) == Some(spec_new_leaf(user_frame_at(w3, root, va)->Some_0, flags))
        &&& fresh_user_frame(o, r3, w3, root, user_frame_at(w3, root, va)->Some_0)
        &&& translate(ow, root, va) is None
    } by {
        lemma_page_num(va, vaddr);
        if page_num(va) == page_num(vaddr) {
            assert(same_page(va, vaddr));
            assert(lookup_entry(w3, root, va) == Some(e));
            assert(translate(w, root, va) == translate(w, root, vaddr)) by {
                assert(leaf_slot(w, root, va) == leaf_slot(w, root, vaddr));
            }
            assert(!page_in(vaddr, start, vaddr as int));
            assert(translate(w, root, vaddr) == translate(ow, root, vaddr));
            assert(!o.is_allocated(frame));
            assert(r3.is_allocated(frame) && r3.ref_of(frame) == 1);
            assert(translate(ow, root, va) is None);
            assert(user_frame_at(w3, root, va) == Some(frame));
            lemma_outside_words_kept(w2, w3, root, vaddr, frame);
            assert(fresh_user_frame(o, r3, w3, root, frame));
        } else {
            assert(page_in(va, start, vaddr as int));
            let pa = user_frame_at(w, root, va)->Some_0;
            assert(fresh_user_frame(o, cur, w, root, pa));
            assert(translate(w, root, va) == Some(spec_new_leaf(pa, flags))) by {
                lemma_user_leaf_bits(pa, flags);
            }
            assert(!same_page(va, vaddr));
            assert(translate(w3, root, va) == translate(w2, root, va));
            assert(lookup_entry(w3, root, va) == Some(spec_new_leaf(pa, flags)));
            lemma_leaf_entry(pa, flags);
            lemma_user_leaf_bits(pa, flags);
            assert(user_frame_at(w3, root, va) == Some(pa));
            assert(pa != frame);
            assert(r2.is_allocated(pa) && r2.ref_of(pa) == 1);
            assert(outside_tree(w2, root, pa));
            assert(r3.is_allocated(pa));
            assert(r3.ref_of(pa) == 1);
            assert(outside_tree(w3, root, pa));
            lemma_zeroed_other(w, w2, pa, frame, crate::mm::frame::zero_table());
            lemma_outside_words_kept(w2, w3, root, vaddr, pa);
            assert(fresh_user_frame(o, r3, w3, root, pa));
            assert(translate(ow, root, va) is None);
        }
    }
    assert forall|va1: usize, va2: usize|
        page_in(va1, start, next) && page_in(va2, start, next) && page_num(va1) != page_num(va2) implies #[trigger] user_frame_at(
        w3,
        root,
        va1,
    ) != #[trigger] user_frame_at(w3, root, va2) by {
        lemma_page_num(va1, vaddr);
        lemma_page_num(va2, vaddr);
        lemma_page_num(va1, va2);
        if page_num(va1) != page_num(vaddr) && page_num(va2) != page_num(vaddr) {
            assert(page_in(va1, start, vaddr as int) && page_in(va2, start, vaddr as int));
            lemma_user_leaf_bits(user_frame_at(w, root, va1)->Some_0, flags);
            lemma_user_leaf_bits(user_frame_at(w, root, va2)->Some_0, flags);
            lemma_leaf_entry(user_frame_at(w, root, va1)->Some_0, flags);
            lemma_leaf_entry(user_frame_at(w, root, va2)->Some_0, flags);
            assert(translate(w3, root, va1) == translate(w, root, va1));
            assert(translate(w3, root, va2) == translate(w, root, va2));
        } else if page_num(va1) == page_num(vaddr) {
            assert(page_in(va2, start, vaddr as int));
            let pb = user_frame_at(w, root, va2)->Some_0;
            lemma_user_leaf_bits(pb, flags);
            lemma_leaf_entry(pb, flags);
            assert(translate(w3, root, va2) == translate(w, root, va2));
            assert(pb != frame);
        } else {
            assert(page_in(va1, start, vaddr as int));
            let pb = user_frame_at(w, root, va1)->Some_0;
            lemma_user_leaf_bits(pb, flags);
            lemma_leaf_entry(pb, flags);
            assert(translate(w3, root, va1) == translate(w, root, va1));
            assert(pb != frame);
        }
    }
    assert forall|va: usize| !page_in(va, start, next) implies #[trigger] translate(w3, root, va)
        == translate(ow, root, va) by {
        lemma_page_num(va, vaddr);
        assert(!same_page(va, vaddr));
    }
    assert forall|pa: usize| o.is_allocated(pa) implies #[trigger] r3.is_allocated(pa) && r3.ref_of(pa)
        == o.ref_of(pa) by {
        assert(cur.is_allocated(pa));
        assert(pa != frame);
    }
    assert(keeps_old_frames(o, r3));
    assert forall|pa: usize| #[trigger] r3.is_allocated(pa) && !o.is_allocated(pa) implies !outside_tree(
        w3,
        root,
        pa,
    ) || exists|va: usize| page_in(va, start, next) && #[trigger] user_frame_at(w3, root, va) == Some(pa) by {
        if pa == frame {
            assert(page_in(vaddr, start, next));
            assert(user_frame_at(w3, root, vaddr) == Some(frame));
        } else if r2.is_allocated(pa) {
            assert(cur.is_allocated(pa));
            if !outside_tree(w, root, pa) {
                assert(!outside_tree(w2, root, pa));
            } else {
                let va = choose|va: usize| page_in(va, start, vaddr as int) && #[trigger] user_frame_at(w, root, va) == Some(pa);
                lemma_page_num(va, vaddr);
                assert(fresh_user_frame(o, cur, w, root, pa));
                assert(translate(w, root, va) == Some(spec_new_leaf(pa, flags))) by {
                    lemma_user_leaf_bits(pa, flags);
                }
                assert(!same_page(va, vaddr));
                assert(translate(w3, root, va) == translate(w2, root, va));
                lemma_leaf_entry(pa, flags);
                lemma_user_leaf_bits(pa, flags);
                assert(user_frame_at(w3, root, va) == Some(pa));
                assert(page_in(va, start, next));
            }
        }
    }
}

/// No page in `[start, end)` has a valid last-level entry.
pub open spec fn range_unmapped(w: Seq<Seq<u64>>, root: usize, start: int, end: int) -> bool {
    forall|va: usize|
        #![trigger valid_entry(w, root, va)]
        page_in(va, start, end) ==> valid_entry(w, root, va) is None
}

/// The page before `va` lies in the range from `start` and shares the
/// second-level table with `va`.
pub open spec fn prev_same_l1(start: int, va: usize) -> bool {
    va - 4096 >= start && spec_vpn2((va - 4096) as usize) == spec_vpn2(va)
}

/// The page before `va` lies in the range from `start` and shares the
/// last-level table with `va`.
pub open spec fn prev_same_l0(start: int, va: usize) -> bool {
    prev_same_l1(start, va) && spec_vpn1((va - 4096) as usize) == spec_vpn1(va)
}

/// Frames that mapping the page at `va` takes, once the pages from `start`
/// up to `va` are mapped: its own frame, and each table on its walk that
/// neither `w` nor the page before provides.
pub open spec fn page_need(w: Seq<Seq<u64>>, root: usize, start: int, va: usize) -> int {
    1 + if leaf_slot(w, root, va) is Some || prev_same_l0(start, va) {
        0int
    } else if next_table(w, root, spec_vpn2(va) as int) is Some || prev_same_l1(start, va) {
        1int
    } else {
        2int
    }
}

/// Frames that mapping the `n` pages from `start` takes.
pub open spec fn range_need(w: Seq<Seq<u64>>, root: usize, start: int, n: nat) -> int
    decreases n,
{
    if n == 0 {
        0
    } else {
        range_need(w, root, start, (n - 1) as nat) + page_need(w, root, start, (start + (n - 1) * 4096) as usize)
    }
}

proof fn lemma_range_need_mono(w: Seq<Seq<u64>>, root: usize, start: int, i: nat, n: nat)
    requires
        i <= n,
    ensures
        range_need(w, root, start, i) <= range_need(w, root, start, n),
    decreases n,
{
    if i < n {
        lemma_range_need_mono(w, root, start, i, (n - 1) as nat);
    }
}

/// What mapping the page at `va` takes from the allocator now is at most
/// what [`page_need`] counts over the memory the mapping started from.
pub proof fn lemma_page_need(ow: Seq<Seq<u64>>, w: Seq<Seq<u64>>, root: usize, start: int, va: usize)
    requires
        forall|i: int|
            0 <= i < 512 && next_table(ow, root, i) is Some ==> #[trigger] next_table(w, root, i)
                == next_table(ow, root, i),
        forall|v: usize|
            leaf_slot(ow, root, v) is Some ==> #[trigger] leaf_slot(w, root, v) == leaf_slot(ow, root, v),
        va - 4096 >= start ==> leaf_slot(w, root, (va - 4096) as usize) is Some,
    ensures
        1 + tables_needed(w, root, va) <= page_need(ow, root, start, va),
{
    lemma_vpn_bounds(va);
    if va - 4096 >= start {
        lemma_vpn_bounds((va - 4096) as usize);
    }
}

/// Mapping `[start, end)` succeeds exactly as far as the allocator goes: no
/// page there has a valid entry, and the free frames cover each page's own
/// frame and the tables still missing on the way ([`range_need`]).
pub open spec fn map_affordable(ram: Ram, root: usize, start: int, end: int) -> bool {
    &&& range_unmapped(ram.table_words(), root, start, end)
    &&& frames_available(ram) >= range_need(ram.table_words(), root, start, ((end - start) / 4096) as nat)
}

/// Mapping `[start, end)` is bound to succeed: no page there has a valid
/// entry, and the allocator has three frames for each page (the page's own
/// and two tables at most).
pub open spec fn map_room(ram: Ram, root: usize, start: int, end: int) -> bool {
    &&& range_unmapped(ram.table_words(), root, start, end)
    &&& frames_available(ram) >= 3 * ((end - start) / 4096)
}

/// The count of [`range_need`] at the page `vaddr` of a mapping in
/// progress bounds what mapping that page takes now.
#[verifier::spinoff_prover]
proof fn lemma_need_here(o: Ram, cur: Ram, root: usize, start: usize, end: usize, vaddr: usize, flags: u8)
    requires
        mapped_prefix(o, cur, root, start as int, vaddr as int, flags),
        forall|i: int|
            0 <= i < 512 && next_table(o.table_words(), root, i) is Some ==> #[trigger] next_table(
                cur.table_words(),
                root,
                i,
            ) == next_table(o.table_words(), root, i),
        forall|v: usize|
            leaf_slot(o.table_words(), root, v) is Some ==> #[trigger] leaf_slot(cur.table_words(), root, v)
                == leaf_slot(o.table_words(), root, v),
        start <= vaddr < end,
        vaddr % 4096 == 0,
        start % 4096 == 0,
        end % 4096 == 0,
        end <= USER_SPACE_TOP,
    ensures
        ((vaddr + 4096 - start) / 4096) as nat == ((vaddr - start) / 4096) as nat + 1,
        range_need(o.table_words(), root, start as int, ((vaddr + 4096 - start) / 4096) as nat) == range_need(
            o.table_words(),
            root,
            start as int,
            ((vaddr - start) / 4096) as nat,
        ) + page_need(o.table_words(), root, start as int, vaddr),
        range_need(o.table_words(), root, start as int, ((vaddr + 4096 - start) / 4096) as nat)
            <= range_need(o.table_words(), root, start as int, ((end - start) / 4096) as nat),
        1 + tables_needed(cur.table_words(), root, vaddr) <= page_need(o.table_words(), root, start as int, vaddr),
{
    let k: nat = ((vaddr - start) / 4096) as nat;
    let total: nat = ((end - start) / 4096) as nat;
    assert(start + k * 4096 == vaddr && k < total && ((vaddr + 4096 - start) / 4096) as nat == k + 1) by (nonlinear_arith)
        requires
            k == (vaddr - start) / 4096,
            total == (end - start) / 4096,
            start <= vaddr < end,
            (vaddr - start) % 4096 == 0,
            (end - start) % 4096 == 0,
    ;
    assert(range_need(o.table_words(), root, start as int, k + 1) == range_need(
        o.table_words(),
        root,
        start as int,
        k,
    ) + page_need(o.table_words(), root, start as int, vaddr));
    lemma_range_need_mono(o.table_words(), root, start as int, k + 1, total);
    if vaddr - 4096 >= start {
        lemma_page_num((vaddr - 4096) as usize, (vaddr - 4096) as usize);
        assert(page_in((vaddr - 4096) as usize, start as int, vaddr as int));
        assert(user_frame_at(cur.table_words(), root, (vaddr - 4096) as usize) is Some);
    }
    lemma_page_need(o.table_words(), cur.table_words(), root, start as int, vaddr);
}

/// Zero-filling a frame that holds no table keeps every table of `root`
/// reached.
proof fn lemma_zero_slots(cur: Ram, r2: Ram, root: usize, frame: usize, vaddr: usize)
    requires
        cur.wf(),
        tree_shaped(cur.table_words(), root),
        is_frame(frame),
        !holds_table(cur.table_words(), frame),
        r2.table_words() == cur.table_words().update(
            spec_frame_index(frame),
            crate::mm::frame::zero_table(),
        ),
    ensures
        forall|i: int|
            0 <= i < 512 && next_table(cur.table_words(), root, i) is Some ==> #[trigger] next_table(
                r2.table_words(),
                root,
                i,
            ) == next_table(cur.table_words(), root, i),
        forall|v: usize|
            leaf_slot(cur.table_words(), root, v) is Some ==> #[trigger] leaf_slot(r2.table_words(), root, v)
                == leaf_slot(cur.table_words(), root, v),
        tables_needed(r2.table_words(), root, vaddr) <= tables_needed(cur.table_words(), root, vaddr),
{
    let w = cur.table_words();
    let w2 = r2.table_words();
    assert(0 <= spec_frame_index(frame) < NUM_FRAMES);
    assert forall|t: usize, j: int| holds_table(w, t) && 0 <= j < 512 implies #[trigger] pte_word(w2, t, j)
        == pte_word(w, t, j) by {
        lemma_frame_index_injective(t, frame);
    }
    assert forall|t: usize| holds_table(w, t) implies #[trigger] holds_table(w2, t) by {
        lemma_frame_index_injective(t, frame);
    }
    assert forall|i: int, j: int|
        0 <= i < 512 && 0 <= j < 512 && pte_valid(pte_word(w, root, i)) && pte_valid(
            #[trigger] pte_word(w, l1_of(w, root, i), j),
        ) implies pte_word(w2, l1_of(w, root, i), j) == pte_word(w, l1_of(w, root, i), j) by {
        assert(holds_table(w, l1_of(w, root, i)));
    }
    lemma_slots_kept(w, w2, root);
    lemma_vpn_bounds(vaddr);
}

/// The frame count at one page of a mapping in progress: when the free
/// frames covered the whole range, they cover this page and its tables.
proof fn lemma_need_frames(fo: int, fc: int, nk: int, nk1: int, ntot: int, need: int, tn: int)
    requires
        fc + nk >= fo,
        nk1 == nk + need,
        nk1 <= ntot,
        1 + tn <= need,
        tn >= 0,
    ensures
        fo >= ntot ==> fc >= 1 && fc - 1 >= tn,
{
}

/// After one more page is mapped, the tables reached from `root` in `o`
/// are still reached and the frame count keeps up with [`range_need`].
#[verifier::spinoff_prover]
proof fn lemma_need_after(o: Ram, cur: Ram, r2: Ram, r3: Ram, root: usize, start: int, vaddr: usize, k: nat, need: int)
    requires
        forall|i: int|
            0 <= i < 512 && next_table(o.table_words(), root, i) is Some ==> #[trigger] next_table(
                cur.table_words(),
                root,
                i,
            ) == next_table(o.table_words(), root, i),
        forall|v: usize|
            leaf_slot(o.table_words(), root, v) is Some ==> #[trigger] leaf_slot(cur.table_words(), root, v)
                == leaf_slot(o.table_words(), root, v),
        forall|i: int|
            0 <= i < 512 && next_table(cur.table_words(), root, i) is Some ==> #[trigger] next_table(
                r2.table_words(),
                root,
                i,
            ) == next_table(cur.table_words(), root, i),
        forall|v: usize|
            leaf_slot(cur.table_words(), root, v) is Some ==> #[trigger] leaf_slot(r2.table_words(), root, v)
                == leaf_slot(cur.table_words(), root, v),
        forall|i: int|
            0 <= i < 512 && next_table(r2.table_words(), root, i) is Some ==> #[trigger] next_table(
                r3.table_words(),
                root,
                i,
            ) == next_table(r2.table_words(), root, i),
        forall|v: usize|
            leaf_slot(r2.table_words(), root, v) is Some ==> #[trigger] leaf_slot(r3.table_words(), root, v)
                == leaf_slot(r2.table_words(), root, v),
        frames_available(r3) == frames_available(r2) - tables_needed(r2.table_words(), root, vaddr),
        frames_available(r2) == frames_available(cur) - 1,
        tables_needed(r2.table_words(), root, vaddr) <= tables_needed(cur.table_words(), root, vaddr),
        1 + tables_needed(cur.table_words(), root, vaddr) <= need,
        frames_available(cur) + range_need(o.table_words(), root, start, k) >= frames_available(o),
        range_need(o.table_words(), root, start, k + 1) == range_need(o.table_words(), root, start, k) + need,
    ensures
        forall|i: int|
            0 <= i < 512 && next_table(o.table_words(), root, i) is Some ==> #[trigger] next_table(
                r3.table_words(),
                root,
                i,
            ) == next_table(o.table_words(), root, i),
        forall|v: usize|
            leaf_slot(o.table_words(), root, v) is Some ==> #[trigger] leaf_slot(r3.table_words(), root, v)
                == leaf_slot(o.table_words(), root, v),
        frames_available(r3) + range_need(o.table_words(), root, start, k + 1) >= frames_available(o),
{
    assert forall|i: int|
        0 <= i < 512 && next_table(o.table_words(), root, i) is Some implies #[trigger] next_table(
        r3.table_words(),
        root,
        i,
    ) == next_table(o.table_words(), root, i) by {
        assert(next_table(cur.table_words(), root, i) == next_table(o.table_words(), root, i));
        assert(next_table(r2.table_words(), root, i) == next_table(cur.table_words(), root, i));
    }
    assert forall|v: usize|
        leaf_slot(o.table_words(), root, v) is Some implies #[trigger] leaf_slot(r3.table_words(), root, v)
        == leaf_slot(o.table_words(), root, v) by {
        assert(leaf_slot(cur.table_words(), root, v) == leaf_slot(o.table_words(), root, v));
        assert(leaf_slot(r2.table_words(), root, v) == leaf_slot(cur.table_words(), root, v));
    }
}

/// Maps every page of `[start, end)` to a fresh zero-filled frame with
/// `flags`. When a page there already has a valid entry, or RAM runs out,
/// the pages mapped so far are unmapped again, the frames taken for them are
/// free again (tables made on the way stay), and the result is false. A
/// page that `end` falls inside is mapped too. The range lies inside the
/// user half: above `USER_SPACE_TOP` the root entries are the kernel's,
/// shared by every process.
#[verifier::spinoff_prover]
#[verifier::rlimit(100)]
pub fn map_zeroed_user_pages(ram: &mut Ram, pt: &PageTable, start: usize, end: usize, flags: PTEFlags) -> (r: bool)
    requires
        old(ram).wf(),
        tree_shaped(old(ram).table_words(), pt.root.0),
        start % 4096 == 0,
        start <= end <= USER_SPACE_TOP,
        flags.0 & 1u8 != 0,
        flags.0 & 16u8 != 0,
        flags.0 & 14u8 != 0,
    ensures
        r ==> mapped_prefix(*old(ram), *final(ram), pt.root.0, start as int, spec_align_up(end as int), flags.0),
        !r ==> rolled_back(*old(ram), *final(ram), pt.root.0),
        r ==> range_unmapped(old(ram).table_words(), pt.root.0, start as int, spec_align_up(end as int)),
        map_room(*old(ram), pt.root.0, start as int, spec_align_up(end as int)) ==> r,
        map_affordable(*old(ram), pt.root.0, start as int, spec_align_up(end as int)) ==> r,
        forall|va: usize|
            !r || !page_in(va, start as int, spec_align_up(end as int)) ==> #[trigger] valid_entry(
                final(ram).table_words(),
                pt.root.0,
                va,
            ) == valid_entry(old(ram).table_words(), pt.root.0, va),
        keeps_outside(*old(ram), *final(ram), pt.root.0),
{
    let ghost o = *ram;
    let ghost root = pt.root.0;
    let ghost aend: usize = spec_align_up(end as int) as usize;
    proof {
        crate::syscall::errno::lemma_align_up_mono(end as int, end as int);
        crate::syscall::errno::lemma_align_up_mono(end as int, USER_SPACE_TOP as int);
    }
    let ghost total: nat = ((aend - start) / 4096) as nat;
    let ghost enough: bool = range_unmapped(o.table_words(), root, start as int, aend as int) && frames_available(o)
        >= range_need(o.table_words(), root, start as int, total);
    let mut vaddr = start;
    proof {
        assert forall|va: usize| !page_in(va, start as int, start as int) implies #[trigger] translate(
            ram.table_words(),
            root,
            va,
        ) == translate(o.table_words(), root, va) by {}
    }
    while vaddr < end
        invariant
            root == pt.root.0,
            o == *old(ram),
            o.wf(),
            start <= vaddr <= aend,
            vaddr % 4096 == 0,
            start % 4096 == 0,
            aend % 4096 == 0,
            aend == spec_align_up(end as int),
            end <= aend < end + 4096,
            aend <= USER_SPACE_TOP,
            flags.0 & 1u8 != 0,
            flags.0 & 16u8 != 0,
            flags.0 & 14u8 != 0,
            mapped_prefix(o, *ram, root, start as int, vaddr as int, flags.0),
            range_unmapped(o.table_words(), root, start as int, vaddr as int),
            forall|va: usize|
                !page_in(va, start as int, vaddr as int) ==> #[trigger] valid_entry(
                    ram.table_words(),
                    root,
                    va,
                ) == valid_entry(o.table_words(), root, va),
            frames_available(*ram) >= frames_available(o) - 3 * ((vaddr - start) / 4096),
            keeps_outside(o, *ram, root),
            new_frames_placed(o, *ram, root, start as int, vaddr as int),
            total == ((aend - start) / 4096) as nat,
            enough == (range_unmapped(o.table_words(), root, start as int, aend as int) && frames_available(o)
                >= range_need(o.table_words(), root, start as int, total)),
            forall|i: int|
                0 <= i < 512 && next_table(o.table_words(), root, i) is Some ==> #[trigger] next_table(
                    ram.table_words(),
                    root,
                    i,
                ) == next_table(o.table_words(), root, i),
            forall|v: usize|
                leaf_slot(o.table_words(), root, v) is Some ==> #[trigger] leaf_slot(ram.table_words(), root, v)
                    == leaf_slot(o.table_words(), root, v),
            frames_available(*ram) + range_need(o.table_words(), root, start as int, ((vaddr - start) / 4096) as nat)
                >= frames_available(o),
        decreases aend - vaddr,
    {
        let ghost cur = *ram;
        let ghost k: nat = ((vaddr - start) / 4096) as nat;
        let ghost need: int = page_need(o.table_words(), root, start as int, vaddr);
        proof {
            lemma_need_here(o, cur, root, start, aend, vaddr, flags.0);
            lemma_need_frames(
                frames_available(o),
                frames_available(cur),
                range_need(o.table_words(), root, start as int, k),
                range_need(o.table_words(), root, start as int, k + 1),
                range_need(o.table_words(), root, start as int, total),
                need,
                tables_needed(cur.table_words(), root, vaddr),
            );
            lemma_page_num(vaddr, vaddr);
            assert(page_in(vaddr, start as int, end as int));
            assert(!page_in(vaddr, start as int, vaddr as int));
            assert((vaddr - start) / 4096 < (aend - start) / 4096) by (nonlinear_arith)
                requires
                    start <= vaddr < aend,
                    (vaddr - start) % 4096 == 0,
                    (aend - start) % 4096 == 0,
            ;
        }
        if let Some(slot) = pt.lookup(ram, VirtAddr(vaddr)) {
            if PTEntry(ram.read_pte(slot.table, slot.index)).is_valid() {
                proof {
                    assert(valid_entry(cur.table_words(), root, vaddr) is Some);
                    assert(valid_entry(o.table_words(), root, vaddr) is Some);
                    assert(!enough);
                    lemma_prefix_counted(o, cur, root, start as int, vaddr as int, flags.0);
                }
                proof {
                    crate::syscall::errno::lemma_align_up_mono(vaddr as int, vaddr as int);
                }
                unmap_user_pages(ram, pt, start, vaddr);
                proof {
                    lemma_rollback(o, cur, *ram, root, start as int, vaddr as int, flags.0);
                }
                return false;
            }
        }
        proof {
            lemma_zero_entry();
            assert(translate(cur.table_words(), root, vaddr) is None);
            assert(valid_entry(cur.table_words(), root, vaddr) is None);
            assert(range_unmapped(o.table_words(), root, start as int, vaddr + 4096)) by {
                assert forall|va: usize| page_in(va, start as int, vaddr + 4096) implies #[trigger] valid_entry(
                    o.table_words(),
                    root,
                    va,
                ) is None by {
                    lemma_page_num(va, vaddr);
                    if !page_in(va, start as int, vaddr as int) {
                        assert(page_num(va) == page_num(vaddr));
                        assert(valid_entry(o.table_words(), root, va) == valid_entry(
                            o.table_words(),
                            root,
                            vaddr,
                        ));
                    }
                }
            }
        }
        let frame = match ram.alloc_frame() {
            Some(f) => f,
            None => {
                proof {
                    crate::mm::page_table::lemma_frames_available_pos(cur);
                    assert(!enough);
                    lemma_prefix_counted(o, cur, root, start as int, vaddr as int, flags.0);
                }
                proof {
                    crate::syscall::errno::lemma_align_up_mono(vaddr as int, vaddr as int);
                }
                unmap_user_pages(ram, pt, start, vaddr);
                proof {
                    lemma_rollback(o, cur, *ram, root, start as int, vaddr as int, flags.0);
                }
                return false;
            },
        };
        let ghost r1 = *ram;
        proof {
            if holds_table(cur.table_words(), frame.0) {
                crate::mm::page_table::lemma_table_allocated(cur, frame.0);
            }
        }
        ram.zero_frame(frame);
        let ghost r2 = *ram;
        proof {
            lemma_same_counts(r1, r2);
            assert forall|p: usize| is_frame(p) && p != frame.0 implies #[trigger] r2.ref_of(p)
                == cur.ref_of(p) && r2.is_allocated(p) == cur.is_allocated(p) by {
                assert(r1.ref_of(p) == cur.ref_of(p));
                assert(r1.is_allocated(p) == cur.is_allocated(p));
            }
            lemma_zero_fresh(cur, r2, root, frame.0);
            assert(frames_available(r2) == frames_available(cur) - 1);
            lemma_zero_slots(cur, r2, root, frame.0, vaddr);
        }
        if !pt.map(ram, VirtAddr(vaddr), frame, flags) {
            let ghost r3 = *ram;
            proof {
                assert(!enough);
                lemma_map_failed(o, cur, r2, r3, root, start as int, vaddr, frame.0, flags.0);
            }
            ram.free_frame(frame);
            let ghost r4 = *ram;
            proof {
                lemma_free_fresh(o, r3, r3, r4, root, start as int, vaddr as int, frame.0, flags.0);
                lemma_free_outside_tree(r3.table_words(), r4.table_words(), root, frame.0);
                assert forall|va: usize| !page_in(va, start as int, vaddr as int) implies #[trigger] valid_entry(
                    r4.table_words(),
                    root,
                    va,
                ) == valid_entry(o.table_words(), root, va) by {
                    assert(lookup_entry(r4.table_words(), root, va) == lookup_entry(r3.table_words(), root, va));
                    assert(valid_entry(r3.table_words(), root, va) == valid_entry(r2.table_words(), root, va));
                    assert(valid_entry(r2.table_words(), root, va) == valid_entry(cur.table_words(), root, va));
                }
                assert forall|pa: usize| o.is_allocated(pa) && outside_tree(o.table_words(), root, pa) implies #[trigger] outside_tree(
                    r4.table_words(),
                    root,
                    pa,
                ) by {
                    assert(outside_tree(cur.table_words(), root, pa));
                    assert(cur.is_allocated(pa));
                    assert(pa != frame.0);
                    assert(r2.is_allocated(pa));
                    assert(outside_tree(r2.table_words(), root, pa));
                    assert(outside_tree(r3.table_words(), root, pa));
                }
            }
            proof {
                crate::syscall::errno::lemma_align_up_mono(vaddr as int, vaddr as int);
            }
            unmap_user_pages(ram, pt, start, vaddr);
            proof {
                lemma_rollback(o, r4, *ram, root, start as int, vaddr as int, flags.0);
            }
            return false;
        }
        proof {
            lemma_map_step(o, cur, r2, *ram, root, start as int, vaddr, frame.0, flags.0);
            lemma_need_after(o, cur, r2, *ram, root, start as int, vaddr, k, need);
            assert forall|pa: usize| o.is_allocated(pa) && outside_tree(o.table_words(), root, pa) implies #[trigger] outside_tree(
                ram.table_words(),
                root,
                pa,
            ) by {
                assert(outside_tree(cur.table_words(), root, pa));
                assert(cur.is_allocated(pa));
                assert(pa != frame.0);
                assert(r2.is_allocated(pa));
                assert(outside_tree(r2.table_words(), root, pa));
            }
            assert forall|va: usize| !page_in(va, start as int, vaddr + 4096) implies #[trigger] valid_entry(
                ram.table_words(),
                root,
                va,
            ) == valid_entry(o.table_words(), root, va) by {
                lemma_page_num(va, vaddr);
                assert(valid_entry(r2.table_words(), root, va) == valid_entry(cur.table_words(), root, va));
            }
        }
        vaddr = vaddr + 4096;
    }
    proof {
        assert(vaddr == aend) by (nonlinear_arith)
            requires
                vaddr % 4096 == 0,
                aend % 4096 == 0,
                end <= vaddr <= aend,
                aend < end + 4096,
        ;
    }
    true
}

/// A failed map keeps what was mapped so far, with the fresh frame still
/// handed out and outside the tree.
proof fn lemma_map_failed(
    o: Ram,
    cur: Ram,
    r2: Ram,
    r3: Ram,
    root: usize,
    start: int,
    vaddr: usize,
    frame: usize,
    flags: u8,
)
    requires
        mapped_prefix(o, cur, root, start, vaddr as int, flags),
        start <= vaddr,
        flags & 1u8 != 0,
        flags & 16u8 != 0,
        flags & 14u8 != 0,
        is_frame(frame),
        !cur.is_allocated(frame),
        !holds_table(cur.table_words(), frame),
        r2.wf(),
        r2.is_allocated(frame),
        forall|p: usize|
            #![trigger r2.ref_of(p)]
            #![trigger r2.is_allocated(p)]
            is_frame(p) && p != frame ==> r2.ref_of(p) == cur.ref_of(p) && r2.is_allocated(p)
                == cur.is_allocated(p),
        r2.table_words() == cur.table_words().update(
            spec_frame_index(frame),
            crate::mm::frame::zero_table(),
        ),
        only_allocates(r2, r3),
        r3.wf(),
        tree_shaped(r3.table_words(), root),
        forall|va: usize|
            #![trigger translate(r3.table_words(), root, va)]
            translate(r3.table_words(), root, va) == translate(r2.table_words(), root, va),
        writes_on_path(r2.table_words(), r3.table_words(), root, vaddr),
        forall|pa: usize|
            #![trigger outside_tree(r3.table_words(), root, pa)]
            r2.is_allocated(pa) && outside_tree(r2.table_words(), root, pa) ==> outside_tree(
                r3.table_words(),
                root,
                pa,
            ),
        new_frames_placed(o, cur, root, start, vaddr as int),
        forall|pa: usize|
            #[trigger] r3.is_allocated(pa) && !r2.is_allocated(pa) ==> !outside_tree(r3.table_words(), root, pa),
        forall|pa: usize|
            !outside_tree(r2.table_words(), root, pa) ==> !#[trigger] outside_tree(r3.table_words(), root, pa),
    ensures
        forall|pa: usize|
            #[trigger] r3.is_allocated(pa) && !o.is_allocated(pa) && pa != frame ==> !outside_tree(
                r3.table_words(),
                root,
                pa,
            ) || exists|va: usize|
                page_in(va, start, vaddr as int) && #[trigger] user_frame_at(r3.table_words(), root, va) == Some(pa),
        mapped_prefix(o, r3, root, start, vaddr as int, flags),
        r3.is_allocated(frame),
        outside_tree(r3.table_words(), root, frame),
        forall|va: usize|
            #![trigger user_frame_at(r3.table_words(), root, va)]
            page_in(va, start, vaddr as int) ==> user_frame_at(r3.table_words(), root, va) != Some(frame),
{
    let ow = o.table_words();
    let w = cur.table_words();
    let w2 = r2.table_words();
    let w3 = r3.table_words();
    lemma_zero_fresh(cur, r2, root, frame);
    assert forall|va: usize| page_in(va, start, vaddr as int) implies {
        &&& #[trigger] user_frame_at(w3, root, va) is Some
        &&& lookup_entry(w3, root, va) == Some(spec_new_leaf(user_frame_at(w3, root, va)->Some_0, flags))
        &&& fresh_user_frame(o, r3, w3, root, user_frame_at(w3, root, va)->Some_0)
        &&& translate(ow, root, va) is None
        &&& user_frame_at(w3, root, va) != Some(frame)
    } by {
        let pa = user_frame_at(w, root, va)->Some_0;
        assert(fresh_user_frame(o, cur, w, root, pa));
        lemma_user_leaf_bits(pa, flags);
        lemma_leaf_entry(pa, flags);
        assert(translate(w3, root, va) == translate(w, root, va));
        assert(user_frame_at(w3, root, va) == Some(pa));
        assert(pa != frame);
        assert(r2.is_allocated(pa));
        assert(r2.ref_of(pa) == 1);
        assert(r3.is_allocated(pa));
        assert(r3.ref_of(pa) == 1);
        assert(outside_tree(w2, root, pa));
        assert(outside_tree(w3, root, pa));
        lemma_zeroed_other(w, w2, pa, frame, crate::mm::frame::zero_table());
        lemma_outside_words_kept(w2, w3, root, vaddr, pa);
        assert(fresh_user_frame(o, r3, w3, root, pa));
        assert(translate(ow, root, va) is None);
        assert(lookup_entry(w3, root, va) == Some(spec_new_leaf(pa, flags)));
    }
    assert forall|va1: usize, va2: usize|
        page_in(va1, start, vaddr as int) && page_in(va2, start, vaddr as int) && page_num(va1)
            != page_num(va2) implies #[trigger] user_frame_at(w3, root, va1) != #[trigger] user_frame_at(
        w3,
        root,
        va2,
    ) by {
        lemma_user_leaf_bits(user_frame_at(w, root, va1)->Some_0, flags);
        lemma_user_leaf_bits(user_frame_at(w, root, va2)->Some_0, flags);
        lemma_leaf_entry(user_frame_at(w, root, va1)->Some_0, flags);
        lemma_leaf_entry(user_frame_at(w, root, va2)->Some_0, flags);
        assert(translate(w3, root, va1) == translate(w, root, va1));
        assert(translate(w3, root, va2) == translate(w, root, va2));
    }
    assert forall|pa: usize| o.is_allocated(pa) implies #[trigger] r3.is_allocated(pa) && r3.ref_of(pa)
        == o.ref_of(pa) by {
        assert(cur.is_allocated(pa));
        assert(pa != frame);
    }
    assert(keeps_old_frames(o, r3));
    assert forall|pa: usize| #[trigger] r3.is_allocated(pa) && !o.is_allocated(pa) && pa != frame implies !outside_tree(
        w3,
        root,
        pa,
    ) || exists|va: usize| page_in(va, start, vaddr as int) && #[trigger] user_frame_at(w3, root, va) == Some(pa) by {
        if r2.is_allocated(pa) {
            assert(cur.is_allocated(pa));
            if !outside_tree(w, root, pa) {
                assert(!outside_tree(w2, root, pa));
            } else {
                let va = choose|va: usize| page_in(va, start, vaddr as int) && #[trigger] user_frame_at(w, root, va) == Some(pa);
                assert(fresh_user_frame(o, cur, w, root, pa));
                lemma_user_leaf_bits(pa, flags);
                lemma_leaf_entry(pa, flags);
                assert(translate(w3, root, va) == translate(w, root, va));
                assert(user_frame_at(w3, root, va) == Some(pa));
            }
        }
    }
}

/// Freeing the fresh frame after a failed map keeps what was mapped so far.
proof fn lemma_free_fresh(
    o: Ram,
    r3: Ram,
    r3b: Ram,
    r4: Ram,
    root: usize,
    start: int,
    vaddr: int,
    frame: usize,
    flags: u8,
)
    requires
        r3 == r3b,
        mapped_prefix(o, r3, root, start, vaddr, flags),
        outside_tree(r3.table_words(), root, frame),
        is_frame(frame),
        !o.is_allocated(frame),
        forall|va: usize|
            #![trigger user_frame_at(r3.table_words(), root, va)]
            page_in(va, start, vaddr) ==> user_frame_at(r3.table_words(), root, va) != Some(frame),
        r4.wf(),
        r4.table_words() == r3.table_words().update(spec_frame_index(frame), Seq::empty()),
        forall|p: usize|
            #![trigger r4.ref_of(p)]
            #![trigger r4.is_allocated(p)]
            is_frame(p) && p != frame ==> r4.ref_of(p) == r3.ref_of(p) && r4.is_allocated(p)
                == r3.is_allocated(p),
        forall|pa: usize|
            #[trigger] r3.is_allocated(pa) && !o.is_allocated(pa) && pa != frame ==> !outside_tree(
                r3.table_words(),
                root,
                pa,
            ) || exists|va: usize|
                page_in(va, start, vaddr) && #[trigger] user_frame_at(r3.table_words(), root, va) == Some(pa),
        !r4.is_allocated(frame),
    ensures
        new_frames_placed(o, r4, root, start, vaddr),
        mapped_prefix(o, r4, root, start, vaddr, flags),
{
    let w3 = r3.table_words();
    let w4 = r4.table_words();
    assert(words_wf(w3)) by {
        assert forall|i: int| 0 <= i < NUM_FRAMES implies (#[trigger] w3[i].len() == 0 || w3[i].len()
            == ENTRIES_PER_TABLE) by {
            assert(r3.words@[i]@.len() == 0 || r3.words@[i]@.len() == ENTRIES_PER_TABLE);
        }
    }
    lemma_free_outside_tree(w3, w4, root, frame);
    assert forall|va: usize| #[trigger] translate(w4, root, va) == translate(w3, root, va) by {
        assert(lookup_entry(w4, root, va) == lookup_entry(w3, root, va));
    }
    assert forall|va: usize| page_in(va, start, vaddr) implies {
        &&& #[trigger] user_frame_at(w4, root, va) is Some
        &&& lookup_entry(w4, root, va) == Some(spec_new_leaf(user_frame_at(w4, root, va)->Some_0, flags))
        &&& fresh_user_frame(o, r4, w4, root, user_frame_at(w4, root, va)->Some_0)
        &&& translate(o.table_words(), root, va) is None
    } by {
        assert(lookup_entry(w4, root, va) == lookup_entry(w3, root, va));
        assert(user_frame_at(w4, root, va) == user_frame_at(w3, root, va));
        let pa = user_frame_at(w3, root, va)->Some_0;
        lemma_zeroed_other(w3, w4, pa, frame, Seq::empty());
    }
    assert forall|va1: usize, va2: usize|
        page_in(va1, start, vaddr) && page_in(va2, start, vaddr) && page_num(va1) != page_num(va2) implies #[trigger] user_frame_at(
        w4,
        root,
        va1,
    ) != #[trigger] user_frame_at(w4, root, va2) by {
        assert(lookup_entry(w4, root, va1) == lookup_entry(w3, root, va1));
        assert(lookup_entry(w4, root, va2) == lookup_entry(w3, root, va2));
        assert(user_frame_at(w4, root, va1) == user_frame_at(w3, root, va1));
        assert(user_frame_at(w4, root, va2) == user_frame_at(w3, root, va2));
        assert(user_frame_at(w3, root, va1) != user_frame_at(w3, root, va2));
    }
    assert forall|pa: usize| o.is_allocated(pa) implies #[trigger] r4.is_allocated(pa) && r4.ref_of(pa)
        == o.ref_of(pa) by {
        assert(pa != frame);
    }
    assert(keeps_old_frames(o, r4));
    assert forall|pa: usize| #[trigger] r4.is_allocated(pa) && !o.is_allocated(pa) implies !outside_tree(
        w4,
        root,
        pa,
    ) || exists|va: usize| page_in(va, start, vaddr) && #[trigger] user_frame_at(w4, root, va) == Some(pa) by {
        assert(pa != frame);
        assert(r3.is_allocated(pa));
        if !outside_tree(w3, root, pa) {
        } else {
            let va = choose|va: usize| page_in(va, start, vaddr) && #[trigger] user_frame_at(w3, root, va) == Some(pa);
            assert(lookup_entry(w4, root, va) == lookup_entry(w3, root, va));
            assert(user_frame_at(w4, root, va) == Some(pa));
        }
    }
}

/// Zeroing a frame that holds no table words changes no translation and
/// leaves that frame outside the tree.
proof fn lemma_zero_fresh(cur: Ram, r2: Ram, root: usize, frame: usize)
    requires
        cur.wf(),
        tree_shaped(cur.table_words(), root),
        is_frame(frame),
        !holds_table(cur.table_words(), frame),
        r2.table_words() == cur.table_words().update(
            spec_frame_index(frame),
            crate::mm::frame::zero_table(),
        ),
    ensures
        forall|va: usize|
            #![trigger translate(r2.table_words(), root, va)]
            translate(r2.table_words(), root, va) == translate(cur.table_words(), root, va),
        forall|va: usize|
            #![trigger valid_entry(r2.table_words(), root, va)]
            valid_entry(r2.table_words(), root, va) == valid_entry(cur.table_words(), root, va),
        outside_tree(r2.table_words(), root, frame),
        forall|pa: usize|
            #![trigger outside_tree(r2.table_words(), root, pa)]
            outside_tree(r2.table_words(), root, pa) == outside_tree(cur.table_words(), root, pa),
        tree_shaped(r2.table_words(), root),
{
    reveal(outside_tree);
    let w = cur.table_words();
    let w2 = r2.table_words();
    assert(words_wf(w)) by {
        assert forall|i: int| 0 <= i < NUM_FRAMES implies (#[trigger] w[i].len() == 0 || w[i].len()
            == ENTRIES_PER_TABLE) by {
            assert(cur.words@[i]@.len() == 0 || cur.words@[i]@.len() == ENTRIES_PER_TABLE);
        }
    }
    assert(w[spec_frame_index(frame)].len() == 0);
    assert forall|va: usize| #[trigger] translate(w2, root, va) == translate(w, root, va) by {
        crate::mm::page_table::lemma_materialize_keeps_translate(w, w2, frame, root, va);
    }
    assert forall|va: usize| #[trigger] valid_entry(w2, root, va) == valid_entry(w, root, va) by {
        crate::mm::page_table::lemma_materialize_keeps_translate(w, w2, frame, root, va);
    }
    crate::mm::page_table::lemma_materialize_keeps_translate(w, w2, frame, root, 0);
    crate::mm::page_table::lemma_tree_shaped_materialize(w, w2, frame, root);
    lemma_same_upper_levels(w, w2, root);
    assert(outside_tree(w, root, frame)) by {
        assert forall|k: int|
            0 <= k < 512 && pte_valid(#[trigger] pte_word(w, root, k)) implies frame != l1_of(w, root, k) by {}
        assert forall|i: int, j: int|
            0 <= i < 512 && 0 <= j < 512 && pte_valid(pte_word(w, root, i)) && pte_valid(
                #[trigger] pte_word(w, l1_of(w, root, i), j),
            ) implies l0_of(w, root, i, j) != frame by {}
    }
}

/// Counting over a range covers every sub-range.
pub proof fn lemma_counted_sub(ram: Ram, root: usize, a: int, b: int, c: int, d: int)
    requires
        frames_counted(ram, root, a, b),
        a <= c,
        d <= b,
    ensures
        frames_counted(ram, root, c, d),
{
    let w = ram.table_words();
    assert forall|va: usize|
        page_in(va, c, d) && user_frame_at(w, root, va) is Some implies {
        let pa = #[trigger] user_frame_at(w, root, va)->Some_0;
        &&& is_frame(pa)
        &&& ram.ref_of(pa) >= 1
        &&& ram.is_allocated(pa)
        &&& outside_tree(w, root, pa)
    } by {
        assert(page_in(va, a, b));
    }
    assert forall|va1: usize, va2: usize|
        page_in(va1, c, d) && page_in(va2, c, d) && page_num(va1) != page_num(va2) && user_frame_at(
            w,
            root,
            va1,
        ) is Some implies #[trigger] user_frame_at(w, root, va1) != #[trigger] user_frame_at(
        w,
        root,
        va2,
    ) by {
        assert(page_in(va1, a, b) && page_in(va2, a, b));
    }
}


/// Unmapping the user pages of `[start, end)` keeps the frames of the
/// running process's remaining user pages counted.
pub proof fn lemma_counted_after_unmap(o: Ram, f: Ram, root: usize, start: int, end: int)
    requires
        frames_counted(o, root, 0, USER_SPACE_TOP as int),
        unmap_progress(o, f, root, start, end),
        0 <= start,
        end <= USER_SPACE_TOP,
    ensures
        frames_counted(f, root, 0, USER_SPACE_TOP as int),
{
    let ow = o.table_words();
    let fw = f.table_words();
    lemma_zero_entry();
    assert forall|va: usize| #[trigger] user_frame_at(fw, root, va) is Some implies user_frame_at(fw, root, va)
        == user_frame_at(ow, root, va) && !(page_in(va, start, end) && user_frame_at(ow, root, va) is Some) by {
        if page_in(va, start, end) && user_frame_at(ow, root, va) is Some {
            assert(lookup_entry(fw, root, va) == Some(0u64));
        }
    }
    assert forall|va: usize|
        #![trigger user_frame_at(fw, root, va)]
        page_in(va, 0, USER_SPACE_TOP as int) && user_frame_at(fw, root, va) is Some implies {
        let pa = user_frame_at(fw, root, va)->Some_0;
        &&& is_frame(pa)
        &&& f.ref_of(pa) >= 1
        &&& f.is_allocated(pa)
        &&& outside_tree(fw, root, pa)
    } by {
        let pa = user_frame_at(ow, root, va)->Some_0;
        assert forall|v: usize|
            #![trigger user_frame_at(ow, root, v)]
            page_in(v, start, end) implies user_frame_at(ow, root, v) != Some(pa) by {
            if user_frame_at(ow, root, v) == Some(pa) {
                if page_num(v) == page_num(va) {
                    assert(page_in(va, start, end));
                } else {
                    assert(page_in(v, 0, USER_SPACE_TOP as int));
                }
            }
        }
        lemma_not_mapped_intro(ow, root, start, end, pa);
        assert(f.ref_of(pa) == o.ref_of(pa));
    }
    assert forall|va1: usize, va2: usize|
        #![trigger user_frame_at(fw, root, va1), user_frame_at(fw, root, va2)]
        page_in(va1, 0, USER_SPACE_TOP as int) && page_in(va2, 0, USER_SPACE_TOP as int) && page_num(va1)
            != page_num(va2) && user_frame_at(fw, root, va1) is Some implies user_frame_at(fw, root, va1)
        != user_frame_at(fw, root, va2) by {
        if user_frame_at(fw, root, va2) is Some {
            assert(user_frame_at(ow, root, va1) != user_frame_at(ow, root, va2));
        }
    }
}


/// Mapping fresh frames into `[start, end)` (when `grew`), with every other
/// valid entry and every handed-out frame kept, keeps the frames of the
/// running process's user pages counted.
pub proof fn lemma_counted_after_growth(o: Ram, f: Ram, root: usize, start: int, end: int, grew: bool, flags: u8)
    requires
        frames_counted(o, root, 0, USER_SPACE_TOP as int),
        0 <= start,
        end <= USER_SPACE_TOP,
        keeps_old_frames(o, f),
        keeps_outside(o, f, root),
        forall|va: usize|
            !grew || !page_in(va, start, end) ==> #[trigger] valid_entry(f.table_words(), root, va)
                == valid_entry(o.table_words(), root, va),
        grew ==> mapped_prefix(o, f, root, start, end, flags),
    ensures
        frames_counted(f, root, 0, USER_SPACE_TOP as int),
{
    let ow = o.table_words();
    let fw = f.table_words();
    assert forall|va: usize| !grew || !page_in(va, start, end) implies #[trigger] user_frame_at(fw, root, va)
        == user_frame_at(ow, root, va) by {
        assert(valid_entry(fw, root, va) == valid_entry(ow, root, va));
    }
    assert forall|va: usize|
        #![trigger user_frame_at(fw, root, va)]
        page_in(va, 0, USER_SPACE_TOP as int) && user_frame_at(fw, root, va) is Some implies {
        let pa = user_frame_at(fw, root, va)->Some_0;
        &&& is_frame(pa)
        &&& f.ref_of(pa) >= 1
        &&& f.is_allocated(pa)
        &&& outside_tree(fw, root, pa)
    } by {
        if !grew || !page_in(va, start, end) {
            assert(user_frame_at(fw, root, va) == user_frame_at(ow, root, va));
        }
    }
    assert forall|va1: usize, va2: usize|
        #![trigger user_frame_at(fw, root, va1), user_frame_at(fw, root, va2)]
        page_in(va1, 0, USER_SPACE_TOP as int) && page_in(va2, 0, USER_SPACE_TOP as int) && page_num(va1)
            != page_num(va2) && user_frame_at(fw, root, va1) is Some implies user_frame_at(fw, root, va1)
        != user_frame_at(fw, root, va2) by {
        if user_frame_at(fw, root, va2) is Some {
            let in1 = grew && page_in(va1, start, end);
            let in2 = grew && page_in(va2, start, end);
            if !in1 {
                assert(user_frame_at(fw, root, va1) == user_frame_at(ow, root, va1));
            }
            if !in2 {
                assert(user_frame_at(fw, root, va2) == user_frame_at(ow, root, va2));
            }
            if !in1 && !in2 {
                assert(user_frame_at(ow, root, va1) != user_frame_at(ow, root, va2));
            } else if in1 && !in2 {
                assert(!o.is_allocated(user_frame_at(fw, root, va1)->Some_0));
                assert(o.is_allocated(user_frame_at(ow, root, va2)->Some_0));
            } else if !in1 && in2 {
                assert(!o.is_allocated(user_frame_at(fw, root, va2)->Some_0));
                assert(o.is_allocated(user_frame_at(ow, root, va1)->Some_0));
            }
        }
    }
}


/// A frame that is not handed out is none of the tables of a tree-shaped
/// page table.
pub proof fn lemma_unallocated_outside(ram: Ram, root: usize, pa: usize)
    requires
        ram.wf(),
        tree_shaped(ram.table_words(), root),
        !ram.is_allocated(pa),
    ensures
        outside_tree(ram.table_words(), root, pa),
{
    reveal(outside_tree);
    let w = ram.table_words();
    if holds_table(w, pa) {
        crate::mm::page_table::lemma_table_allocated(ram, pa);
    }
    assert forall|k: int| 0 <= k < 512 && pte_valid(#[trigger] pte_word(w, root, k)) implies pa != l1_of(
        w,
        root,
        k,
    ) by {
        if holds_table(w, l1_of(w, root, k)) {
            crate::mm::page_table::lemma_table_allocated(ram, l1_of(w, root, k));
        }
    }
    assert forall|i: int, j: int|
        0 <= i < 512 && 0 <= j < 512 && pte_valid(pte_word(w, root, i)) && pte_valid(
            #[trigger] pte_word(w, l1_of(w, root, i), j),
        ) implies l0_of(w, root, i, j) != pa by {
        crate::mm::page_table::lemma_table_allocated(ram, l0_of(w, root, i, j));
    }
    crate::mm::page_table::lemma_table_allocated(ram, root);
}


/// Frames counted for the page table at `p` stay counted when its walks and
/// its upper levels stay as they were, and the frames of its user pages
/// stay handed out with the same counts.
pub proof fn lemma_counted_kept(r1: Ram, f: Ram, p: usize)
    requires
        frames_counted(r1, p, 0, USER_SPACE_TOP as int),
        forall|va: usize| #[trigger] lookup_entry(f.table_words(), p, va) == lookup_entry(r1.table_words(), p, va),
        forall|pa: usize| #[trigger] outside_tree(f.table_words(), p, pa) == outside_tree(r1.table_words(), p, pa),
        forall|va: usize|
            page_in(va, 0, USER_SPACE_TOP as int) && #[trigger] user_frame_at(r1.table_words(), p, va) is Some
                ==> f.is_allocated(user_frame_at(r1.table_words(), p, va)->Some_0) && f.ref_of(
                user_frame_at(r1.table_words(), p, va)->Some_0,
            ) == r1.ref_of(user_frame_at(r1.table_words(), p, va)->Some_0),
    ensures
        frames_counted(f, p, 0, USER_SPACE_TOP as int),
{
    let w1 = r1.table_words();
    let wf = f.table_words();
    assert forall|va: usize| #[trigger] user_frame_at(wf, p, va) == user_frame_at(w1, p, va) by {
        assert(lookup_entry(wf, p, va) == lookup_entry(w1, p, va));
    }
    assert forall|va: usize|
        #![trigger user_frame_at(wf, p, va)]
        page_in(va, 0, USER_SPACE_TOP as int) && user_frame_at(wf, p, va) is Some implies {
        let pa = user_frame_at(wf, p, va)->Some_0;
        &&& is_frame(pa)
        &&& f.ref_of(pa) >= 1
        &&& f.is_allocated(pa)
        &&& outside_tree(wf, p, pa)
    } by {
        assert(user_frame_at(w1, p, va) is Some);
    }
    assert forall|va1: usize, va2: usize|
        #![trigger user_frame_at(wf, p, va1), user_frame_at(wf, p, va2)]
        page_in(va1, 0, USER_SPACE_TOP as int) && page_in(va2, 0, USER_SPACE_TOP as int) && page_num(va1)
            != page_num(va2) && user_frame_at(wf, p, va1) is Some implies user_frame_at(wf, p, va1)
        != user_frame_at(wf, p, va2) by {
        assert(user_frame_at(w1, p, va1) != user_frame_at(w1, p, va2));
    }
}

} // verus!
