//! Boot-time address spaces: the kernel's identity mapping.
use vstd::prelude::*;

use crate::mm::frame::{holds_table, is_frame, pte_word, spec_frame_index, Ram, NUM_FRAMES, RAM_BASE, RAM_END};
use crate::syscall::areas::areas_wf;
use crate::syscall::kernel::Kernel;
use crate::task::process::{
    MmapArea, Process, ProcessState, KERNEL_STACK_PAGES, KERNEL_STACK_SIZE, MAX_MMAP_AREAS,
    USER_HEAP_START,
};
use crate::task::scheduler::{Scheduler, MAX_PROCESSES};
use crate::task::trapframe::{initial_regs, TrapFrame, SSTATUS_SPIE};
use crate::mm::page_table::{
    frames_available, lemma_flag_bits, lemma_page_num, only_allocates, page_num, spec_flag_bits,
    spec_new_leaf, spec_satp, translate, tree_shaped, lemma_only_allocates_trans, PTEFlags,
    PageTable, PhysAddr, VirtAddr, lemma_zero_entry, same_page, spec_ppn_to_addr, valid_entry, PTE_U,
    lookup_entry, outside_tree, page_base, tables_needed,
};
use crate::syscall::user_mem::{
    frames_counted, lemma_unallocated_outside, page_in, user_frame_at, prev_same_l0, prev_same_l1,
    lemma_page_need,
};
use crate::task::process::USER_SPACE_TOP;

verus! {

/// Flags of the kernel's identity mapping: readable, writable, executable,
/// kernel only.
pub open spec fn kernel_flags() -> u8 {
    spec_flag_bits(true, true, true, false)
}

/// Below 512 GiB the page number of an address is its index in pages.
proof fn lemma_page_num_low(a: usize)
    requires
        a < 0x80_0000_0000,
    ensures
        page_num(a) == a / 4096,
{
    let b = a as u64;
    assert(b < 0x80_0000_0000u64);
    assert(((a >> 12usize) & 0x7ff_ffffusize) == a / 4096) by (bit_vector)
        requires
            b == a as u64,
            b < 0x80_0000_0000u64,
    ;
}

/// A table whose entries are all zero is a tree (of one table).
proof fn lemma_zero_root_tree_shaped(w: Seq<Seq<u64>>, root: usize)
    requires
        holds_table(w, root),
        forall|k: int| 0 <= k < 512 ==> #[trigger] pte_word(w, root, k) == 0,
    ensures
        tree_shaped(w, root),
{
    lemma_zero_entry();
}

/// A leaf entry carries its flags in its low byte.
proof fn lemma_leaf_flags(pa: usize, f: u8)
    ensures
        spec_new_leaf(pa, f) & 1u64 == (f as u64) & 1u64,
        spec_new_leaf(pa, f) & 0xeu64 == (f as u64) & 0xeu64,
{
    assert(((((pa >> 12usize) << 10usize) as u64) | (f as u64)) & 1u64 == (f as u64) & 1u64 && ((((pa
        >> 12usize) << 10usize) as u64) | (f as u64)) & 0xeu64 == (f as u64) & 0xeu64) by (bit_vector);
}

/// The user bit of a leaf entry is the one of its flags.
proof fn lemma_leaf_user_bit(pa: usize, f: u8)
    ensures
        spec_new_leaf(pa, f) & 0x10u64 == (f as u64) & 0x10u64,
{
    assert(((((pa >> 12usize) << 10usize) as u64) | (f as u64)) & 0x10u64 == (f as u64) & 0x10u64)
        by (bit_vector);
}

/// No valid entry of the page table at `root` lets user mode in.
pub open spec fn no_user_pages(w: Seq<Seq<u64>>, root: usize) -> bool {
    forall|va: usize|
        #![trigger valid_entry(w, root, va)]
        valid_entry(w, root, va) is Some ==> valid_entry(w, root, va)->Some_0 & PTE_U == 0
}

/// `pa` is one of the addresses `start, start + 4096, ...` below `end`.
pub open spec fn identity_step(start: int, end: int, pa: int) -> bool {
    start <= pa < end && (pa - start) % 4096 == 0
}

/// Every valid entry of the page table at `root` maps one of the pages
/// `start, start + 4096, ...` below `end` to itself for the kernel.
pub open spec fn only_identity_pages(w: Seq<Seq<u64>>, root: usize, start: int, end: int) -> bool {
    forall|va: usize|
        #![trigger valid_entry(w, root, va)]
        valid_entry(w, root, va) is Some ==> exists|q: usize|
            #![trigger identity_step(start, end, q as int)]
            identity_step(start, end, q as int) && same_page(q, va) && valid_entry(w, root, va) == Some(
                spec_new_leaf(q, kernel_flags()),
            )
}

/// Tables that mapping the identity page at `va` creates in a fresh page
/// table once the pages from `start` up to `va` are mapped: none when the
/// page before shares its last-level table, one when it shares only the
/// second-level table, two otherwise.
pub open spec fn identity_tables(start: int, va: usize) -> int {
    if prev_same_l0(start, va) {
        0
    } else if prev_same_l1(start, va) {
        1
    } else {
        2
    }
}

/// Tables that mapping the first `n` identity pages from `start` creates in
/// a fresh page table.
pub open spec fn identity_need(start: int, n: nat) -> int
    decreases n,
{
    if n == 0 {
        0
    } else {
        identity_need(start, (n - 1) as nat) + identity_tables(start, (start + (n - 1) * 4096) as usize)
    }
}

proof fn lemma_identity_need_mono(start: int, i: nat, n: nat)
    requires
        i <= n,
    ensures
        identity_need(start, i) <= identity_need(start, n),
    decreases n,
{
    if i < n {
        lemma_identity_need_mono(start, i, (n - 1) as nat);
    }
}

/// Number of pages `start, start + 4096, ...` below `end`.
pub open spec fn identity_pages(start: int, end: int) -> int {
    if start < end {
        (end - start + 4095) / 4096
    } else {
        0
    }
}

/// The frame count of one step of the identity mapping.
proof fn lemma_identity_frames(
    fo: int,
    fb: int,
    fa: int,
    nk: int,
    nk1: int,
    ntot: int,
    tn: int,
    it: int,
    done: bool,
    on: bool,
)
    requires
        on ==> fb + nk >= fo,
        on ==> tn <= it,
        nk1 == nk + it,
        nk1 <= ntot,
        done ==> fa == fb - tn,
        fb >= tn ==> done,
    ensures
        on && done ==> fa + nk1 >= fo,
        on && fo >= ntot ==> done,
{
}

/// The count of [`identity_need`] at the identity page `pa`.
proof fn lemma_identity_step_need(start: usize, end: usize, pa: usize, total: nat)
    requires
        start <= pa < end,
        (pa - start) % 4096 == 0,
        end <= usize::MAX - 4096,
        total == (if start < end {
            ((end - start + 4095) / 4096) as nat
        } else {
            0nat
        }),
    ensures
        ((pa + 4096 - start) / 4096) as nat == ((pa - start) / 4096) as nat + 1,
        identity_need(start as int, ((pa + 4096 - start) / 4096) as nat) == identity_need(
            start as int,
            ((pa - start) / 4096) as nat,
        ) + identity_tables(start as int, pa),
        identity_need(start as int, ((pa + 4096 - start) / 4096) as nat) <= identity_need(start as int, total),
{
    let k: nat = ((pa - start) / 4096) as nat;
    assert(start + k * 4096 == pa && k + 1 <= total && ((pa + 4096 - start) / 4096) as nat == k + 1) by (nonlinear_arith)
        requires
            k == (pa - start) / 4096,
            total == (end - start + 4095) / 4096,
            start <= pa < end,
            (pa - start) % 4096 == 0,
    ;
    assert(identity_need(start as int, k + 1) == identity_need(start as int, k) + identity_tables(start as int, pa));
    lemma_identity_need_mono(start as int, k + 1, total);
}

/// The kernel's first page table: a fresh root frame, and every page from
/// `start` up to `end` (in steps of a page) mapped to itself, readable,
/// writable and executable for the kernel only. Returns the page table and
/// the `satp` value that enables it.
pub fn init_kernel(ram: &mut Ram, start: PhysAddr, end: PhysAddr) -> (r: (PageTable, usize))
    requires
        old(ram).wf(),
        frames_available(*old(ram)) >= 1,
        end.0 <= usize::MAX - 4096,
    ensures
        final(ram).wf(),
        only_allocates(*old(ram), *final(ram)),
        frames_available(*final(ram)) <= frames_available(*old(ram)),
        frames_available(*final(ram)) + 1 + 2 * identity_pages(start.0 as int, end.0 as int)
            >= frames_available(*old(ram)),
        final(ram).free_list@.len() <= old(ram).free_list@.len(),
        !old(ram).is_allocated(r.0.root.0),
        final(ram).is_allocated(r.0.root.0),
        r.1 == spec_satp(r.0.root.0),
        tree_shaped(final(ram).table_words(), r.0.root.0),
        no_user_pages(final(ram).table_words(), r.0.root.0),
        only_identity_pages(final(ram).table_words(), r.0.root.0, start.0 as int, end.0 as int),
        end.0 <= 0x80_0000_0000 && frames_available(*old(ram)) >= 1 + identity_need(
            start.0 as int,
            identity_pages(start.0 as int, end.0 as int) as nat,
        ) ==> forall|pa: usize|
            identity_step(start.0 as int, end.0 as int, pa as int) ==> #[trigger] translate(
                final(ram).table_words(),
                r.0.root.0,
                pa,
            ) == Some(spec_new_leaf(pa, kernel_flags())),
        end.0 <= 0x80_0000_0000 && frames_available(*final(ram)) >= 2 ==> forall|pa: usize|
            identity_step(start.0 as int, end.0 as int, pa as int) ==> #[trigger] translate(
                final(ram).table_words(),
                r.0.root.0,
                pa,
            ) == Some(spec_new_leaf(pa, kernel_flags())),
{
    let root = match ram.alloc_frame() {
        Some(f) => f,
        None => {
            assert(false);
            return (PageTable::new(PhysAddr(0)), 0);
        },
    };
    let ghost r0 = *ram;
    ram.zero_frame(root);
    proof {
        crate::mm::page_table::lemma_only_allocates_same(r0, *ram);
        lemma_only_allocates_trans(*old(ram), r0, *ram);
        assert(only_allocates(*old(ram), *ram)) by {
            assert forall|pa: usize| #[trigger] ram.is_allocated(pa) && old(ram).is_allocated(pa)
                implies ram.ref_of(pa) == old(ram).ref_of(pa) by {
                assert(pa != root.0);
            }
        }
        assert forall|k: int| 0 <= k < 512 implies #[trigger] pte_word(ram.table_words(), root.0, k) == 0 by {
            assert(0 <= spec_frame_index(root.0) < NUM_FRAMES);
        }
        lemma_zero_root_tree_shaped(ram.table_words(), root.0);
        lemma_zero_entry();
        assert forall|va: usize| #[trigger] valid_entry(ram.table_words(), root.0, va) is None by {
            crate::mm::page_table::lemma_vpn_bounds(va);
        }
    }
    let pt = PageTable::new(root);
    let flags = PTEFlags::new(true, true, true, false);
    let ghost o = *ram;
    let ghost total: nat = if start.0 < end.0 {
        ((end.0 - start.0 + 4095) / 4096) as nat
    } else {
        0nat
    };
    proof {
        assert(frames_available(o) == frames_available(*old(ram)) - 1);
    }
    let mut ok = true;
    let mut pa = start.0;
    while pa < end.0
        invariant
            pt.root == root,
            ram.wf(),
            only_allocates(*old(ram), *ram),
            frames_available(*ram) <= frames_available(*old(ram)),
            frames_available(*ram) + 1 + 2 * ((pa - start.0) / 4096) >= frames_available(*old(ram)),
            ram.free_list@.len() <= old(ram).free_list@.len(),
            pa == start.0 || pa < end.0 + 4096,
            tree_shaped(ram.table_words(), root.0),
            no_user_pages(ram.table_words(), root.0),
            only_identity_pages(ram.table_words(), root.0, start.0 as int, pa as int),
            !old(ram).is_allocated(root.0),
            ram.is_allocated(root.0),
            flags.0 == kernel_flags(),
            start.0 <= pa,
            (pa - start.0) % 4096 == 0,
            end.0 <= usize::MAX - 4096,
            !ok ==> frames_available(*ram) < 2,
            frames_available(o) == frames_available(*old(ram)) - 1,
            total == (if start.0 < end.0 {
                ((end.0 - start.0 + 4095) / 4096) as nat
            } else {
                0nat
            }),
            end.0 <= 0x80_0000_0000 && ok ==> frames_available(*ram) + identity_need(
                start.0 as int,
                ((pa - start.0) / 4096) as nat,
            ) >= frames_available(o),
            end.0 <= 0x80_0000_0000 && frames_available(o) >= identity_need(start.0 as int, total) ==> ok,
            end.0 <= 0x80_0000_0000 && ok ==> forall|q: usize|
                identity_step(start.0 as int, pa as int, q as int) ==> #[trigger] translate(
                    ram.table_words(),
                    root.0,
                    q,
                ) == Some(spec_new_leaf(q, kernel_flags())),
        decreases usize::MAX - pa,
    {
        let ghost before = *ram;
        proof {
            lemma_identity_step_need(start.0, end.0, pa, total);
            if end.0 <= 0x80_0000_0000 && ok {
                if pa - 4096 >= start.0 {
                    assert(identity_step(start.0 as int, pa as int, (pa - 4096) as int));
                    assert(translate(before.table_words(), root.0, (pa - 4096) as usize) is Some);
                }
                lemma_page_need(before.table_words(), before.table_words(), root.0, start.0 as int, pa);
                assert(tables_needed(before.table_words(), root.0, pa) <= identity_tables(start.0 as int, pa));
            }
        }
        let done = pt.map(ram, VirtAddr(pa), PhysAddr(pa), flags);
        proof {
            assert forall|va: usize| #[trigger] valid_entry(ram.table_words(), root.0, va) is Some
                implies valid_entry(ram.table_words(), root.0, va)->Some_0 & PTE_U == 0 by {
                if done && same_page(va, pa) {
                    lemma_leaf_user_bit(pa, kernel_flags());
                    lemma_flag_bits(true, true, true, false);
                }
            }
            lemma_only_allocates_trans(*old(ram), before, *ram);
            assert forall|va: usize| #[trigger] valid_entry(ram.table_words(), root.0, va) is Some
                implies exists|q: usize|
                #![trigger identity_step(start.0 as int, pa + 4096, q as int)]
                identity_step(start.0 as int, pa + 4096, q as int) && same_page(q, va) && valid_entry(
                    ram.table_words(),
                    root.0,
                    va,
                ) == Some(spec_new_leaf(q, kernel_flags())) by {
                if done && same_page(va, pa) {
                    lemma_flag_bits(true, true, true, false);
                    lemma_leaf_flags(pa, kernel_flags());
                    assert(identity_step(start.0 as int, pa + 4096, pa as int));
                    assert(same_page(pa, va));
                } else {
                    assert(valid_entry(before.table_words(), root.0, va) is Some);
                    let q = choose|q: usize|
                        #![trigger identity_step(start.0 as int, pa as int, q as int)]
                        identity_step(start.0 as int, pa as int, q as int) && same_page(q, va)
                            && valid_entry(before.table_words(), root.0, va) == Some(
                            spec_new_leaf(q, kernel_flags()),
                        );
                    assert(identity_step(start.0 as int, pa + 4096, q as int));
                }
            }
            if end.0 <= 0x80_0000_0000 && ok && done {
                lemma_flag_bits(true, true, true, false);
                lemma_leaf_flags(pa, kernel_flags());
                assert(crate::mm::page_table::pte_leaf(spec_new_leaf(pa, kernel_flags())));
                assert forall|q: usize|
                    identity_step(start.0 as int, pa + 4096, q as int) implies #[trigger] translate(
                    ram.table_words(),
                    root.0,
                    q,
                ) == Some(spec_new_leaf(q, kernel_flags())) by {
                    lemma_page_num(q, pa);
                    lemma_page_num_low(q);
                    lemma_page_num_low(pa);
                    if q != pa {
                        assert(q / 4096 != pa / 4096) by (nonlinear_arith)
                            requires
                                (q - start.0) % 4096 == 0,
                                (pa - start.0) % 4096 == 0,
                                q != pa,
                                start.0 <= q,
                                start.0 <= pa,
                        ;
                        assert(identity_step(start.0 as int, pa as int, q as int));
                    }
                }
            }
        }
        proof {
            lemma_identity_frames(
                frames_available(o),
                frames_available(before),
                frames_available(*ram),
                identity_need(start.0 as int, ((pa - start.0) / 4096) as nat),
                identity_need(start.0 as int, ((pa + 4096 - start.0) / 4096) as nat),
                identity_need(start.0 as int, total),
                tables_needed(before.table_words(), root.0, pa),
                identity_tables(start.0 as int, pa),
                done,
                end.0 <= 0x80_0000_0000 && ok,
            );
        }
        ok = ok && done;
        assert((pa + 4096 - start.0) / 4096 == (pa - start.0) / 4096 + 1) by (nonlinear_arith)
            requires
                start.0 <= pa,
                (pa - start.0) % 4096 == 0,
        ;
        pa = pa + 4096;
    }
    assert((pa - start.0) / 4096 == identity_pages(start.0 as int, end.0 as int)) by (nonlinear_arith)
        requires
            start.0 <= pa,
            (pa - start.0) % 4096 == 0,
            pa >= end.0,
            pa == start.0 || pa < end.0 + 4096,
            identity_pages(start.0 as int, end.0 as int) == if start.0 < end.0 {
                (end.0 - start.0 + 4095) / 4096
            } else {
                0
            },
    ;
    proof {
        let w = ram.table_words();
        assert forall|va: usize| #[trigger] valid_entry(w, root.0, va) is Some implies exists|q: usize|
            #![trigger identity_step(start.0 as int, end.0 as int, q as int)]
            identity_step(start.0 as int, end.0 as int, q as int) && same_page(q, va) && valid_entry(
                w,
                root.0,
                va,
            ) == Some(spec_new_leaf(q, kernel_flags())) by {
            let q = choose|q: usize|
                #![trigger identity_step(start.0 as int, pa as int, q as int)]
                identity_step(start.0 as int, pa as int, q as int) && same_page(q, va) && valid_entry(
                    w,
                    root.0,
                    va,
                ) == Some(spec_new_leaf(q, kernel_flags()));
            assert(q + 4096 <= pa) by (nonlinear_arith)
                requires
                    start.0 <= q < pa,
                    (q - start.0) % 4096 == 0,
                    (pa - start.0) % 4096 == 0,
            ;
            assert(identity_step(start.0 as int, end.0 as int, q as int));
        }
    }
    let satp = pt.satp_val();
    (pt, satp)
}

/// Where the user program is mapped.
pub const USER_CODE_BASE: usize = 0x1_0000;

/// The UART's registers, mapped to themselves for the kernel.
pub const UART_BASE: usize = 0x1000_0000;

/// The page of the first user stack.
pub const USER_STACK_PAGE: usize = 0x3F00_0000;

/// Initial user stack pointer: the top of the user stack page.
pub const USER_STACK_TOP: usize = 0x3F00_1000;

/// One piece of the user program: `len` bytes from `offset` in the program
/// image go to the start of the frame `frame`, whose other bytes are zero.
#[derive(Clone, Copy, PartialEq, Eq, Structural, Debug)]
pub struct CodeChunk {
    pub frame: PhysAddr,
    pub offset: usize,
    pub len: usize,
}


/// A frame of a user page of init: handed out, counted once, and none of
/// the tables of the page table at `root`.
pub open spec fn own_user_frame(ram: Ram, root: usize, pa: usize) -> bool {
    &&& is_frame(pa)
    &&& ram.is_allocated(pa)
    &&& ram.ref_of(pa) == 1
    &&& outside_tree(ram.table_words(), root, pa)
}

/// `e`, the entry of the page of `va`, is one of init's user pages: a code
/// page with its chunk's frame, or the stack page with the stack frame.
pub open spec fn init_user_entry(chunks: Seq<CodeChunk>, stack: Option<usize>, va: usize, e: u64) -> bool {
    ||| {
        &&& USER_CODE_BASE <= page_base(va) < USER_CODE_BASE + chunks.len() * 4096
        &&& e == spec_new_leaf(chunks[(page_base(va) - USER_CODE_BASE) / 4096].frame.0, code_flags())
    }
    ||| {
        &&& stack is Some
        &&& page_base(va) == USER_STACK_PAGE
        &&& e == spec_new_leaf(stack->Some_0, stack_flags())
    }
}

/// The only user pages of the page table at `root` are the code pages of
/// `chunks` and the stack page, each with a frame of its own.
pub open spec fn init_user_pages(ram: Ram, root: usize, chunks: Seq<CodeChunk>, stack: Option<usize>) -> bool {
    let w = ram.table_words();
    &&& forall|va: usize|
        #![trigger valid_entry(w, root, va)]
        valid_entry(w, root, va) is Some && valid_entry(w, root, va)->Some_0 & PTE_U != 0
            ==> init_user_entry(chunks, stack, va, valid_entry(w, root, va)->Some_0)
    &&& forall|i: int| 0 <= i < chunks.len() ==> own_user_frame(ram, root, (#[trigger] chunks[i]).frame.0)
    &&& forall|i: int, j: int|
        0 <= i < j < chunks.len() ==> (#[trigger] chunks[i]).frame != (#[trigger] chunks[j]).frame
    &&& stack is Some ==> own_user_frame(ram, root, stack->Some_0)
    &&& stack is Some ==> forall|i: int|
        0 <= i < chunks.len() ==> (#[trigger] chunks[i]).frame.0 != stack->Some_0
}

/// What boot needs to know of a `map` of the page of `vaddr` to the entry
/// `e` from `r0` to `r1` (`done` when it succeeded).
spec fn map_effect(r0: Ram, r1: Ram, root: usize, vaddr: usize, e: u64, done: bool) -> bool {
    &&& only_allocates(r0, r1)
    &&& r1.wf()
    &&& tree_shaped(r1.table_words(), root)
    &&& forall|va: usize|
        !same_page(va, vaddr) || !done ==> #[trigger] valid_entry(r1.table_words(), root, va)
            == valid_entry(r0.table_words(), root, va)
    &&& done ==> forall|va: usize|
        same_page(va, vaddr) ==> #[trigger] lookup_entry(r1.table_words(), root, va) == Some(e)
    &&& forall|pa: usize|
        r0.is_allocated(pa) && outside_tree(r0.table_words(), root, pa) ==> #[trigger] outside_tree(
            r1.table_words(),
            root,
            pa,
        )
}

/// A map of a page for the kernel alone keeps init's user pages.
proof fn lemma_init_pages_kernel_map(
    r0: Ram,
    r1: Ram,
    root: usize,
    chunks: Seq<CodeChunk>,
    stack: Option<usize>,
    vaddr: usize,
    e: u64,
    done: bool,
)
    requires
        init_user_pages(r0, root, chunks, stack),
        map_effect(r0, r1, root, vaddr, e, done),
        e & PTE_U == 0,
    ensures
        init_user_pages(r1, root, chunks, stack),
{
    let w1 = r1.table_words();
    assert forall|va: usize|
        valid_entry(w1, root, va) is Some && valid_entry(w1, root, va)->Some_0 & PTE_U != 0 implies init_user_entry(
        chunks,
        stack,
        va,
        #[trigger] valid_entry(w1, root, va)->Some_0,
    ) by {
        if done && same_page(va, vaddr) {
            assert(lookup_entry(w1, root, va) == Some(e));
        }
    }
    assert forall|i: int| 0 <= i < chunks.len() implies own_user_frame(r1, root, (#[trigger] chunks[i]).frame.0) by {
        assert(r1.is_allocated(chunks[i].frame.0));
    }
    if stack is Some {
        assert(r1.is_allocated(stack->Some_0));
    }
}


/// Mapping the next code page to a fresh frame adds it to init's user
/// pages.
proof fn lemma_init_pages_code_map(
    r0: Ram,
    ra: Ram,
    r1: Ram,
    root: usize,
    chunks: Seq<CodeChunk>,
    c: CodeChunk,
    done: bool,
)
    requires
        r0.wf(),
        tree_shaped(r0.table_words(), root),
        init_user_pages(r0, root, chunks, None),
        chunks.len() * 4096 < USER_HEAP_START - USER_CODE_BASE,
        is_frame(c.frame.0),
        !r0.is_allocated(c.frame.0),
        ra.is_allocated(c.frame.0),
        ra.ref_of(c.frame.0) == 1,
        ra.table_words() == r0.table_words(),
        forall|p: usize|
            #![trigger ra.ref_of(p)]
            #![trigger ra.is_allocated(p)]
            is_frame(p) && p != c.frame.0 ==> ra.ref_of(p) == r0.ref_of(p) && ra.is_allocated(p)
                == r0.is_allocated(p),
        map_effect(
            ra,
            r1,
            root,
            (USER_CODE_BASE + chunks.len() * 4096) as usize,
            spec_new_leaf(c.frame.0, code_flags()),
            done,
        ),
    ensures
        init_user_pages(r1, root, chunks.push(c), None),
{
    let n = chunks.push(c);
    let vaddr = (USER_CODE_BASE + chunks.len() * 4096) as usize;
    let w0 = r0.table_words();
    let w1 = r1.table_words();
    lemma_unallocated_outside(r0, root, c.frame.0);
    lemma_page_num(vaddr, vaddr);
    assert(vaddr % 4096 == 0);
    assert(page_base(vaddr) == vaddr);
    assert forall|i: int| 0 <= i < chunks.len() implies (#[trigger] chunks[i]).frame.0 != c.frame.0 by {
        assert(own_user_frame(r0, root, chunks[i].frame.0));
    }
    assert forall|i: int| 0 <= i < n.len() implies own_user_frame(r1, root, (#[trigger] n[i]).frame.0) by {
        let pa = n[i].frame.0;
        if i < chunks.len() {
            assert(n[i] == chunks[i]);
            assert(own_user_frame(r0, root, pa));
            assert(pa != c.frame.0);
        }
        assert(ra.is_allocated(pa));
        assert(ra.ref_of(pa) == 1);
        assert(outside_tree(ra.table_words(), root, pa));
        assert(r1.is_allocated(pa));
    }
    assert forall|i: int, j: int| 0 <= i < j < n.len() implies (#[trigger] n[i]).frame != (#[trigger] n[j]).frame by {
        if j < chunks.len() {
            assert(n[i] == chunks[i] && n[j] == chunks[j]);
        } else {
            assert(n[i] == chunks[i]);
            assert(chunks[i].frame.0 != c.frame.0);
        }
    }
    assert forall|va: usize|
        valid_entry(w1, root, va) is Some && valid_entry(w1, root, va)->Some_0 & PTE_U != 0 implies init_user_entry(
        n,
        None,
        va,
        #[trigger] valid_entry(w1, root, va)->Some_0,
    ) by {
        lemma_page_num(va, vaddr);
        if done && same_page(va, vaddr) {
            assert(lookup_entry(w1, root, va) == Some(spec_new_leaf(c.frame.0, code_flags())));
            assert(page_base(va) == vaddr);
            assert((page_base(va) - USER_CODE_BASE) / 4096 == chunks.len());
        } else {
            assert(valid_entry(w1, root, va) == valid_entry(w0, root, va));
            let k = (page_base(va) - USER_CODE_BASE) / 4096;
            if USER_CODE_BASE <= page_base(va) < USER_CODE_BASE + chunks.len() * 4096 {
                assert(0 <= k < chunks.len());
                assert(n[k] == chunks[k]);
            }
        }
    }
}

/// Mapping the stack page to a fresh frame completes init's user pages.
proof fn lemma_init_pages_stack_map(
    r0: Ram,
    ra: Ram,
    r1: Ram,
    root: usize,
    chunks: Seq<CodeChunk>,
    s: usize,
    done: bool,
)
    requires
        r0.wf(),
        tree_shaped(r0.table_words(), root),
        init_user_pages(r0, root, chunks, None),
        chunks.len() * 4096 <= USER_HEAP_START - USER_CODE_BASE,
        is_frame(s),
        !r0.is_allocated(s),
        ra.is_allocated(s),
        ra.ref_of(s) == 1,
        ra.table_words() == r0.table_words(),
        forall|p: usize|
            #![trigger ra.ref_of(p)]
            #![trigger ra.is_allocated(p)]
            is_frame(p) && p != s ==> ra.ref_of(p) == r0.ref_of(p) && ra.is_allocated(p) == r0.is_allocated(p),
        map_effect(ra, r1, root, USER_STACK_PAGE, spec_new_leaf(s, stack_flags()), done),
    ensures
        init_user_pages(r1, root, chunks, Some(s)),
{
    let w0 = r0.table_words();
    let w1 = r1.table_words();
    lemma_unallocated_outside(r0, root, s);
    lemma_page_num(USER_STACK_PAGE, USER_STACK_PAGE);
    assert forall|i: int| 0 <= i < chunks.len() implies (#[trigger] chunks[i]).frame.0 != s by {
        assert(own_user_frame(r0, root, chunks[i].frame.0));
    }
    assert forall|i: int| 0 <= i < chunks.len() implies own_user_frame(r1, root, (#[trigger] chunks[i]).frame.0) by {
        let pa = chunks[i].frame.0;
        assert(own_user_frame(r0, root, pa));
        assert(ra.is_allocated(pa));
        assert(r1.is_allocated(pa));
    }
    assert(r1.is_allocated(s));
    assert forall|va: usize|
        valid_entry(w1, root, va) is Some && valid_entry(w1, root, va)->Some_0 & PTE_U != 0 implies init_user_entry(
        chunks,
        Some(s),
        va,
        #[trigger] valid_entry(w1, root, va)->Some_0,
    ) by {
        lemma_page_num(va, USER_STACK_PAGE);
        if done && same_page(va, USER_STACK_PAGE) {
            assert(lookup_entry(w1, root, va) == Some(spec_new_leaf(s, stack_flags())));
        } else {
            assert(valid_entry(w1, root, va) == valid_entry(w0, root, va));
        }
    }
}

/// Init's user pages, each with a frame of its own, are counted.
proof fn lemma_init_pages_counted(ram: Ram, root: usize, chunks: Seq<CodeChunk>, s: usize)
    requires
        init_user_pages(ram, root, chunks, Some(s)),
        chunks.len() * 4096 <= USER_HEAP_START - USER_CODE_BASE,
    ensures
        frames_counted(ram, root, 0, USER_SPACE_TOP as int),
{
    let w = ram.table_words();
    assert forall|va: usize| #[trigger] user_frame_at(w, root, va) is Some implies {
        &&& init_user_entry(chunks, Some(s), va, lookup_entry(w, root, va)->Some_0)
        &&& (user_frame_at(w, root, va) == Some(s) && page_base(va) == USER_STACK_PAGE) || (USER_CODE_BASE
            <= page_base(va) < USER_CODE_BASE + chunks.len() * 4096 && user_frame_at(w, root, va)
            == Some(chunks[(page_base(va) - USER_CODE_BASE) / 4096].frame.0))
    } by {
        let e = lookup_entry(w, root, va)->Some_0;
        assert(valid_entry(w, root, va) == Some(e));
        if page_base(va) == USER_STACK_PAGE && e == spec_new_leaf(s, stack_flags()) {
            assert(own_user_frame(ram, root, s));
            crate::mm::page_table::lemma_leaf_entry(s, stack_flags());
        } else {
            let k = (page_base(va) - USER_CODE_BASE) / 4096;
            assert(own_user_frame(ram, root, chunks[k].frame.0));
            crate::mm::page_table::lemma_leaf_entry(chunks[k].frame.0, code_flags());
        }
    }
    assert forall|va: usize|
        #![trigger user_frame_at(w, root, va)]
        page_in(va, 0, USER_SPACE_TOP as int) && user_frame_at(w, root, va) is Some implies {
        let pa = user_frame_at(w, root, va)->Some_0;
        &&& is_frame(pa)
        &&& ram.ref_of(pa) >= 1
        &&& (ram.ref_of(pa) == 1 ==> ram.is_allocated(pa))
        &&& outside_tree(w, root, pa)
    } by {
        if user_frame_at(w, root, va) != Some(s) {
            let k = (page_base(va) - USER_CODE_BASE) / 4096;
            assert(own_user_frame(ram, root, chunks[k].frame.0));
        }
    }
    assert forall|va1: usize, va2: usize|
        #![trigger user_frame_at(w, root, va1), user_frame_at(w, root, va2)]
        page_in(va1, 0, USER_SPACE_TOP as int) && page_in(va2, 0, USER_SPACE_TOP as int) && page_num(va1)
            != page_num(va2) && user_frame_at(w, root, va1) is Some implies user_frame_at(w, root, va1)
        != user_frame_at(w, root, va2) by {
        if user_frame_at(w, root, va2) is Some {
            let k1 = (page_base(va1) - USER_CODE_BASE) / 4096;
            let k2 = (page_base(va2) - USER_CODE_BASE) / 4096;
            lemma_page_num(va1, va2);
            let s1 = user_frame_at(w, root, va1) == Some(s) && page_base(va1) == USER_STACK_PAGE;
            let s2 = user_frame_at(w, root, va2) == Some(s) && page_base(va2) == USER_STACK_PAGE;
            if !s1 && !s2 {
                assert(k1 != k2);
                if k1 < k2 {
                    assert(chunks[k1].frame != chunks[k2].frame);
                } else {
                    assert(chunks[k2].frame != chunks[k1].frame);
                }
            } else if !s1 {
                assert(chunks[k1].frame.0 != s);
            } else if !s2 {
                assert(chunks[k2].frame.0 != s);
            }
        }
    }
}

/// The booted kernel: its state with the init process running, the pieces
/// of the program to copy into the code frames, and the `satp` value of
/// init's page table.
pub struct Booted {
    pub kernel: Kernel,
    pub chunks: Vec<CodeChunk>,
    pub satp: usize,
}

/// Flags of the UART mapping: readable, writable, kernel only.
pub open spec fn uart_flags() -> u8 {
    spec_flag_bits(true, true, false, false)
}

/// Flags of the user code pages: readable, executable, user.
pub open spec fn code_flags() -> u8 {
    spec_flag_bits(true, false, true, true)
}

/// Flags of the user stack page: readable, writable, user.
pub open spec fn stack_flags() -> u8 {
    spec_flag_bits(true, true, false, true)
}

/// `n` pages hold `len` bytes.
pub open spec fn pages_for(len: int) -> int {
    (len + 4095) / 4096
}

/// RAM above a kernel image ending at `kernel_end` has room for the boot
/// sequence with a program of `prog_len` bytes: three frames for each page
/// of the identity mapping and of the program (the page itself, or tables),
/// and some to spare for the UART, the stack and the kernel stack.
pub open spec fn boot_room(kernel_end: usize, prog_len: usize) -> bool {
    3 * pages_for(kernel_end - RAM_BASE) + 3 * pages_for(prog_len as int) + 16 <= NUM_FRAMES
}

/// What the boot sequence sets up in `b` for a kernel image ending at
/// `kernel_end` and a program of `prog_len` bytes.
pub open spec fn booted(b: Booted, kernel_end: usize, prog_len: usize) -> bool {
    let k = b.kernel;
    let init = k.sched.cur();
    let root = init.page_table.root.0;
    let w = k.ram.table_words();
    let chunks = b.chunks@;
    &&& k.wf()
    &&& k.user_counted()
    &&& k.sched.current == 0
    &&& k.sched.next_pid == 2
    &&& forall|i: int| 1 <= i < MAX_PROCESSES ==> #[trigger] k.sched.procs@[i] is None
    &&& init.pid == 1
    &&& init.parent_pid == 0
    &&& init.state == ProcessState::Running
    &&& init.trap_frame.regs@ == initial_regs(USER_STACK_TOP)
    &&& init.trap_frame.sstatus == SSTATUS_SPIE
    &&& init.trap_frame.sepc == USER_CODE_BASE
    &&& init.trap_frame.scause == 8
    &&& init.trap_frame.stval == 0
    &&& init.kernel_sp == init.kernel_stack_frame.0 + KERNEL_STACK_SIZE
    &&& init.heap_start == USER_HEAP_START
    &&& init.heap_end == USER_HEAP_START
    &&& forall|i: int|
        0 <= i < MAX_MMAP_AREAS ==> #[trigger] init.mmap_areas@[i] == (MmapArea {
            start: 0,
            len: 0,
            prot: 0,
            flags: 0,
            used: false,
        })
    &&& b.satp == spec_satp(root)
    &&& chunks.len() == pages_for(prog_len as int)
    &&& forall|i: int|
        0 <= i < chunks.len() ==> {
            &&& (#[trigger] chunks[i]).offset == i * 4096
            &&& chunks[i].len == if prog_len - i * 4096 < 4096 {
                prog_len - i * 4096
            } else {
                4096
            }
            &&& k.ram.is_allocated(chunks[i].frame.0)
        }
    &&& frames_available(k.ram) >= 2 ==> {
        &&& forall|pa: usize|
            identity_step(RAM_BASE as int, kernel_end as int, pa as int) ==> #[trigger] translate(
                w,
                root,
                pa,
            ) == Some(spec_new_leaf(pa, kernel_flags()))
        &&& translate(w, root, UART_BASE) == Some(spec_new_leaf(UART_BASE, uart_flags()))
        &&& forall|i: int|
            0 <= i < chunks.len() ==> translate(w, root, (USER_CODE_BASE + i * 4096) as usize)
                == Some(spec_new_leaf((#[trigger] chunks[i]).frame.0, code_flags()))
        &&& translate(w, root, USER_STACK_PAGE) matches Some(e) && e == spec_new_leaf(
            spec_ppn_to_addr(e),
            stack_flags(),
        ) && k.ram.is_allocated(spec_ppn_to_addr(e))
    }
}

/// A flag byte with V and one of R, W, X makes a leaf.
proof fn lemma_leaf_byte(f: u8)
    requires
        f & 1u8 == 1u8,
        f & 14u8 != 0,
    ensures
        (f as u64) & 1u64 != 0,
        (f as u64) & 0xeu64 != 0,
{
    assert((f as u64) & 1u64 != 0 && (f as u64) & 0xeu64 != 0) by (bit_vector)
        requires
            f & 1u8 == 1u8,
            f & 14u8 != 0,
    ;
}

/// Two addresses below 512 GiB in different pages.
proof fn lemma_other_page(a: usize, b: usize)
    requires
        a < 0x80_0000_0000,
        b < 0x80_0000_0000,
        a / 4096 != b / 4096,
    ensures
        !same_page(a, b),
{
    lemma_page_num(a, b);
    lemma_page_num_low(a);
    lemma_page_num_low(b);
}

/// The boot sequence: frames above the kernel image go to the allocator;
/// the init process gets a page table with the kernel's identity mapping of
/// RAM up to `kernel_end`, the UART, code pages for a program of
/// `prog_len` bytes, and a stack page; a kernel stack; and the first slot
/// of the process table. `None` when RAM has no frame left for one of these.
#[verifier::spinoff_prover]
#[verifier::rlimit(60)]
pub fn boot(kernel_end: PhysAddr, prog_len: usize) -> (r: Option<Booted>)
    requires
        RAM_BASE <= kernel_end.0 <= RAM_END,
        prog_len <= USER_HEAP_START - USER_CODE_BASE,
    ensures
        r matches Some(b) ==> booted(b, kernel_end.0, prog_len),
        boot_room(kernel_end.0, prog_len) ==> (r matches Some(b) && frames_available(b.kernel.ram) >= 2),
{
    let mut ram = Ram::frame_init(kernel_end);
    let ghost room = boot_room(kernel_end.0, prog_len);
    let ghost n_id = pages_for(kernel_end.0 - RAM_BASE);
    let ghost n_code = pages_for(prog_len as int);
    proof {
        let ke = kernel_end.0 as int;
        assert(ram.next_frame == ((ke + 4095) / 4096) * 4096);
        assert(n_id == (ke - RAM_BASE + 4095) / 4096);
        assert(ram.next_frame == RAM_BASE + n_id * 4096) by (nonlinear_arith)
            requires
                ram.next_frame == ((ke + 4095) / 4096) * 4096,
                n_id == (ke - RAM_BASE + 4095) / 4096,
                RAM_BASE == 0x8000_0000,
                ke >= RAM_BASE,
        ;
        if ram.next_frame < RAM_END {
            assert((RAM_END - ram.next_frame) / 4096 == NUM_FRAMES - n_id) by (nonlinear_arith)
                requires
                    ram.next_frame == RAM_BASE + n_id * 4096,
                    RAM_END == RAM_BASE + NUM_FRAMES * 4096,
            ;
        }
        assert(identity_pages(RAM_BASE as int, ke) == n_id);
    }
    if ram.next_frame >= RAM_END {
        return None;
    }
    let ghost f0 = frames_available(ram);
    let (pt, satp) = init_kernel(&mut ram, PhysAddr(RAM_BASE), kernel_end);
    let root = pt.root.0;
    let ghost mut ok: bool = frames_available(ram) >= 2;
    let ghost r1 = ram;
    let uart_flags_v = PTEFlags::new(true, true, false, false);
    let ok_uart = pt.map(&mut ram, VirtAddr(UART_BASE), PhysAddr(UART_BASE), uart_flags_v);
    let ghost f2 = frames_available(ram);
    proof {
        assert(room ==> f2 >= 3 * n_code + 13);
        assert(ram.free_list@.len() == 0);
        assert(init_user_pages(r1, root, Seq::<CodeChunk>::empty(), None));
        lemma_leaf_user_bit(UART_BASE, uart_flags());
        lemma_flag_bits(true, true, false, false);
        assert(map_effect(r1, ram, root, UART_BASE, spec_new_leaf(UART_BASE, uart_flags()), ok_uart));
        lemma_init_pages_kernel_map(
            r1,
            ram,
            root,
            Seq::<CodeChunk>::empty(),
            None,
            UART_BASE,
            spec_new_leaf(UART_BASE, uart_flags()),
            ok_uart,
        );
    }
    proof {
        lemma_leaf_flags(UART_BASE, uart_flags());
        lemma_flag_bits(true, true, false, false);
        lemma_leaf_byte(uart_flags());
        if ok && ok_uart {
            assert forall|pa: usize|
                identity_step(RAM_BASE as int, kernel_end.0 as int, pa as int) implies #[trigger] translate(
                ram.table_words(),
                root,
                pa,
            ) == Some(spec_new_leaf(pa, kernel_flags())) by {
                lemma_other_page(pa, UART_BASE);
            }
        }
        ok = ok && ok_uart;
    }
    let mut chunks: Vec<CodeChunk> = Vec::new();
    let mut copied: usize = 0;
    let code_flags_v = PTEFlags::new(true, false, true, true);
    proof {
        lemma_leaf_flags(0, code_flags());
        lemma_flag_bits(true, false, true, true);
    }
    while copied < prog_len
        invariant
            ram.wf(),
            tree_shaped(ram.table_words(), root),
            pt.root.0 == root,
            satp == spec_satp(root),
            code_flags_v.0 == code_flags(),
            copied % 4096 == 0,
            copied <= prog_len + 4095,
            prog_len <= USER_HEAP_START - USER_CODE_BASE,
            RAM_BASE <= kernel_end.0 <= RAM_END,
            chunks@.len() == copied / 4096,
            forall|i: int|
                0 <= i < chunks@.len() ==> {
                    &&& (#[trigger] chunks@[i]).offset == i * 4096
                    &&& chunks@[i].len == if prog_len - i * 4096 < 4096 {
                        prog_len - i * 4096
                    } else {
                        4096
                    }
                    &&& ram.is_allocated(chunks@[i].frame.0)
                },
            !ok ==> frames_available(ram) < 2,
            ok ==> {
                &&& forall|pa: usize|
                    identity_step(RAM_BASE as int, kernel_end.0 as int, pa as int) ==> #[trigger] translate(
                        ram.table_words(),
                        root,
                        pa,
                    ) == Some(spec_new_leaf(pa, kernel_flags()))
                &&& translate(ram.table_words(), root, UART_BASE) == Some(spec_new_leaf(UART_BASE, uart_flags()))
                &&& forall|i: int|
                    0 <= i < chunks@.len() ==> translate(ram.table_words(), root, (USER_CODE_BASE + i * 4096) as usize)
                        == Some(spec_new_leaf((#[trigger] chunks@[i]).frame.0, code_flags()))
            },
            room == boot_room(kernel_end.0, prog_len),
            room ==> f2 >= 3 * n_code + 13,
            n_code == pages_for(prog_len as int),
            ram.free_list@.len() == 0,
            frames_available(ram) + 3 * (copied / 4096) >= f2,
            init_user_pages(ram, root, chunks@, None),
        decreases prog_len + 4096 - copied,
    {
        proof {
            assert(copied / 4096 < n_code) by (nonlinear_arith)
                requires
                    copied < prog_len,
                    copied % 4096 == 0,
                    n_code == (prog_len + 4095) / 4096,
            ;
        }
        let ghost fb = frames_available(ram);
        let ghost rb = ram;
        let code_page = match ram.alloc_frame() {
            Some(f) => f,
            None => {
                proof {
                    assert(fb == 0);
                    assert(!room);
                }
                return None;
            },
        };
        let ghost ra = ram;
        let chunk = if prog_len - copied < 4096 {
            prog_len - copied
        } else {
            4096
        };
        let va = USER_CODE_BASE + copied;
        let done = pt.map(&mut ram, VirtAddr(va), code_page, code_flags_v);
        proof {
            lemma_leaf_flags(code_page.0, code_flags());
            lemma_flag_bits(true, false, true, true);
            lemma_leaf_byte(code_flags());
            assert(crate::mm::page_table::pte_leaf(spec_new_leaf(code_page.0, code_flags())));
            assert(ram.is_allocated(code_page.0));
            if ok && done {
                assert forall|pa: usize|
                    identity_step(RAM_BASE as int, kernel_end.0 as int, pa as int) implies #[trigger] translate(
                    ram.table_words(),
                    root,
                    pa,
                ) == Some(spec_new_leaf(pa, kernel_flags())) by {
                    lemma_other_page(pa, va);
                }
                lemma_other_page(UART_BASE, va);
                assert forall|i: int|
                    0 <= i < chunks@.len() implies translate(ram.table_words(), root, (USER_CODE_BASE + i * 4096) as usize)
                    == Some(spec_new_leaf((#[trigger] chunks@[i]).frame.0, code_flags())) by {
                    lemma_other_page((USER_CODE_BASE + i * 4096) as usize, va);
                }
            }
            ok = ok && done;
        }
        proof {
            assert(va == (USER_CODE_BASE + chunks@.len() * 4096) as usize);
            assert(map_effect(ra, ram, root, va, spec_new_leaf(code_page.0, code_flags()), done));
            lemma_init_pages_code_map(
                rb,
                ra,
                ram,
                root,
                chunks@,
                CodeChunk { frame: code_page, offset: copied, len: chunk },
                done,
            );
        }
        chunks.push(CodeChunk { frame: code_page, offset: copied, len: chunk });
        proof {
            let last = chunks@.len() - 1;
            assert((USER_CODE_BASE + last * 4096) as usize == va);
            if ok {
                assert(translate(ram.table_words(), root, va) == Some(spec_new_leaf(code_page.0, code_flags())));
            }
            assert forall|i: int| 0 <= i < chunks@.len() implies {
                &&& (#[trigger] chunks@[i]).offset == i * 4096
                &&& chunks@[i].len == if prog_len - i * 4096 < 4096 {
                    prog_len - i * 4096
                } else {
                    4096
                }
                &&& ram.is_allocated(chunks@[i].frame.0)
            } by {
                if i < chunks@.len() - 1 {
                    assert(ra.is_allocated(chunks@[i].frame.0));
                }
            }
        }
        proof {
            assert((copied + 4096) / 4096 == copied / 4096 + 1) by (nonlinear_arith)
                requires
                    copied % 4096 == 0,
            ;
        }
        copied = copied + 4096;
    }
    proof {
        assert(copied / 4096 == n_code) by (nonlinear_arith)
            requires
                copied >= prog_len,
                copied <= prog_len + 4095,
                copied % 4096 == 0,
                n_code == (prog_len + 4095) / 4096,
        ;
    }
    let ghost fs = frames_available(ram);
    let ghost rsb = ram;
    let stack_page = match ram.alloc_frame() {
        Some(f) => f,
        None => {
            proof {
                assert(fs == 0);
                assert(!room);
            }
            return None;
        },
    };
    let ghost rs = ram;
    let stack_flags_v = PTEFlags::new(true, true, false, true);
    let done = pt.map(&mut ram, VirtAddr(USER_STACK_PAGE), stack_page, stack_flags_v);
    proof {
        lemma_leaf_flags(stack_page.0, stack_flags());
        lemma_flag_bits(true, true, false, true);
        lemma_leaf_byte(stack_flags());
        crate::mm::page_table::lemma_leaf_entry(stack_page.0, stack_flags());
        if ok && done {
            assert forall|pa: usize|
                identity_step(RAM_BASE as int, kernel_end.0 as int, pa as int) implies #[trigger] translate(
                ram.table_words(),
                root,
                pa,
            ) == Some(spec_new_leaf(pa, kernel_flags())) by {
                lemma_other_page(pa, USER_STACK_PAGE);
            }
            lemma_other_page(UART_BASE, USER_STACK_PAGE);
            assert forall|i: int|
                0 <= i < chunks@.len() implies translate(ram.table_words(), root, (USER_CODE_BASE + i * 4096) as usize)
                == Some(spec_new_leaf((#[trigger] chunks@[i]).frame.0, code_flags())) by {
                lemma_other_page((USER_CODE_BASE + i * 4096) as usize, USER_STACK_PAGE);
            }
        }
        ok = ok && done;
        assert forall|i: int| 0 <= i < chunks@.len() implies ram.is_allocated((#[trigger] chunks@[i]).frame.0) by {
            assert(rs.is_allocated(chunks@[i].frame.0));
        }
        assert(map_effect(rs, ram, root, USER_STACK_PAGE, spec_new_leaf(stack_page.0, stack_flags()), done));
        lemma_init_pages_stack_map(rsb, rs, ram, root, chunks@, stack_page.0, done);
    }
    let ghost rk = ram;
    proof {
        assert(room ==> frames_available(ram) >= 10);
        assert(ram.free_list@.len() == 0);
        if room {
            assert(ram.next_frame + KERNEL_STACK_PAGES * 4096 <= RAM_END);
        }
    }
    let kernel_stack = match ram.alloc_contiguous_frames(KERNEL_STACK_PAGES) {
        Some(s) => s,
        None => {
            return None;
        },
    };
    proof {
        if room {
            assert(frames_available(ram) >= 2);
        }
        assert(init_user_pages(ram, root, chunks@, Some(stack_page.0))) by {
            let n = spec_frame_index(rk.next_frame);
            assert forall|i: int| 0 <= i < chunks@.len() implies own_user_frame(
                ram,
                root,
                (#[trigger] chunks@[i]).frame.0,
            ) by {
                let pa = chunks@[i].frame.0;
                assert(own_user_frame(rk, root, pa));
                assert(spec_frame_index(pa) < n);
                assert(ram.refs@[spec_frame_index(pa)] == rk.refs@[spec_frame_index(pa)]);
            }
            assert(own_user_frame(rk, root, stack_page.0));
            assert(spec_frame_index(stack_page.0) < n);
            assert(ram.refs@[spec_frame_index(stack_page.0)] == rk.refs@[spec_frame_index(stack_page.0)]);
        }
        lemma_init_pages_counted(ram, root, chunks@, stack_page.0);
    }
    proof {
        assert forall|i: int| 0 <= i < chunks@.len() implies ram.is_allocated((#[trigger] chunks@[i]).frame.0) by {
            assert(rk.is_allocated(chunks@[i].frame.0));
        }
        assert(ram.is_allocated(stack_page.0)) by {
            assert(rk.is_allocated(stack_page.0));
        }
        if !ok {
            assert(frames_available(rk) < 2);
        }
    }
    let kernel_sp = kernel_stack.0 + KERNEL_STACK_SIZE;
    let mut sched = Scheduler::new();
    let pid = sched.alloc_pid();
    let e = MmapArea::empty();
    let areas = [e; 32];
    let init = Process {
        pid,
        parent_pid: 0,
        state: ProcessState::Running,
        page_table: pt,
        trap_frame: TrapFrame::new_user(USER_CODE_BASE, USER_STACK_TOP),
        kernel_sp,
        kernel_stack_frame: kernel_stack,
        heap_start: USER_HEAP_START,
        heap_end: USER_HEAP_START,
        mmap_areas: areas,
    };
    sched.install(0, init);
    proof {
        assert(areas_wf(init.mmap_areas@)) by {
            assert forall|i: int| 0 <= i < MAX_MMAP_AREAS implies #[trigger] init.mmap_areas@[i] == e by {}
        }
    }
    let b = Booted { kernel: Kernel { ram, sched }, chunks, satp };
    proof {
        b.kernel.lemma_user_counted();
        let w = b.kernel.ram.table_words();
        if frames_available(b.kernel.ram) >= 2 {
            assert(ok);
            assert(translate(w, root, USER_STACK_PAGE) == Some(spec_new_leaf(stack_page.0, stack_flags())));
        }
    }
    Some(b)
}

} // verus!
