//! Sv39 page tables: entry and flag encodings, the three-level walk, map,
//! unmap and lookup, and the identity map of the kernel.
use vstd::prelude::*;

use crate::mm::frame::{
    holds_table, is_frame, pte_word, spec_frame_index, zero_table, Ram, ENTRIES_PER_TABLE,
    NUM_FRAMES, RAM_BASE, RAM_END,
};

verus! {

/// A physical address.
#[derive(Clone, Copy, PartialEq, Eq, Structural, Debug)]
pub struct PhysAddr(pub usize);

/// A virtual address.
#[derive(Clone, Copy, PartialEq, Eq, Structural, Debug)]
pub struct VirtAddr(pub usize);

/// A page-table entry.
#[derive(Clone, Copy, PartialEq, Eq, Structural, Debug)]
pub struct PTEntry(pub u64);

/// The flag bits of a page-table entry (V, R, W, X, U in bits 0 to 4).
#[derive(Clone, Copy, PartialEq, Eq, Structural, Debug)]
pub struct PTEFlags(pub u8);

/// Bit positions of the flags within an entry.
pub const V_BIT: u8 = 0;

pub const R_BIT: u8 = 1;

pub const W_BIT: u8 = 2;

pub const X_BIT: u8 = 3;

pub const U_BIT: u8 = 4;

/// Entry masks.
pub const PTE_V: u64 = 0x1;

pub const PTE_R: u64 = 0x2;

pub const PTE_W: u64 = 0x4;

pub const PTE_X: u64 = 0x8;

pub const PTE_U: u64 = 0x10;

/// Copy-on-write marker, kept in the first bit reserved for software (RSW).
pub const PTE_COW: u64 = 0x100;

/// The first root-table index of the kernel's half of every address space:
/// root entries from here on are shared by all processes.
pub const KERNEL_VPN2_MIN: usize = 2;

// ─── entry encoding ───

pub open spec fn spec_new_table(pa: usize) -> u64 {
    (((pa >> 12usize) << 10usize) as u64) | 1u64
}

pub open spec fn spec_new_leaf(pa: usize, flags: u8) -> u64 {
    (((pa >> 12usize) << 10usize) as u64) | (flags as u64)
}

pub open spec fn spec_ppn_to_addr(e: u64) -> usize {
    (((e >> 10u64) & 0xFFFF_FFFF_FFFFu64) as usize) << 12usize
}

pub open spec fn pte_valid(e: u64) -> bool {
    e & 1u64 != 0
}

/// A valid entry with one of R, W, X set: it maps a page rather than
/// pointing to the next table.
pub open spec fn pte_leaf(e: u64) -> bool {
    e & 1u64 != 0 && e & 0xeu64 != 0
}

pub open spec fn spec_flag_bits(r: bool, w: bool, x: bool, u: bool) -> u8 {
    (1u8 | (if r {
        2u8
    } else {
        0u8
    }) | (if w {
        4u8
    } else {
        0u8
    }) | (if x {
        8u8
    } else {
        0u8
    }) | (if u {
        16u8
    } else {
        0u8
    })) as u8
}

/// Physical addresses that an entry can hold (the 44-bit Sv39 PPN).
pub open spec fn encodable(pa: usize) -> bool {
    pa % 4096 == 0 && pa < 0x100_0000_0000_0000
}

/// A table entry for an encodable address decodes back to that address, is
/// valid and is no leaf.
pub proof fn lemma_table_entry(pa: usize)
    requires
        encodable(pa),
    ensures
        spec_ppn_to_addr(spec_new_table(pa)) == pa,
        pte_valid(spec_new_table(pa)),
        !pte_leaf(spec_new_table(pa)),
        spec_new_table(pa) & 0x10u64 == 0,
        spec_new_table(pa) & 0x100u64 == 0,
{
    assert(spec_ppn_to_addr(spec_new_table(pa)) == pa) by (bit_vector)
        requires
            pa % 4096 == 0,
            pa < 0x100_0000_0000_0000,
    ;
    assert(pte_valid(spec_new_table(pa)) && !pte_leaf(spec_new_table(pa)) && spec_new_table(pa)
        & 0x10u64 == 0 && spec_new_table(pa) & 0x100u64 == 0) by (bit_vector);
}

/// A leaf entry for an encodable address decodes back to that address and
/// carries exactly the given flag bits in its low byte.
pub proof fn lemma_leaf_entry(pa: usize, flags: u8)
    requires
        encodable(pa),
    ensures
        spec_ppn_to_addr(spec_new_leaf(pa, flags)) == pa,
        spec_new_leaf(pa, flags) & 0xffu64 == flags as u64,
        spec_new_leaf(pa, flags) & 0x100u64 == 0,
{
    assert(spec_ppn_to_addr(spec_new_leaf(pa, flags)) == pa) by (bit_vector)
        requires
            pa % 4096 == 0,
            pa < 0x100_0000_0000_0000,
    ;
    assert(spec_new_leaf(pa, flags) & 0xffu64 == flags as u64 && spec_new_leaf(pa, flags)
        & 0x100u64 == 0) by (bit_vector);
}

/// The flag byte built from (r, w, x, u) always has V set and has R, W, X, U
/// set exactly as asked.
pub proof fn lemma_flag_bits(r: bool, w: bool, x: bool, u: bool)
    ensures
        spec_flag_bits(r, w, x, u) & 1u8 == 1u8,
        (spec_flag_bits(r, w, x, u) & 2u8 != 0) == r,
        (spec_flag_bits(r, w, x, u) & 4u8 != 0) == w,
        (spec_flag_bits(r, w, x, u) & 8u8 != 0) == x,
        (spec_flag_bits(r, w, x, u) & 16u8 != 0) == u,
        spec_flag_bits(r, w, x, u) < 32,
        (spec_flag_bits(r, w, x, u) & 14u8 != 0) == (r || w || x),
{
    assert(spec_flag_bits(r, w, x, u) & 1u8 == 1u8 && (spec_flag_bits(r, w, x, u) & 2u8 != 0) == r
        && (spec_flag_bits(r, w, x, u) & 4u8 != 0) == w && (spec_flag_bits(r, w, x, u) & 8u8 != 0)
        == x && (spec_flag_bits(r, w, x, u) & 16u8 != 0) == u && spec_flag_bits(r, w, x, u) < 32
        && (spec_flag_bits(r, w, x, u) & 14u8 != 0) == (r || w || x)) by (bit_vector);
}

impl PTEntry {
    /// An invalid entry.
    pub fn empty() -> (r: Self)
        ensures
            r.0 == 0,
            !pte_valid(r.0),
    {
        assert(!pte_valid(0u64)) by (bit_vector);
        PTEntry(0)
    }

    /// An entry that points to the next-level table at `paddr`.
    pub fn new_table(paddr: PhysAddr) -> (r: Self)
        ensures
            r.0 == spec_new_table(paddr.0),
    {
        let ppn = paddr.0 >> 12;
        PTEntry(((ppn << 10) as u64) | 1u64)
    }

    /// An entry that maps the page at `paddr` with `flags`.
    pub fn new_leaf(paddr: PhysAddr, flags: PTEFlags) -> (r: Self)
        ensures
            r.0 == spec_new_leaf(paddr.0, flags.0),
    {
        let ppn = paddr.0 >> 12;
        PTEntry(((ppn << 10) as u64) | flags.into_u64())
    }

    pub fn is_valid(&self) -> (r: bool)
        ensures
            r == pte_valid(self.0),
    {
        self.0 & 1 != 0
    }

    pub fn is_r(&self) -> (r: bool)
        ensures
            r == (self.0 & PTE_R != 0),
    {
        self.0 & PTE_R != 0
    }

    pub fn is_w(&self) -> (r: bool)
        ensures
            r == (self.0 & PTE_W != 0),
    {
        self.0 & PTE_W != 0
    }

    pub fn is_x(&self) -> (r: bool)
        ensures
            r == (self.0 & PTE_X != 0),
    {
        self.0 & PTE_X != 0
    }

    pub fn is_u(&self) -> (r: bool)
        ensures
            r == (self.0 & PTE_U != 0),
    {
        self.0 & PTE_U != 0
    }

    pub fn is_cow(&self) -> (r: bool)
        ensures
            r == (self.0 & PTE_COW != 0),
    {
        self.0 & PTE_COW != 0
    }

    /// The physical address that the entry points to.
    pub fn ppn_to_addr(&self) -> (r: PhysAddr)
        ensures
            r.0 == spec_ppn_to_addr(self.0),
    {
        PhysAddr((((self.0 >> 10) & 0xFFFF_FFFF_FFFF) as usize) << 12)
    }

    /// The flag byte of the entry.
    pub fn flags(&self) -> (r: PTEFlags)
        ensures
            r.0 == (self.0 & 0xffu64) as u8,
    {
        PTEFlags((self.0 & 0xff) as u8)
    }

    /// Sets or clears W.
    pub fn set_w(&mut self, w: bool)
        ensures
            final(self).0 == if w {
                old(self).0 | PTE_W
            } else {
                old(self).0 & !PTE_W
            },
    {
        if w {
            self.0 = self.0 | PTE_W;
        } else {
            self.0 = self.0 & !PTE_W;
        }
    }

    /// Clears W.
    pub fn clear_w(&mut self)
        ensures
            final(self).0 == old(self).0 & !PTE_W,
    {
        self.0 = self.0 & !PTE_W;
    }

    /// Marks the entry copy-on-write.
    pub fn set_cow(&mut self)
        ensures
            final(self).0 == old(self).0 | PTE_COW,
    {
        self.0 = self.0 | PTE_COW;
    }

    /// Clears the copy-on-write mark.
    pub fn clear_cow(&mut self)
        ensures
            final(self).0 == old(self).0 & !PTE_COW,
    {
        self.0 = self.0 & !PTE_COW;
    }
}

impl PTEFlags {
    /// Flags with V set and R, W, X, U as given.
    pub fn new(r: bool, w: bool, x: bool, u: bool) -> (f: Self)
        ensures
            f.0 == spec_flag_bits(r, w, x, u),
            f.0 & 1u8 == 1u8,
            (f.0 & 2u8 != 0) == r,
            (f.0 & 4u8 != 0) == w,
            (f.0 & 8u8 != 0) == x,
            (f.0 & 16u8 != 0) == u,
            (f.0 & 14u8 != 0) == (r || w || x),
    {
        let rr: u8 = if r { 1u8 << R_BIT } else { 0u8 };
        let ww: u8 = if w { 1u8 << W_BIT } else { 0u8 };
        let xx: u8 = if x { 1u8 << X_BIT } else { 0u8 };
        let uu: u8 = if u { 1u8 << U_BIT } else { 0u8 };
        assert((1u8 << 0u8) == 1u8 && (1u8 << 1u8) == 2u8 && (1u8 << 2u8) == 4u8 && (1u8 << 3u8)
            == 8u8 && (1u8 << 4u8) == 16u8) by (bit_vector);
        let f: u8 = (1u8 << V_BIT) | rr | ww | xx | uu;
        proof {
            lemma_flag_bits(r, w, x, u);
        }
        PTEFlags(f)
    }

    pub fn into_u64(self) -> (r: u64)
        ensures
            r == self.0 as u64,
    {
        self.0 as u64
    }

    pub fn is_r(&self) -> (r: bool)
        ensures
            r == (self.0 & 2u8 != 0),
    {
        self.0 & 2u8 != 0
    }

    pub fn is_w(&self) -> (r: bool)
        ensures
            r == (self.0 & 4u8 != 0),
    {
        self.0 & 4u8 != 0
    }

    pub fn is_x(&self) -> (r: bool)
        ensures
            r == (self.0 & 8u8 != 0),
    {
        self.0 & 8u8 != 0
    }

    pub fn is_u(&self) -> (r: bool)
        ensures
            r == (self.0 & 16u8 != 0),
    {
        self.0 & 16u8 != 0
    }
}

// ─── the abstract view of a page table ───

pub open spec fn spec_vpn2(va: usize) -> usize {
    (va >> 30usize) & 0x1ffusize
}

pub open spec fn spec_vpn1(va: usize) -> usize {
    (va >> 21usize) & 0x1ffusize
}

pub open spec fn spec_vpn0(va: usize) -> usize {
    (va >> 12usize) & 0x1ffusize
}

pub proof fn lemma_vpn_bounds(va: usize)
    ensures
        spec_vpn2(va) < 512,
        spec_vpn1(va) < 512,
        spec_vpn0(va) < 512,
{
    assert(spec_vpn2(va) < 512 && spec_vpn1(va) < 512 && spec_vpn0(va) < 512) by (bit_vector);
}

/// The table that entry `i` of the table at `table` points to, when the entry
/// is valid and its target holds a page table.
pub open spec fn next_table(words: Seq<Seq<u64>>, table: usize, i: int) -> Option<usize> {
    let e = pte_word(words, table, i);
    if holds_table(words, table) && pte_valid(e) && holds_table(words, spec_ppn_to_addr(e)) {
        Some(spec_ppn_to_addr(e))
    } else {
        None
    }
}

/// Where the walk from `root` finds the last-level entry for `va`: the
/// last-level table and the index in it.
pub open spec fn leaf_slot(words: Seq<Seq<u64>>, root: usize, va: usize) -> Option<(usize, int)> {
    match next_table(words, root, spec_vpn2(va) as int) {
        None => None,
        Some(t1) => match next_table(words, t1, spec_vpn1(va) as int) {
            None => None,
            Some(t0) => Some((t0, spec_vpn0(va) as int)),
        },
    }
}

/// The last-level entry for `va`, valid or not, when the walk reaches one.
pub open spec fn lookup_entry(words: Seq<Seq<u64>>, root: usize, va: usize) -> Option<u64> {
    match leaf_slot(words, root, va) {
        None => None,
        Some((t, i)) => Some(pte_word(words, t, i)),
    }
}

/// The leaf entry that maps the page of `va`, if any.
pub open spec fn translate(words: Seq<Seq<u64>>, root: usize, va: usize) -> Option<u64> {
    match lookup_entry(words, root, va) {
        Some(e) => if pte_leaf(e) {
            Some(e)
        } else {
            None
        },
        None => None,
    }
}

/// The last-level entry for `va` when it is valid.
pub open spec fn valid_entry(words: Seq<Seq<u64>>, root: usize, va: usize) -> Option<u64> {
    match lookup_entry(words, root, va) {
        Some(e) => if pte_valid(e) {
            Some(e)
        } else {
            None
        },
        None => None,
    }
}

/// Every table frame is well formed: no entry is left but the 512 words of a
/// table or nothing.
pub open spec fn words_wf(words: Seq<Seq<u64>>) -> bool {
    &&& words.len() == NUM_FRAMES
    &&& forall|i: int|
        0 <= i < NUM_FRAMES ==> (#[trigger] words[i].len() == 0 || words[i].len()
            == ENTRIES_PER_TABLE)
}

/// The zero word is neither valid nor a leaf.
pub proof fn lemma_zero_entry()
    ensures
        !pte_valid(0u64),
        !pte_leaf(0u64),
{
    assert(!pte_valid(0u64) && !pte_leaf(0u64)) by (bit_vector);
}

/// Two distinct frames have distinct indices.
pub proof fn lemma_frame_index_injective(a: usize, b: usize)
    requires
        is_frame(a),
        is_frame(b),
        a != b,
    ensures
        spec_frame_index(a) != spec_frame_index(b),
        0 <= spec_frame_index(a) < NUM_FRAMES,
{
    assert(spec_frame_index(a) != spec_frame_index(b)) by (nonlinear_arith)
        requires
            a % 4096 == 0,
            b % 4096 == 0,
            a >= RAM_BASE,
            b >= RAM_BASE,
            a != b,
            spec_frame_index(a) == (a - RAM_BASE) / 4096,
            spec_frame_index(b) == (b - RAM_BASE) / 4096,
    ;
}

/// Giving a frame that holds no table words a zeroed table changes no
/// translation of any page table.
pub proof fn lemma_materialize_keeps_translate(
    old: Seq<Seq<u64>>,
    new: Seq<Seq<u64>>,
    f: usize,
    root: usize,
    va: usize,
)
    requires
        words_wf(old),
        is_frame(f),
        old[spec_frame_index(f)].len() == 0,
        new == old.update(spec_frame_index(f), zero_table()),
    ensures
        translate(new, root, va) == translate(old, root, va),
        valid_entry(new, root, va) == valid_entry(old, root, va),
        leaf_slot(new, root, va) matches Some((t0, k)) && t0 != f ==> leaf_slot(old, root, va)
            == leaf_slot(new, root, va),
        forall|t: usize, i: int| 0 <= i < 512 ==> #[trigger] pte_word(new, t, i) == pte_word(old, t, i),
        forall|t: usize| #[trigger] holds_table(new, t) == (holds_table(old, t) || t == f),
{
    assert forall|t: usize| #[trigger] holds_table(new, t) == (holds_table(old, t) || t == f) by {
        if is_frame(t) && t != f {
            lemma_frame_index_injective(t, f);
        }
    }
    assert forall|t: usize, i: int| 0 <= i < 512 implies #[trigger] pte_word(new, t, i) == pte_word(old, t, i) by {
        if is_frame(t) && t != f {
            lemma_frame_index_injective(t, f);
        }
    }
    lemma_vpn_bounds(va);
    lemma_zero_entry();
    let v2 = spec_vpn2(va) as int;
    let v1 = spec_vpn1(va) as int;
    let v0 = spec_vpn0(va) as int;
    assert(pte_word(new, root, v2) == pte_word(old, root, v2));
    match next_table(old, root, v2) {
        Some(t1) => {
            assert(next_table(new, root, v2) == Some(t1));
            assert(pte_word(new, t1, v1) == pte_word(old, t1, v1));
            match next_table(old, t1, v1) {
                Some(t0) => {
                    assert(next_table(new, t1, v1) == Some(t0));
                    assert(pte_word(new, t0, v0) == pte_word(old, t0, v0));
                },
                None => {
                    if let Some(t0) = next_table(new, t1, v1) {
                        assert(t0 == f);
                        assert(pte_word(new, f, v0) == pte_word(old, f, v0));
                    }
                },
            }
        },
        None => {
            if let Some(t1) = next_table(new, root, v2) {
                assert(t1 == f);
                assert(pte_word(new, f, v1) == pte_word(old, f, v1));
                assert(next_table(new, t1, v1) is None);
            }
        },
    }
}

/// Writing into an invalid entry a pointer to a zeroed table changes no
/// translation of any page table.
pub proof fn lemma_link_keeps_translate(
    old: Seq<Seq<u64>>,
    new: Seq<Seq<u64>>,
    t: usize,
    i: int,
    f: usize,
    e: u64,
    root: usize,
    va: usize,
)
    requires
        words_wf(old),
        holds_table(old, t),
        0 <= i < 512,
        !pte_valid(pte_word(old, t, i)),
        holds_table(old, f),
        f != t,
        forall|k: int| 0 <= k < 512 ==> pte_word(old, f, k) == 0,
        pte_valid(e),
        !pte_leaf(e),
        spec_ppn_to_addr(e) == f,
        new == old.update(spec_frame_index(t), old[spec_frame_index(t)].update(i, e)),
    ensures
        translate(new, root, va) == translate(old, root, va),
        leaf_slot(old, root, va) != Some((t, i)) ==> valid_entry(new, root, va) == valid_entry(
            old,
            root,
            va,
        ),
        forall|t2: usize| #[trigger] holds_table(new, t2) == holds_table(old, t2),
        forall|t2: usize, k: int|
            0 <= k < 512 ==> #[trigger] pte_word(new, t2, k) == if t2 == t && k == i {
                e
            } else {
                pte_word(old, t2, k)
            },
{
    lemma_write_words(old, new, t, i, e);
    lemma_vpn_bounds(va);
    lemma_zero_entry();
}

/// The effect of writing one word of a table.
pub proof fn lemma_write_words(old: Seq<Seq<u64>>, new: Seq<Seq<u64>>, t: usize, i: int, e: u64)
    requires
        words_wf(old),
        holds_table(old, t),
        0 <= i < 512,
        new == old.update(spec_frame_index(t), old[spec_frame_index(t)].update(i, e)),
    ensures
        words_wf(new),
        forall|t2: usize| #[trigger] holds_table(new, t2) == holds_table(old, t2),
        forall|t2: usize, k: int|
            0 <= k < 512 ==> #[trigger] pte_word(new, t2, k) == if t2 == t && k == i {
                e
            } else {
                pte_word(old, t2, k)
            },
{
    assert forall|t2: usize| #[trigger] holds_table(new, t2) == holds_table(old, t2) by {
        if is_frame(t2) && t2 != t {
            lemma_frame_index_injective(t2, t);
        }
    }
    assert forall|t2: usize, k: int| 0 <= k < 512 implies #[trigger] pte_word(new, t2, k) == if t2 == t
        && k == i {
        e
    } else {
        pte_word(old, t2, k)
    } by {
        if is_frame(t2) && t2 != t {
            lemma_frame_index_injective(t2, t);
        }
    }
    assert forall|j: int| 0 <= j < NUM_FRAMES implies (#[trigger] new[j].len() == 0 || new[j].len()
        == ENTRIES_PER_TABLE) by {
        assert(old[j].len() == 0 || old[j].len() == ENTRIES_PER_TABLE);
    }
}

/// `new` differs from `old` at most in the entries on the walk from `root`
/// to `va` in `new` (its root entry, its second-level entry and its
/// last-level entry), and every frame that held a table still holds one.
pub open spec fn writes_on_path(old: Seq<Seq<u64>>, new: Seq<Seq<u64>>, root: usize, va: usize) -> bool {
    &&& forall|t: usize| holds_table(old, t) ==> #[trigger] holds_table(new, t)
    &&& pte_word(new, root, spec_vpn2(va) as int) != pte_word(old, root, spec_vpn2(va) as int)
        ==> pte_valid(pte_word(new, root, spec_vpn2(va) as int))
    &&& forall|t: usize, k: int|
        #![trigger pte_word(new, t, k)]
        0 <= k < 512 && !(t == root && k == spec_vpn2(va) as int) && !(pte_valid(
            pte_word(new, root, spec_vpn2(va) as int),
        ) && t == l1_of(new, root, spec_vpn2(va) as int) && k == spec_vpn1(va) as int) && leaf_slot(
            new,
            root,
            va,
        ) != Some((t, k)) ==> pte_word(new, t, k) == pte_word(old, t, k)
}

/// Every root or second-level entry of the page table at `root` that
/// differs in `new` from the words of `o` points to a frame that `o` had not
/// handed out.
pub open spec fn fresh_links(o: Ram, new: Seq<Seq<u64>>, root: usize) -> bool {
    let old = o.table_words();
    &&& forall|i: int|
        0 <= i < 512 && pte_valid(#[trigger] pte_word(new, root, i)) && pte_word(new, root, i)
            != pte_word(old, root, i) ==> !o.is_allocated(l1_of(new, root, i))
    &&& forall|i: int, j: int|
        0 <= i < 512 && 0 <= j < 512 && pte_valid(pte_word(new, root, i)) && pte_valid(
            #[trigger] pte_word(new, l1_of(new, root, i), j),
        ) && pte_word(new, l1_of(new, root, i), j) != pte_word(old, l1_of(new, root, i), j)
            ==> !o.is_allocated(l0_of(new, root, i, j))
}

/// A place in memory of one page-table entry.
#[derive(Clone, Copy, PartialEq, Eq, Structural, Debug)]
pub struct PteSlot {
    pub table: PhysAddr,
    pub index: usize,
}

/// How many more frames the allocator can hand out.
pub open spec fn frames_available(ram: Ram) -> int {
    ram.free_list@.len() + if ram.next_frame < RAM_END {
        (RAM_END - ram.next_frame) / 4096
    } else {
        0
    }
}

/// The allocator has a frame left exactly when its free list is not empty
/// or the bump pointer is below the end of RAM.
pub proof fn lemma_frames_available_pos(ram: Ram)
    requires
        ram.wf(),
    ensures
        (frames_available(ram) >= 1) == (ram.free_list@.len() > 0 || ram.next_frame < RAM_END),
{
    if ram.next_frame < RAM_END {
        assert((RAM_END - ram.next_frame) / 4096 >= 1) by (nonlinear_arith)
            requires
                ram.next_frame < RAM_END,
                ram.next_frame % 4096 == 0,
                RAM_END == 0x8800_0000,
        ;
    }
}

/// Frames that were handed out stay handed out, and reference counts change
/// only on frames that were not handed out.
pub open spec fn only_allocates(old: Ram, new: Ram) -> bool {
    &&& new.refs@.len() == old.refs@.len()
    &&& forall|pa: usize| old.is_allocated(pa) ==> #[trigger] new.is_allocated(pa)
    &&& forall|pa: usize| #[trigger] new.is_allocated(pa) && old.is_allocated(pa) ==> new.ref_of(pa) == old.ref_of(pa)
}

pub proof fn lemma_only_allocates_trans(a: Ram, b: Ram, c: Ram)
    requires
        only_allocates(a, b),
        only_allocates(b, c),
    ensures
        only_allocates(a, c),
{
}

pub proof fn lemma_only_allocates_same(a: Ram, b: Ram)
    requires
        a.next_frame == b.next_frame,
        a.free_list@ == b.free_list@,
        a.refs@ == b.refs@,
    ensures
        only_allocates(a, b),
{
}

/// Follows entry `idx` of the table at `table` to the next-level table; an
/// invalid entry gets a new zeroed table first. `None` when no frame is left
/// for that, or when the entry points to a frame that holds no table.
fn step(ram: &mut Ram, table: PhysAddr, idx: usize) -> (r: Option<PhysAddr>)
    requires
        old(ram).wf(),
        holds_table(old(ram).table_words(), table.0),
        idx < 512,
    ensures
        final(ram).wf(),
        only_allocates(*old(ram), *final(ram)),
        forall|root: usize, va: usize|
            #![trigger translate(final(ram).table_words(), root, va)]
            translate(final(ram).table_words(), root, va) == translate(
                old(ram).table_words(),
                root,
                va,
            ),
        forall|root: usize, va: usize|
            #![trigger valid_entry(final(ram).table_words(), root, va)]
            leaf_slot(old(ram).table_words(), root, va) != Some((table.0, idx as int))
                ==> valid_entry(final(ram).table_words(), root, va) == valid_entry(
                old(ram).table_words(),
                root,
                va,
            ),
        frames_available(*final(ram)) >= frames_available(*old(ram)) - 1,
        final(ram).free_list@.len() <= old(ram).free_list@.len(),
        pte_valid(pte_word(old(ram).table_words(), table.0, idx as int)) ==> {
            &&& *final(ram) == *old(ram)
            &&& r == match next_table(old(ram).table_words(), table.0, idx as int) {
                Some(t) => Some(PhysAddr(t)),
                None => None,
            }
        },
        !pte_valid(pte_word(old(ram).table_words(), table.0, idx as int)) ==> {
            &&& (r is None <==> frames_available(*old(ram)) == 0)
            &&& r is None ==> *final(ram) == *old(ram)
            &&& r matches Some(f) ==> {
                &&& is_frame(f.0)
                &&& f.0 != table.0
                &&& old(ram).table_words()[spec_frame_index(f.0)].len() == 0
                &&& !old(ram).is_allocated(f.0)
                &&& final(ram).table_words() == old(ram).table_words().update(
                    spec_frame_index(f.0),
                    zero_table(),
                ).update(
                    spec_frame_index(table.0),
                    old(ram).table_words()[spec_frame_index(table.0)].update(
                        idx as int,
                        spec_new_table(f.0),
                    ),
                )
                &&& frames_available(*final(ram)) == frames_available(*old(ram)) - 1
            }
        },
        r matches Some(t) ==> next_table(final(ram).table_words(), table.0, idx as int) == Some(t.0),
        frames_available(*final(ram)) <= frames_available(*old(ram)),
        forall|t: usize|
            holds_table(old(ram).table_words(), t) ==> #[trigger] holds_table(
                final(ram).table_words(),
                t,
            ),
        forall|t: usize, k: int|
            #![trigger pte_word(final(ram).table_words(), t, k)]
            0 <= k < 512 && !(t == table.0 && k == idx) ==> pte_word(final(ram).table_words(), t, k)
                == pte_word(old(ram).table_words(), t, k),
        forall|q: usize|
            #[trigger] final(ram).is_allocated(q) && !old(ram).is_allocated(q) ==> r == Some(PhysAddr(q))
                && !pte_valid(pte_word(old(ram).table_words(), table.0, idx as int)),
{
    let e = PTEntry(ram.read_pte(table, idx));
    if e.is_valid() {
        let t = e.ppn_to_addr();
        if ram.is_table(t) {
            return Some(t);
        } else {
            return None;
        }
    }
    let ghost w0 = ram.table_words();
    let new_page = match ram.alloc_frame() {
        Some(p) => p,
        None => {
            assert(frames_available(*old(ram)) == 0);
            return None;
        },
    };
    let ghost w1 = ram.table_words();
    let ghost mid = *ram;
    assert(new_page.0 != table.0);
    ram.zero_frame(new_page);
    let ghost w2 = ram.table_words();
    proof {
        assert(words_wf(w0));
        lemma_table_entry(new_page.0);
        assert forall|root: usize, va: usize| #[trigger]
            translate(w2, root, va) == translate(w0, root, va) && valid_entry(w2, root, va)
                == valid_entry(w0, root, va) by {
            lemma_materialize_keeps_translate(w0, w2, new_page.0, root, va);
        }
    }
    let ent = PTEntry::new_table(new_page);
    ram.write_pte(table, idx, ent.0);
    proof {
        let w3 = ram.table_words();
        lemma_materialize_keeps_translate(w0, w2, new_page.0, 0, 0);
        assert(words_wf(w2));
        assert forall|root: usize, va: usize| #[trigger]
            translate(w3, root, va) == translate(w2, root, va) by {
            lemma_link_keeps_translate(w2, w3, table.0, idx as int, new_page.0, ent.0, root, va);
        }
        assert forall|root: usize, va: usize|
            leaf_slot(w0, root, va) != Some((table.0, idx as int)) implies #[trigger] valid_entry(
            w3,
            root,
            va,
        ) == valid_entry(w0, root, va) by {
            lemma_materialize_keeps_translate(w0, w2, new_page.0, root, va);
            lemma_link_keeps_translate(w2, w3, table.0, idx as int, new_page.0, ent.0, root, va);
        }
        lemma_write_words(w2, w3, table.0, idx as int, ent.0);
        assert(pte_word(w3, table.0, idx as int) == ent.0);
        assert forall|pa: usize| old(ram).is_allocated(pa) implies #[trigger] ram.is_allocated(pa) by {
            assert(mid.is_allocated(pa));
        }
        assert forall|pa: usize| #[trigger] ram.is_allocated(pa) && old(ram).is_allocated(pa) implies ram.ref_of(pa) == old(ram).ref_of(pa) by {
            assert(pa != new_page.0);
            lemma_frame_index_injective(pa, new_page.0);
        }
        assert forall|q: usize| #[trigger] ram.is_allocated(q) && !old(ram).is_allocated(q) implies q
            == new_page.0 by {
            assert(mid.is_allocated(q));
        }
    }
    Some(new_page)
}

/// The address held by entry `i` of the root table.
pub open spec fn l1_of(words: Seq<Seq<u64>>, root: usize, i: int) -> usize {
    spec_ppn_to_addr(pte_word(words, root, i))
}

/// The address held by entry `j` of the table that root entry `i` points to.
pub open spec fn l0_of(words: Seq<Seq<u64>>, root: usize, i: int, j: int) -> usize {
    spec_ppn_to_addr(pte_word(words, l1_of(words, root, i), j))
}

/// The page table at `root` has the shape of a three-level tree: every valid
/// root entry points to a table other than the root, every valid entry of
/// those points to a table that is neither the root nor one of the
/// second-level tables, and no table is reached through two different
/// entries.
pub open spec fn tree_shaped(words: Seq<Seq<u64>>, root: usize) -> bool {
    &&& holds_table(words, root)
    &&& forall|i: int|
        0 <= i < 512 && pte_valid(#[trigger] pte_word(words, root, i)) ==> {
            &&& holds_table(words, l1_of(words, root, i))
            &&& l1_of(words, root, i) != root
        }
    &&& forall|i: int, j: int|
        0 <= i < 512 && 0 <= j < 512 && pte_valid(pte_word(words, root, i)) && pte_valid(
            #[trigger] pte_word(words, l1_of(words, root, i), j),
        ) ==> {
            &&& holds_table(words, l0_of(words, root, i, j))
            &&& l0_of(words, root, i, j) != root
        }
    &&& forall|i: int, j: int, k: int|
        0 <= i < 512 && 0 <= j < 512 && 0 <= k < 512 && pte_valid(pte_word(words, root, i))
            && pte_valid(#[trigger] pte_word(words, l1_of(words, root, i), j)) && pte_valid(
            #[trigger] pte_word(words, root, k),
        ) ==> l0_of(words, root, i, j) != l1_of(words, root, k)
    &&& forall|i: int, k: int|
        0 <= i < 512 && 0 <= k < 512 && i != k && pte_valid(#[trigger] pte_word(words, root, i))
            && pte_valid(#[trigger] pte_word(words, root, k)) ==> l1_of(words, root, i) != l1_of(
            words,
            root,
            k,
        )
    &&& forall|i: int, j: int, k: int, l: int|
        0 <= i < 512 && 0 <= j < 512 && 0 <= k < 512 && 0 <= l < 512 && (i != k || j != l)
            && pte_valid(pte_word(words, root, i)) && pte_valid(
            #[trigger] pte_word(words, l1_of(words, root, i), j),
        ) && pte_valid(pte_word(words, root, k)) && pte_valid(
            #[trigger] pte_word(words, l1_of(words, root, k), l),
        ) ==> l0_of(words, root, i, j) != l0_of(words, root, k, l)
}

/// A table that is neither the root nor a second-level table of `root`.
pub open spec fn below_second_level(words: Seq<Seq<u64>>, root: usize, t: usize) -> bool {
    &&& t != root
    &&& forall|k: int|
        0 <= k < 512 && pte_valid(#[trigger] pte_word(words, root, k)) ==> t != l1_of(
            words,
            root,
            k,
        )
}

/// Zeroing a frame that holds no table words keeps the tree shape.
pub proof fn lemma_tree_shaped_materialize(
    old: Seq<Seq<u64>>,
    new: Seq<Seq<u64>>,
    f: usize,
    root: usize,
)
    requires
        words_wf(old),
        is_frame(f),
        old[spec_frame_index(f)].len() == 0,
        new == old.update(spec_frame_index(f), zero_table()),
        tree_shaped(old, root),
    ensures
        tree_shaped(new, root),
        words_wf(new),
        forall|t: usize| below_second_level(old, root, t) ==> #[trigger] below_second_level(new, root, t),
{
    lemma_materialize_keeps_translate(old, new, f, root, 0);
    assert forall|j: int| 0 <= j < NUM_FRAMES implies (#[trigger] new[j].len() == 0 || new[j].len()
        == ENTRIES_PER_TABLE) by {
        assert(old[j].len() == 0 || old[j].len() == ENTRIES_PER_TABLE);
    }
}

/// Linking a zeroed fresh table into an invalid root entry keeps the tree
/// shape.
pub proof fn lemma_tree_shaped_link_root(
    old: Seq<Seq<u64>>,
    new: Seq<Seq<u64>>,
    root: usize,
    i0: int,
    f: usize,
)
    requires
        words_wf(old),
        tree_shaped(old, root),
        0 <= i0 < 512,
        !pte_valid(pte_word(old, root, i0)),
        holds_table(old, f),
        below_second_level(old, root, f),
        encodable(f),
        forall|k: int| 0 <= k < 512 ==> pte_word(old, f, k) == 0,
        forall|i: int, j: int|
            0 <= i < 512 && 0 <= j < 512 && pte_valid(pte_word(old, root, i)) && pte_valid(
                #[trigger] pte_word(old, l1_of(old, root, i), j),
            ) ==> l0_of(old, root, i, j) != f,
        new == old.update(
            spec_frame_index(root),
            old[spec_frame_index(root)].update(i0, spec_new_table(f)),
        ),
    ensures
        tree_shaped(new, root),
        words_wf(new),
{
    lemma_write_words(old, new, root, i0, spec_new_table(f));
    lemma_table_entry(f);
    lemma_zero_entry();
    assert(l1_of(new, root, i0) == f);
    assert forall|i: int, j: int|
        0 <= i < 512 && 0 <= j < 512 && pte_valid(pte_word(new, root, i)) && pte_valid(
            #[trigger] pte_word(new, l1_of(new, root, i), j),
        ) implies {
        &&& holds_table(new, l0_of(new, root, i, j))
        &&& l0_of(new, root, i, j) != root
    } by {
        if i != i0 {
            assert(pte_word(new, root, i) == pte_word(old, root, i));
            assert(l1_of(new, root, i) != root);
            assert(pte_word(new, l1_of(new, root, i), j) == pte_word(old, l1_of(old, root, i), j));
        } else {
            assert(pte_word(new, f, j) == pte_word(old, f, j));
        }
    }
    assert forall|i: int, j: int, k: int|
        0 <= i < 512 && 0 <= j < 512 && 0 <= k < 512 && pte_valid(pte_word(new, root, i))
            && pte_valid(#[trigger] pte_word(new, l1_of(new, root, i), j)) && pte_valid(
            #[trigger] pte_word(new, root, k),
        ) implies l0_of(new, root, i, j) != l1_of(new, root, k) by {
        if i != i0 {
            assert(pte_word(new, root, i) == pte_word(old, root, i));
            assert(pte_word(new, l1_of(new, root, i), j) == pte_word(old, l1_of(old, root, i), j));
            if k != i0 {
                assert(pte_word(new, root, k) == pte_word(old, root, k));
            }
        } else {
            assert(pte_word(new, f, j) == pte_word(old, f, j));
        }
    }
    assert forall|i: int, k: int|
        0 <= i < 512 && 0 <= k < 512 && i != k && pte_valid(#[trigger] pte_word(new, root, i))
            && pte_valid(#[trigger] pte_word(new, root, k)) implies l1_of(new, root, i) != l1_of(
        new,
        root,
        k,
    ) by {
        if i != i0 {
            assert(pte_word(new, root, i) == pte_word(old, root, i));
        }
        if k != i0 {
            assert(pte_word(new, root, k) == pte_word(old, root, k));
        }
    }
    assert forall|i: int, j: int, k: int, l: int|
        0 <= i < 512 && 0 <= j < 512 && 0 <= k < 512 && 0 <= l < 512 && (i != k || j != l)
            && pte_valid(pte_word(new, root, i)) && pte_valid(
            #[trigger] pte_word(new, l1_of(new, root, i), j),
        ) && pte_valid(pte_word(new, root, k)) && pte_valid(
            #[trigger] pte_word(new, l1_of(new, root, k), l),
        ) implies l0_of(new, root, i, j) != l0_of(new, root, k, l) by {
        if i == i0 {
            assert(pte_word(new, f, j) == pte_word(old, f, j));
        } else if k == i0 {
            assert(pte_word(new, f, l) == pte_word(old, f, l));
        } else {
            assert(pte_word(new, root, i) == pte_word(old, root, i));
            assert(pte_word(new, root, k) == pte_word(old, root, k));
            assert(pte_word(new, l1_of(new, root, i), j) == pte_word(old, l1_of(old, root, i), j));
            assert(pte_word(new, l1_of(new, root, k), l) == pte_word(old, l1_of(old, root, k), l));
        }
    }
}

/// Linking a zeroed fresh table into an invalid entry of a second-level
/// table keeps the tree shape.
pub proof fn lemma_tree_shaped_link_second(
    old: Seq<Seq<u64>>,
    new: Seq<Seq<u64>>,
    root: usize,
    i0: int,
    j0: int,
    f: usize,
)
    requires
        words_wf(old),
        tree_shaped(old, root),
        0 <= i0 < 512,
        0 <= j0 < 512,
        pte_valid(pte_word(old, root, i0)),
        !pte_valid(pte_word(old, l1_of(old, root, i0), j0)),
        holds_table(old, f),
        below_second_level(old, root, f),
        forall|i: int, j: int|
            0 <= i < 512 && 0 <= j < 512 && pte_valid(pte_word(old, root, i)) && pte_valid(
                #[trigger] pte_word(old, l1_of(old, root, i), j),
            ) ==> l0_of(old, root, i, j) != f,
        encodable(f),
        forall|k: int| 0 <= k < 512 ==> pte_word(old, f, k) == 0,
        new == old.update(
            spec_frame_index(l1_of(old, root, i0)),
            old[spec_frame_index(l1_of(old, root, i0))].update(j0, spec_new_table(f)),
        ),
    ensures
        tree_shaped(new, root),
        words_wf(new),
        forall|k: int| 0 <= k < 512 ==> #[trigger] pte_word(new, root, k) == pte_word(old, root, k),
        forall|t: usize|
            below_second_level(old, root, t) ==> #[trigger] below_second_level(new, root, t),
{
    let t1 = l1_of(old, root, i0);
    lemma_write_words(old, new, t1, j0, spec_new_table(f));
    lemma_table_entry(f);
    lemma_zero_entry();
    assert(t1 != root);
    assert forall|k: int| 0 <= k < 512 implies #[trigger] pte_word(new, root, k) == pte_word(old, root, k) by {}
    assert forall|i: int| 0 <= i < 512 implies #[trigger] l1_of(new, root, i) == l1_of(old, root, i) by {}
    assert forall|i: int, j: int|
        0 <= i < 512 && 0 <= j < 512 && pte_valid(pte_word(new, root, i)) && pte_valid(
            #[trigger] pte_word(new, l1_of(new, root, i), j),
        ) implies {
        &&& holds_table(new, l0_of(new, root, i, j))
        &&& l0_of(new, root, i, j) != root
    } by {
        assert(l1_of(new, root, i) == l1_of(old, root, i));
        if l1_of(old, root, i) == t1 && j == j0 {
        } else {
            assert(pte_word(new, l1_of(new, root, i), j) == pte_word(old, l1_of(old, root, i), j));
        }
    }
    assert forall|i: int, j: int, k: int|
        0 <= i < 512 && 0 <= j < 512 && 0 <= k < 512 && pte_valid(pte_word(new, root, i))
            && pte_valid(#[trigger] pte_word(new, l1_of(new, root, i), j)) && pte_valid(
            #[trigger] pte_word(new, root, k),
        ) implies l0_of(new, root, i, j) != l1_of(new, root, k) by {
        assert(l1_of(new, root, i) == l1_of(old, root, i));
        assert(l1_of(new, root, k) == l1_of(old, root, k));
        assert(pte_word(new, root, k) == pte_word(old, root, k));
        if l1_of(old, root, i) == t1 && j == j0 {
        } else {
            assert(pte_word(new, l1_of(new, root, i), j) == pte_word(old, l1_of(old, root, i), j));
        }
    }
    assert forall|i: int, j: int, k: int, l: int|
        0 <= i < 512 && 0 <= j < 512 && 0 <= k < 512 && 0 <= l < 512 && (i != k || j != l)
            && pte_valid(pte_word(new, root, i)) && pte_valid(
            #[trigger] pte_word(new, l1_of(new, root, i), j),
        ) && pte_valid(pte_word(new, root, k)) && pte_valid(
            #[trigger] pte_word(new, l1_of(new, root, k), l),
        ) implies l0_of(new, root, i, j) != l0_of(new, root, k, l) by {
        assert(l1_of(new, root, i) == l1_of(old, root, i));
        assert(l1_of(new, root, k) == l1_of(old, root, k));
        assert(pte_word(new, root, i) == pte_word(old, root, i));
        assert(pte_word(new, root, k) == pte_word(old, root, k));
        let ni = l1_of(old, root, i) == t1 && j == j0;
        let nk = l1_of(old, root, k) == t1 && l == j0;
        if ni {
            if i != i0 {
                assert(l1_of(old, root, i) != l1_of(old, root, i0));
            }
        }
        if nk {
            if k != i0 {
                assert(l1_of(old, root, k) != l1_of(old, root, i0));
            }
        }
        if !ni {
            assert(pte_word(new, l1_of(new, root, i), j) == pte_word(old, l1_of(old, root, i), j));
        }
        if !nk {
            assert(pte_word(new, l1_of(new, root, k), l) == pte_word(old, l1_of(old, root, k), l));
        }
    }
}

/// Writing an entry of a table below the second level keeps the tree shape,
/// and keeps every walk from `root` ending where it ended.
pub proof fn lemma_tree_shaped_leaf_write(
    old: Seq<Seq<u64>>,
    new: Seq<Seq<u64>>,
    root: usize,
    t: usize,
    idx: int,
    e: u64,
)
    requires
        words_wf(old),
        tree_shaped(old, root),
        holds_table(old, t),
        below_second_level(old, root, t),
        0 <= idx < 512,
        new == old.update(spec_frame_index(t), old[spec_frame_index(t)].update(idx, e)),
    ensures
        tree_shaped(new, root),
        words_wf(new),
        forall|va: usize| #[trigger] leaf_slot(new, root, va) == leaf_slot(old, root, va),
        forall|va: usize|
            leaf_slot(old, root, va) != Some((t, idx)) ==> #[trigger] lookup_entry(new, root, va)
                == lookup_entry(old, root, va),
        forall|va: usize|
            leaf_slot(old, root, va) == Some((t, idx)) ==> #[trigger] lookup_entry(new, root, va)
                == Some(e),
        forall|t2: usize|
            below_second_level(old, root, t2) ==> #[trigger] below_second_level(new, root, t2),
{
    lemma_write_words(old, new, t, idx, e);
    assert forall|k: int| 0 <= k < 512 implies #[trigger] pte_word(new, root, k) == pte_word(old, root, k) by {}
    assert forall|i: int| 0 <= i < 512 implies #[trigger] l1_of(new, root, i) == l1_of(old, root, i) by {}
    assert forall|i: int, j: int|
        0 <= i < 512 && 0 <= j < 512 && pte_valid(pte_word(old, root, i)) implies #[trigger] pte_word(
        new,
        l1_of(new, root, i),
        j,
    ) == pte_word(old, l1_of(old, root, i), j) by {
        assert(l1_of(new, root, i) == l1_of(old, root, i));
        assert(t != l1_of(old, root, i));
    }
    assert forall|va: usize| #[trigger] leaf_slot(new, root, va) == leaf_slot(old, root, va) by {
        lemma_vpn_bounds(va);
        let v2 = spec_vpn2(va) as int;
        let v1 = spec_vpn1(va) as int;
        assert(pte_word(new, root, v2) == pte_word(old, root, v2));
        if pte_valid(pte_word(old, root, v2)) {
            assert(pte_word(new, l1_of(new, root, v2), v1) == pte_word(old, l1_of(old, root, v2), v1));
        }
    }
    assert forall|va: usize|
        leaf_slot(old, root, va) != Some((t, idx)) implies #[trigger] lookup_entry(new, root, va)
        == lookup_entry(old, root, va) by {
        assert(leaf_slot(new, root, va) == leaf_slot(old, root, va));
        lemma_vpn_bounds(va);
        if let Some((t0, i0)) = leaf_slot(old, root, va) {
            assert(pte_word(new, t0, i0) == pte_word(old, t0, i0));
        }
    }
    assert forall|va: usize|
        leaf_slot(old, root, va) == Some((t, idx)) implies #[trigger] lookup_entry(new, root, va)
        == Some(e) by {
        assert(leaf_slot(new, root, va) == leaf_slot(old, root, va));
    }
    assert forall|i: int, j: int|
        0 <= i < 512 && 0 <= j < 512 && pte_valid(pte_word(new, root, i)) && pte_valid(
            #[trigger] pte_word(new, l1_of(new, root, i), j),
        ) implies {
        &&& holds_table(new, l0_of(new, root, i, j))
        &&& l0_of(new, root, i, j) != root
    } by {
        assert(pte_word(new, root, i) == pte_word(old, root, i));
        assert(pte_word(new, l1_of(new, root, i), j) == pte_word(old, l1_of(old, root, i), j));
    }
    assert forall|i: int, j: int, k: int|
        0 <= i < 512 && 0 <= j < 512 && 0 <= k < 512 && pte_valid(pte_word(new, root, i))
            && pte_valid(#[trigger] pte_word(new, l1_of(new, root, i), j)) && pte_valid(
            #[trigger] pte_word(new, root, k),
        ) implies l0_of(new, root, i, j) != l1_of(new, root, k) by {
        assert(pte_word(new, root, i) == pte_word(old, root, i));
        assert(pte_word(new, root, k) == pte_word(old, root, k));
        assert(pte_word(new, l1_of(new, root, i), j) == pte_word(old, l1_of(old, root, i), j));
    }
}

// ─── the page table ───

pub open spec fn spec_satp(root: usize) -> usize {
    ((8u64 << 60u64) | ((root >> 12usize) as u64)) as usize
}

/// An Sv39 page table, identified by the physical address of its root
/// table. Its tables live in the frames of a [`Ram`].
#[derive(Clone, Copy, PartialEq, Eq, Structural, Debug)]
pub struct PageTable {
    pub root: PhysAddr,
}

impl PageTable {
    /// The page table whose root table is the (already zeroed) frame `root`.
    pub fn new(root: PhysAddr) -> (r: Self)
        ensures
            r.root == root,
    {
        PageTable { root }
    }

    /// Physical address of the root table.
    pub fn root_addr(&self) -> (r: PhysAddr)
        ensures
            r == self.root,
    {
        self.root
    }

    /// The value for `satp` that enables this page table: mode 8 (Sv39) in
    /// bits 60 to 63 and the root's page number below.
    pub fn satp_val(&self) -> (r: usize)
        ensures
            r == spec_satp(self.root.0),
    {
        ((8u64 << 60u64) | ((self.root.0 >> 12) as u64)) as usize
    }

    /// Finds the last-level entry for `vaddr`, creating the missing
    /// intermediate tables. `None` when no frame is left for a table, or
    /// when an entry on the way points to a frame that holds no table.
    fn walk(&self, ram: &mut Ram, vaddr: VirtAddr) -> (r: Option<PteSlot>)
        requires
            old(ram).wf(),
        ensures
            final(ram).wf(),
            only_allocates(*old(ram), *final(ram)),
            forall|root: usize, va: usize|
                #![trigger translate(final(ram).table_words(), root, va)]
                translate(final(ram).table_words(), root, va) == translate(
                    old(ram).table_words(),
                    root,
                    va,
                ),
            r matches Some(s) ==> {
                &&& holds_table(final(ram).table_words(), s.table.0)
                &&& s.index == spec_vpn0(vaddr.0)
                &&& s.index < 512
            },
            frames_available(*final(ram)) <= frames_available(*old(ram)),
            frames_available(*final(ram)) >= frames_available(*old(ram)) - 2,
            final(ram).free_list@.len() <= old(ram).free_list@.len(),
            writes_on_path(old(ram).table_words(), final(ram).table_words(), self.root.0, vaddr.0),
            keeps_valid_words(old(ram).table_words(), final(ram).table_words()),
            tree_shaped(old(ram).table_words(), self.root.0) ==> {
                &&& forall|pa: usize|
                    #[trigger] final(ram).is_allocated(pa) && !old(ram).is_allocated(pa) ==> !outside_tree(
                        final(ram).table_words(),
                        self.root.0,
                        pa,
                    )
                &&& tree_shaped(final(ram).table_words(), self.root.0)
                &&& forall|va: usize|
                    #[trigger] valid_entry(final(ram).table_words(), self.root.0, va) == valid_entry(
                        old(ram).table_words(),
                        self.root.0,
                        va,
                    )
                &&& fresh_links(*old(ram), final(ram).table_words(), self.root.0)
                &&& frames_available(*old(ram)) >= 2 ==> r is Some
                &&& frames_available(*old(ram)) >= tables_needed(old(ram).table_words(), self.root.0, vaddr.0) ==> r is Some
                &&& r is Some ==> frames_available(*final(ram)) == frames_available(*old(ram)) - tables_needed(
                    old(ram).table_words(),
                    self.root.0,
                    vaddr.0,
                )
                &&& r is None ==> frames_available(*final(ram)) == 0 && frames_available(*old(ram))
                    < tables_needed(old(ram).table_words(), self.root.0, vaddr.0)
                &&& r matches Some(s) ==> {
                    &&& leaf_slot(final(ram).table_words(), self.root.0, vaddr.0) == Some(
                        (s.table.0, s.index as int),
                    )
                    &&& below_second_level(final(ram).table_words(), self.root.0, s.table.0)
                }
                &&& leaf_slot(old(ram).table_words(), self.root.0, vaddr.0) is Some ==> {
                    &&& *final(ram) == *old(ram)
                    &&& r is Some
                }
                &&& forall|pa: usize|
                    #![trigger outside_tree(final(ram).table_words(), self.root.0, pa)]
                    old(ram).is_allocated(pa) && outside_tree(old(ram).table_words(), self.root.0, pa)
                        ==> outside_tree(final(ram).table_words(), self.root.0, pa)
            },
    {
        let vpn2 = (vaddr.0 >> 30) & 0x1ff;
        let vpn1 = (vaddr.0 >> 21) & 0x1ff;
        let vpn0 = (vaddr.0 >> 12) & 0x1ff;
        proof {
            lemma_vpn_bounds(vaddr.0);
            lemma_zero_entry();
        }
        if !ram.is_table(self.root) {
            return None;
        }
        let ghost root = self.root.0;
        let ghost w0 = ram.table_words();
        let ghost r0 = *ram;
        let t1 = match step(ram, self.root, vpn2) {
            Some(t) => t,
            None => {
                return None;
            },
        };
        let ghost w1 = ram.table_words();
        let ghost r1 = *ram;
        proof {
            if tree_shaped(w0, root) {
                if !pte_valid(pte_word(w0, root, vpn2 as int)) {
                    let f = t1.0;
                    let wm = w0.update(spec_frame_index(f), zero_table());
                    lemma_tree_shaped_materialize(w0, wm, f, root);
                    lemma_materialize_keeps_translate(w0, wm, f, root, 0);
                    assert forall|k: int| 0 <= k < 512 implies pte_word(wm, f, k) == 0 by {
                        assert(pte_word(w0, f, k) == 0);
                    }
                    assert forall|i: int, j: int|
                        0 <= i < 512 && 0 <= j < 512 && pte_valid(pte_word(wm, root, i)) && pte_valid(
                            #[trigger] pte_word(wm, l1_of(wm, root, i), j),
                        ) implies l0_of(wm, root, i, j) != f by {
                        assert(pte_word(wm, root, i) == pte_word(w0, root, i));
                        assert(pte_word(wm, l1_of(wm, root, i), j) == pte_word(
                            w0,
                            l1_of(w0, root, i),
                            j,
                        ));
                        assert(holds_table(w0, l0_of(w0, root, i, j)));
                    }
                    lemma_table_entry(f);
                    lemma_tree_shaped_link_root(wm, w1, root, vpn2 as int, f);
                    assert forall|pa: usize|
                        r0.is_allocated(pa) && outside_tree(w0, root, pa) implies #[trigger] outside_tree(
                        w1,
                        root,
                        pa,
                    ) by {
                        lemma_same_upper_levels(w0, wm, root);
                        assert(outside_tree(wm, root, pa));
                        lemma_outside_after_link_root(wm, w1, root, vpn2 as int, f, pa);
                    }
                }
                assert(l1_of(w1, root, vpn2 as int) == t1.0);
                assert(pte_valid(pte_word(w1, root, vpn2 as int)));
                assert forall|pa: usize| #[trigger] r1.is_allocated(pa) && !r0.is_allocated(pa) implies !outside_tree(
                    w1,
                    root,
                    pa,
                ) by {
                    reveal(outside_tree);
                    assert(pa == t1.0);
                    assert(!below_second_level(w1, root, pa));
                }
                assert forall|va: usize| #[trigger] valid_entry(w1, root, va) == valid_entry(w0, root, va) by {
                    lemma_vpn_bounds(va);
                    if leaf_slot(w0, root, va) == Some((root, vpn2 as int)) {
                        assert(pte_valid(pte_word(w0, root, spec_vpn2(va) as int)));
                        assert(pte_valid(pte_word(w0, l1_of(w0, root, spec_vpn2(va) as int), spec_vpn1(va) as int)));
                    }
                }
                assert(fresh_links(r0, w1, root)) by {
                    assert forall|i: int, j: int|
                        0 <= i < 512 && 0 <= j < 512 && pte_valid(pte_word(w1, root, i)) implies #[trigger] pte_word(
                            w1,
                            l1_of(w1, root, i),
                            j,
                        ) == pte_word(w0, l1_of(w1, root, i), j) by {
                        assert(l1_of(w1, root, i) != root);
                    }
                }
            }
        }
        proof {
            assert(keeps_valid_words(w0, w1)) by {
                assert forall|t: usize, k: int|
                    0 <= k < 512 && pte_valid(#[trigger] pte_word(w0, t, k)) implies pte_word(w1, t, k)
                    == pte_word(w0, t, k) by {
                    if t == root && k == vpn2 as int {
                        assert(*ram == r0);
                    }
                }
            }
        }
        let t0 = match step(ram, t1, vpn1) {
            Some(t) => t,
            None => {
                return None;
            },
        };
        let ghost w2 = ram.table_words();
        proof {
            lemma_only_allocates_trans(r0, r1, *ram);
            if tree_shaped(w0, root) {
                assert(t1.0 != root);
                if !pte_valid(pte_word(w1, t1.0, vpn1 as int)) {
                    let f = t0.0;
                    let wm = w1.update(spec_frame_index(f), zero_table());
                    lemma_tree_shaped_materialize(w1, wm, f, root);
                    lemma_materialize_keeps_translate(w1, wm, f, root, 0);
                    assert forall|k: int| 0 <= k < 512 implies pte_word(wm, f, k) == 0 by {
                        assert(pte_word(w1, f, k) == 0);
                    }
                    assert(f != root);
                    assert forall|k: int|
                        0 <= k < 512 && pte_valid(#[trigger] pte_word(wm, root, k)) implies f != l1_of(
                        wm,
                        root,
                        k,
                    ) by {
                        assert(pte_word(wm, root, k) == pte_word(w1, root, k));
                        assert(holds_table(w1, l1_of(w1, root, k)));
                    }
                    assert(below_second_level(wm, root, f));
                    assert(l1_of(wm, root, vpn2 as int) == t1.0);
                    lemma_table_entry(f);
                    lemma_tree_shaped_link_second(wm, w2, root, vpn2 as int, vpn1 as int, f);
                    assert(pte_word(w2, root, vpn2 as int) == pte_word(w1, root, vpn2 as int));
                    assert forall|pa: usize|
                        r1.is_allocated(pa) && outside_tree(w1, root, pa) implies #[trigger] outside_tree(
                        w2,
                        root,
                        pa,
                    ) by {
                        lemma_same_upper_levels(w1, wm, root);
                        assert(outside_tree(wm, root, pa));
                        lemma_outside_after_link_second(wm, w2, root, vpn2 as int, vpn1 as int, f, pa);
                    }
                } else {
                    assert(w2 == w1);
                }
                assert(next_table(w2, root, vpn2 as int) == Some(t1.0));
                assert(leaf_slot(w2, root, vaddr.0) == Some((t0.0, vpn0 as int)));
                assert(l0_of(w2, root, vpn2 as int, vpn1 as int) == t0.0);
                assert(keeps_valid_words(w1, w2)) by {
                    assert forall|t: usize, k: int|
                        0 <= k < 512 && pte_valid(#[trigger] pte_word(w1, t, k)) implies pte_word(w2, t, k)
                        == pte_word(w1, t, k) by {
                        if t == t1.0 && k == vpn1 as int {
                            assert(w2 == w1);
                        }
                    }
                }
                lemma_tree_grows(w1, w2, root);
                assert forall|pa: usize| #[trigger] ram.is_allocated(pa) && !r0.is_allocated(pa) implies !outside_tree(
                    w2,
                    root,
                    pa,
                ) by {
                    reveal(outside_tree);
                    if r1.is_allocated(pa) {
                        assert(!outside_tree(w1, root, pa));
                    } else {
                        assert(pa == t0.0);
                        assert(pte_valid(pte_word(w2, l1_of(w2, root, vpn2 as int), vpn1 as int)));
                        assert(!outside_tree(w2, root, pa));
                    }
                }
                assert forall|k: int|
                    0 <= k < 512 && pte_valid(#[trigger] pte_word(w2, root, k)) implies t0.0 != l1_of(
                    w2,
                    root,
                    k,
                ) by {}
                if leaf_slot(w0, root, vaddr.0) is Some {
                    assert(pte_valid(pte_word(w0, root, vpn2 as int)));
                    assert(pte_valid(pte_word(w1, t1.0, vpn1 as int)));
                }
                assert forall|va: usize| #[trigger] valid_entry(w2, root, va) == valid_entry(w0, root, va) by {
                    lemma_vpn_bounds(va);
                    assert(valid_entry(w1, root, va) == valid_entry(w0, root, va));
                    if leaf_slot(w1, root, va) == Some((t1.0, vpn1 as int)) {
                        assert(pte_valid(pte_word(w1, root, spec_vpn2(va) as int)));
                        assert(pte_valid(pte_word(w1, l1_of(w1, root, spec_vpn2(va) as int), spec_vpn1(va) as int)));
                    }
                }
                if frames_available(r0) >= 2 {
                }
                assert(fresh_links(r0, w2, root)) by {
                    assert forall|i: int| 0 <= i < 512 implies #[trigger] pte_word(w2, root, i) == pte_word(w1, root, i) by {}
                    assert forall|i: int| 0 <= i < 512 implies #[trigger] l1_of(w2, root, i) == l1_of(w1, root, i) by {}
                    assert forall|i: int, j: int|
                        0 <= i < 512 && 0 <= j < 512 && pte_valid(pte_word(w2, root, i)) && pte_valid(
                            #[trigger] pte_word(w2, l1_of(w2, root, i), j),
                        ) && pte_word(w2, l1_of(w2, root, i), j) != pte_word(w0, l1_of(w2, root, i), j) implies !r0.is_allocated(
                        l0_of(w2, root, i, j),
                    ) by {
                        let t = l1_of(w2, root, i);
                        assert(t != root);
                        if t == t1.0 && j == vpn1 as int {
                            assert(!pte_valid(pte_word(w1, t1.0, vpn1 as int)));
                            assert(!r1.is_allocated(t0.0));
                        } else {
                            assert(pte_word(w2, t, j) == pte_word(w1, t, j));
                            assert(pte_word(w1, t, j) != pte_word(w0, t, j));
                        }
                    }
                }
            }
        }
        Some(PteSlot { table: t0, index: vpn0 })
    }

    /// Walks to the last-level entry for `vaddr` (creating missing tables)
    /// and stores `e` there; false when the walk finds no entry.
    #[verifier::spinoff_prover]
    #[verifier::rlimit(40)]
    fn set_leaf(&self, ram: &mut Ram, vaddr: VirtAddr, e: u64) -> (r: bool)
        requires
            old(ram).wf(),
        ensures
            final(ram).wf(),
            only_allocates(*old(ram), *final(ram)),
            frames_available(*final(ram)) <= frames_available(*old(ram)),
            frames_available(*final(ram)) >= frames_available(*old(ram)) - 2,
            final(ram).free_list@.len() <= old(ram).free_list@.len(),
            !r ==> forall|root: usize, va: usize|
                #![trigger translate(final(ram).table_words(), root, va)]
                translate(final(ram).table_words(), root, va) == translate(
                    old(ram).table_words(),
                    root,
                    va,
                ),
            tree_shaped(old(ram).table_words(), self.root.0) ==> {
                &&& tree_shaped(final(ram).table_words(), self.root.0)
                &&& forall|i: int|
                    0 <= i < 512 && next_table(old(ram).table_words(), self.root.0, i) is Some
                        ==> #[trigger] next_table(final(ram).table_words(), self.root.0, i) == next_table(
                        old(ram).table_words(),
                        self.root.0,
                        i,
                    )
                &&& forall|va: usize|
                    leaf_slot(old(ram).table_words(), self.root.0, va) is Some ==> #[trigger] leaf_slot(
                        final(ram).table_words(),
                        self.root.0,
                        va,
                    ) == leaf_slot(old(ram).table_words(), self.root.0, va)
                &&& forall|pa: usize|
                    #[trigger] final(ram).is_allocated(pa) && !old(ram).is_allocated(pa) ==> !outside_tree(
                        final(ram).table_words(),
                        self.root.0,
                        pa,
                    )
                &&& forall|pa: usize|
                    !outside_tree(old(ram).table_words(), self.root.0, pa) ==> !#[trigger] outside_tree(
                        final(ram).table_words(),
                        self.root.0,
                        pa,
                    )
                &&& forall|va: usize|
                    !same_page(va, vaddr.0) || !r ==> #[trigger] valid_entry(
                        final(ram).table_words(),
                        self.root.0,
                        va,
                    ) == valid_entry(old(ram).table_words(), self.root.0, va)
                &&& fresh_links(*old(ram), final(ram).table_words(), self.root.0)
                &&& frames_available(*old(ram)) >= 2 ==> r
                &&& frames_available(*old(ram)) >= tables_needed(old(ram).table_words(), self.root.0, vaddr.0) ==> r
                &&& r ==> frames_available(*final(ram)) == frames_available(*old(ram)) - tables_needed(
                    old(ram).table_words(),
                    self.root.0,
                    vaddr.0,
                )
                &&& !r ==> frames_available(*final(ram)) == 0 && frames_available(*old(ram))
                    < tables_needed(old(ram).table_words(), self.root.0, vaddr.0)
                &&& writes_on_path(old(ram).table_words(), final(ram).table_words(), self.root.0, vaddr.0)
                &&& leaf_slot(old(ram).table_words(), self.root.0, vaddr.0) is Some ==> r
                &&& r ==> set_leaf_post(
                    old(ram).table_words(),
                    final(ram).table_words(),
                    self.root.0,
                    vaddr.0,
                    e,
                )
                &&& forall|pa: usize|
                    #![trigger outside_tree(final(ram).table_words(), self.root.0, pa)]
                    old(ram).is_allocated(pa) && outside_tree(old(ram).table_words(), self.root.0, pa)
                        ==> outside_tree(final(ram).table_words(), self.root.0, pa)
            },
    {
        match self.walk(ram, vaddr) {
            Some(slot) => {
                let ghost w1 = ram.table_words();
                let ghost r1 = *ram;
                ram.write_pte(slot.table, slot.index, e);
                proof {
                    lemma_only_allocates_same(r1, *ram);
                    lemma_only_allocates_trans(*old(ram), r1, *ram);
                    let w2 = ram.table_words();
                    if tree_shaped(old(ram).table_words(), self.root.0) {
                        lemma_tree_shaped_leaf_write(
                            w1,
                            w2,
                            self.root.0,
                            slot.table.0,
                            slot.index as int,
                            e,
                        );
                        lemma_write_words(w1, w2, slot.table.0, slot.index as int, e);
                        assert forall|k: int| 0 <= k < 512 implies #[trigger] pte_word(w2, self.root.0, k)
                            == pte_word(w1, self.root.0, k) by {}
                        assert forall|i: int, j: int|
                            0 <= i < 512 && 0 <= j < 512 && pte_valid(pte_word(w1, self.root.0, i)) implies #[trigger] pte_word(
                            w2,
                            l1_of(w2, self.root.0, i),
                            j,
                        ) == pte_word(w1, l1_of(w1, self.root.0, i), j) by {
                            assert(l1_of(w2, self.root.0, i) == l1_of(w1, self.root.0, i));
                        }
                        lemma_same_upper_levels(w1, w2, self.root.0);
                        lemma_slots_kept(old(ram).table_words(), w1, self.root.0);
                        assert forall|t: usize| holds_table(w1, t) implies #[trigger] holds_table(w2, t) by {}
                        lemma_slots_kept(w1, w2, self.root.0);
                        lemma_tree_grows(old(ram).table_words(), w1, self.root.0);
                        assert forall|pa: usize| #[trigger] ram.is_allocated(pa) && !old(ram).is_allocated(pa) implies !outside_tree(
                            w2,
                            self.root.0,
                            pa,
                        ) by {
                            assert(r1.is_allocated(pa));
                        }
                        assert(fresh_links(*old(ram), w2, self.root.0)) by {
                            assert forall|i: int| 0 <= i < 512 implies #[trigger] l1_of(w2, self.root.0, i) == l1_of(
                                w1,
                                self.root.0,
                                i,
                            ) by {}
                        }
                        assert forall|va: usize|
                            !same_page(va, vaddr.0) implies #[trigger] translate(
                            w2,
                            self.root.0,
                            va,
                        ) == translate(old(ram).table_words(), self.root.0, va) && valid_entry(
                            w2,
                            self.root.0,
                            va,
                        ) == valid_entry(old(ram).table_words(), self.root.0, va) by {
                            if leaf_slot(w1, self.root.0, va) == leaf_slot(w1, self.root.0, vaddr.0) {
                                lemma_slot_determines_page(w1, self.root.0, vaddr.0, va);
                            }
                            assert(translate(w1, self.root.0, va) == translate(
                                old(ram).table_words(),
                                self.root.0,
                                va,
                            ));
                            assert(valid_entry(w1, self.root.0, va) == valid_entry(
                                old(ram).table_words(),
                                self.root.0,
                                va,
                            ));
                        }
                        assert forall|va: usize|
                            !same_page(va, vaddr.0) implies #[trigger] valid_entry(w2, self.root.0, va)
                            == valid_entry(old(ram).table_words(), self.root.0, va) by {
                            assert(translate(w2, self.root.0, va) == translate(
                                old(ram).table_words(),
                                self.root.0,
                                va,
                            ));
                        }
                    }
                }
                true
            },
            None => {
                proof {
                    lemma_tree_grows(old(ram).table_words(), ram.table_words(), self.root.0);
                    lemma_slots_kept(old(ram).table_words(), ram.table_words(), self.root.0);
                }
                false
            },
        }
    }

    /// Maps the page of `vaddr` to the frame at `paddr` with `flags`,
    /// creating missing tables; false when no frame was left for a table.
    pub fn map(&self, ram: &mut Ram, vaddr: VirtAddr, paddr: PhysAddr, flags: PTEFlags) -> (r: bool)
        requires
            old(ram).wf(),
        ensures
            final(ram).wf(),
            only_allocates(*old(ram), *final(ram)),
            frames_available(*final(ram)) <= frames_available(*old(ram)),
            frames_available(*final(ram)) >= frames_available(*old(ram)) - 2,
            final(ram).free_list@.len() <= old(ram).free_list@.len(),
            !r ==> forall|root: usize, va: usize|
                #![trigger translate(final(ram).table_words(), root, va)]
                translate(final(ram).table_words(), root, va) == translate(
                    old(ram).table_words(),
                    root,
                    va,
                ),
            tree_shaped(old(ram).table_words(), self.root.0) ==> {
                &&& tree_shaped(final(ram).table_words(), self.root.0)
                &&& forall|i: int|
                    0 <= i < 512 && next_table(old(ram).table_words(), self.root.0, i) is Some
                        ==> #[trigger] next_table(final(ram).table_words(), self.root.0, i) == next_table(
                        old(ram).table_words(),
                        self.root.0,
                        i,
                    )
                &&& forall|va: usize|
                    leaf_slot(old(ram).table_words(), self.root.0, va) is Some ==> #[trigger] leaf_slot(
                        final(ram).table_words(),
                        self.root.0,
                        va,
                    ) == leaf_slot(old(ram).table_words(), self.root.0, va)
                &&& forall|pa: usize|
                    #[trigger] final(ram).is_allocated(pa) && !old(ram).is_allocated(pa) ==> !outside_tree(
                        final(ram).table_words(),
                        self.root.0,
                        pa,
                    )
                &&& forall|pa: usize|
                    !outside_tree(old(ram).table_words(), self.root.0, pa) ==> !#[trigger] outside_tree(
                        final(ram).table_words(),
                        self.root.0,
                        pa,
                    )
                &&& forall|va: usize|
                    !same_page(va, vaddr.0) || !r ==> #[trigger] valid_entry(
                        final(ram).table_words(),
                        self.root.0,
                        va,
                    ) == valid_entry(old(ram).table_words(), self.root.0, va)
                &&& fresh_links(*old(ram), final(ram).table_words(), self.root.0)
                &&& frames_available(*old(ram)) >= 2 ==> r
                &&& frames_available(*old(ram)) >= tables_needed(old(ram).table_words(), self.root.0, vaddr.0) ==> r
                &&& r ==> frames_available(*final(ram)) == frames_available(*old(ram)) - tables_needed(
                    old(ram).table_words(),
                    self.root.0,
                    vaddr.0,
                )
                &&& !r ==> frames_available(*final(ram)) == 0 && frames_available(*old(ram))
                    < tables_needed(old(ram).table_words(), self.root.0, vaddr.0)
                &&& writes_on_path(old(ram).table_words(), final(ram).table_words(), self.root.0, vaddr.0)
                &&& leaf_slot(old(ram).table_words(), self.root.0, vaddr.0) is Some ==> r
                &&& r ==> set_leaf_post(
                    old(ram).table_words(),
                    final(ram).table_words(),
                    self.root.0,
                    vaddr.0,
                    spec_new_leaf(paddr.0, flags.0),
                )
                &&& forall|pa: usize|
                    #![trigger outside_tree(final(ram).table_words(), self.root.0, pa)]
                    old(ram).is_allocated(pa) && outside_tree(old(ram).table_words(), self.root.0, pa)
                        ==> outside_tree(final(ram).table_words(), self.root.0, pa)
            },
    {
        let e = PTEntry::new_leaf(paddr, flags);
        self.set_leaf(ram, vaddr, e.0)
    }

    /// Like [`PageTable::map`], with the entry marked copy-on-write.
    pub fn map_cow(&self, ram: &mut Ram, vaddr: VirtAddr, paddr: PhysAddr, flags: PTEFlags) -> (r:
        bool)
        requires
            old(ram).wf(),
        ensures
            final(ram).wf(),
            only_allocates(*old(ram), *final(ram)),
            frames_available(*final(ram)) <= frames_available(*old(ram)),
            frames_available(*final(ram)) >= frames_available(*old(ram)) - 2,
            final(ram).free_list@.len() <= old(ram).free_list@.len(),
            !r ==> forall|root: usize, va: usize|
                #![trigger translate(final(ram).table_words(), root, va)]
                translate(final(ram).table_words(), root, va) == translate(
                    old(ram).table_words(),
                    root,
                    va,
                ),
            tree_shaped(old(ram).table_words(), self.root.0) ==> {
                &&& tree_shaped(final(ram).table_words(), self.root.0)
                &&& forall|i: int|
                    0 <= i < 512 && next_table(old(ram).table_words(), self.root.0, i) is Some
                        ==> #[trigger] next_table(final(ram).table_words(), self.root.0, i) == next_table(
                        old(ram).table_words(),
                        self.root.0,
                        i,
                    )
                &&& forall|va: usize|
                    leaf_slot(old(ram).table_words(), self.root.0, va) is Some ==> #[trigger] leaf_slot(
                        final(ram).table_words(),
                        self.root.0,
                        va,
                    ) == leaf_slot(old(ram).table_words(), self.root.0, va)
                &&& forall|pa: usize|
                    #[trigger] final(ram).is_allocated(pa) && !old(ram).is_allocated(pa) ==> !outside_tree(
                        final(ram).table_words(),
                        self.root.0,
                        pa,
                    )
                &&& forall|pa: usize|
                    !outside_tree(old(ram).table_words(), self.root.0, pa) ==> !#[trigger] outside_tree(
                        final(ram).table_words(),
                        self.root.0,
                        pa,
                    )
                &&& forall|va: usize|
                    !same_page(va, vaddr.0) || !r ==> #[trigger] valid_entry(
                        final(ram).table_words(),
                        self.root.0,
                        va,
                    ) == valid_entry(old(ram).table_words(), self.root.0, va)
                &&& fresh_links(*old(ram), final(ram).table_words(), self.root.0)
                &&& frames_available(*old(ram)) >= 2 ==> r
                &&& frames_available(*old(ram)) >= tables_needed(old(ram).table_words(), self.root.0, vaddr.0) ==> r
                &&& r ==> frames_available(*final(ram)) == frames_available(*old(ram)) - tables_needed(
                    old(ram).table_words(),
                    self.root.0,
                    vaddr.0,
                )
                &&& !r ==> frames_available(*final(ram)) == 0 && frames_available(*old(ram))
                    < tables_needed(old(ram).table_words(), self.root.0, vaddr.0)
                &&& writes_on_path(old(ram).table_words(), final(ram).table_words(), self.root.0, vaddr.0)
                &&& leaf_slot(old(ram).table_words(), self.root.0, vaddr.0) is Some ==> r
                &&& r ==> set_leaf_post(
                    old(ram).table_words(),
                    final(ram).table_words(),
                    self.root.0,
                    vaddr.0,
                    spec_new_leaf(paddr.0, flags.0) | PTE_COW,
                )
                &&& forall|pa: usize|
                    #![trigger outside_tree(final(ram).table_words(), self.root.0, pa)]
                    old(ram).is_allocated(pa) && outside_tree(old(ram).table_words(), self.root.0, pa)
                        ==> outside_tree(final(ram).table_words(), self.root.0, pa)
            },
    {
        let e = PTEntry::new_leaf(paddr, flags);
        self.set_leaf(ram, vaddr, e.0 | PTE_COW)
    }

    /// Clears the last-level entry for `vaddr` (the walk may create missing
    /// tables on the way, as mapping does).
    pub fn unmap(&self, ram: &mut Ram, vaddr: VirtAddr)
        requires
            old(ram).wf(),
        ensures
            final(ram).wf(),
            only_allocates(*old(ram), *final(ram)),
            tree_shaped(old(ram).table_words(), self.root.0) ==> {
                &&& tree_shaped(final(ram).table_words(), self.root.0)
                &&& translate(final(ram).table_words(), self.root.0, vaddr.0) is None
                &&& leaf_slot(old(ram).table_words(), self.root.0, vaddr.0) is Some ==> forall|va: usize|
                    #![trigger lookup_entry(final(ram).table_words(), self.root.0, va)]
                    same_page(va, vaddr.0) ==> lookup_entry(final(ram).table_words(), self.root.0, va)
                        == Some(0u64)
                &&& forall|va: usize|
                    #![trigger valid_entry(final(ram).table_words(), self.root.0, va)]
                    same_page(va, vaddr.0) ==> valid_entry(final(ram).table_words(), self.root.0, va)
                        is None
                &&& forall|va: usize|
                    #![trigger valid_entry(final(ram).table_words(), self.root.0, va)]
                    !same_page(va, vaddr.0) ==> valid_entry(final(ram).table_words(), self.root.0, va)
                        == valid_entry(old(ram).table_words(), self.root.0, va)
                &&& forall|pa: usize|
                    #![trigger outside_tree(final(ram).table_words(), self.root.0, pa)]
                    old(ram).is_allocated(pa) && outside_tree(old(ram).table_words(), self.root.0, pa)
                        ==> outside_tree(final(ram).table_words(), self.root.0, pa)
                &&& forall|va: usize|
                    #![trigger translate(final(ram).table_words(), self.root.0, va)]
                    same_page(va, vaddr.0) ==> translate(final(ram).table_words(), self.root.0, va)
                        is None
                &&& forall|va: usize|
                    #![trigger translate(final(ram).table_words(), self.root.0, va)]
                    !same_page(va, vaddr.0) ==> translate(
                        final(ram).table_words(),
                        self.root.0,
                        va,
                    ) == translate(old(ram).table_words(), self.root.0, va)
            },
    {
        let e = PTEntry::empty();
        let ok = self.set_leaf(ram, vaddr, e.0);
        proof {
            lemma_zero_entry();
            if tree_shaped(old(ram).table_words(), self.root.0) && !ok {
                assert(leaf_slot(old(ram).table_words(), self.root.0, vaddr.0) is None);
                assert(translate(
                    ram.table_words(),
                    self.root.0,
                    vaddr.0,
                ) == translate(old(ram).table_words(), self.root.0, vaddr.0));
            }
            if tree_shaped(old(ram).table_words(), self.root.0) {
                assert forall|va: usize| same_page(va, vaddr.0) implies #[trigger] valid_entry(
                    ram.table_words(),
                    self.root.0,
                    va,
                ) is None by {
                    assert(leaf_slot(old(ram).table_words(), self.root.0, va) == leaf_slot(
                        old(ram).table_words(),
                        self.root.0,
                        vaddr.0,
                    ));
                    if ok {
                        assert(lookup_entry(ram.table_words(), self.root.0, va) == Some(0u64));
                        assert(!pte_valid(0u64)) by (bit_vector);
                    }
                }
            }
        }
    }

    /// The last-level entry for `vaddr`, without creating tables: `None` when
    /// an entry on the way is invalid or points to a frame that holds no
    /// table.
    pub fn lookup(&self, ram: &Ram, vaddr: VirtAddr) -> (r: Option<PteSlot>)
        requires
            ram.wf(),
        ensures
            match r {
                Some(s) => leaf_slot(ram.table_words(), self.root.0, vaddr.0) == Some(
                    (s.table.0, s.index as int),
                ) && s.index < 512 && holds_table(ram.table_words(), s.table.0),
                None => leaf_slot(ram.table_words(), self.root.0, vaddr.0) is None,
            },
    {
        let vpn2 = (vaddr.0 >> 30) & 0x1ff;
        let vpn1 = (vaddr.0 >> 21) & 0x1ff;
        let vpn0 = (vaddr.0 >> 12) & 0x1ff;
        proof {
            lemma_vpn_bounds(vaddr.0);
        }
        if !ram.is_table(self.root) {
            return None;
        }
        let e2 = PTEntry(ram.read_pte(self.root, vpn2));
        if !e2.is_valid() {
            return None;
        }
        let t1 = e2.ppn_to_addr();
        if !ram.is_table(t1) {
            return None;
        }
        let e1 = PTEntry(ram.read_pte(t1, vpn1));
        if !e1.is_valid() {
            return None;
        }
        let t0 = e1.ppn_to_addr();
        if !ram.is_table(t0) {
            return None;
        }
        Some(PteSlot { table: t0, index: vpn0 })
    }
}

/// `a` and `b` lie in the same page (as far as Sv39 translates them).
pub open spec fn same_page(a: usize, b: usize) -> bool {
    &&& spec_vpn2(a) == spec_vpn2(b)
    &&& spec_vpn1(a) == spec_vpn1(b)
    &&& spec_vpn0(a) == spec_vpn0(b)
}

/// In a tree-shaped page table, the walks for two addresses end in the same
/// entry only when they lie in the same page.
pub proof fn lemma_slot_determines_page(words: Seq<Seq<u64>>, root: usize, a: usize, b: usize)
    requires
        tree_shaped(words, root),
        leaf_slot(words, root, a) is Some,
        leaf_slot(words, root, a) == leaf_slot(words, root, b),
    ensures
        same_page(a, b),
{
    lemma_vpn_bounds(a);
    lemma_vpn_bounds(b);
    let a2 = spec_vpn2(a) as int;
    let a1 = spec_vpn1(a) as int;
    let b2 = spec_vpn2(b) as int;
    let b1 = spec_vpn1(b) as int;
    assert(pte_valid(pte_word(words, root, a2)));
    assert(pte_valid(pte_word(words, l1_of(words, root, a2), a1)));
    assert(pte_valid(pte_word(words, root, b2)));
    assert(pte_valid(pte_word(words, l1_of(words, root, b2), b1)));
    assert(l0_of(words, root, a2, a1) == l0_of(words, root, b2, b1));
}

/// After storing `e` as the last-level entry for `vaddr`: every address in
/// the page of `vaddr` finds `e`, every other address translates as before.
pub open spec fn set_leaf_post(
    old: Seq<Seq<u64>>,
    new: Seq<Seq<u64>>,
    root: usize,
    vaddr: usize,
    e: u64,
) -> bool {
    &&& lookup_entry(new, root, vaddr) == Some(e)
    &&& forall|va: usize|
        #![trigger lookup_entry(new, root, va)]
        same_page(va, vaddr) ==> lookup_entry(new, root, va) == Some(e)
    &&& forall|va: usize|
        #![trigger translate(new, root, va)]
        !same_page(va, vaddr) ==> translate(new, root, va) == translate(old, root, va)
}

/// The Sv39 page number of `va` (bits 12 to 38).
pub open spec fn page_num(va: usize) -> usize {
    (va >> 12usize) & 0x7ff_ffffusize
}

/// Start of the page of `va` within the 512 GiB that Sv39 translates.
pub open spec fn page_base(va: usize) -> int {
    page_num(va) * 4096
}

/// Two addresses lie in the same page exactly when their page numbers agree;
/// a page-aligned address below 512 GiB is its own page base.
pub proof fn lemma_page_num(a: usize, b: usize)
    ensures
        same_page(a, b) == (page_num(a) == page_num(b)),
        a % 4096 == 0 && a < 0x80_0000_0000 ==> page_base(a) == a,
        page_num(a) < 0x800_0000,
        page_base(a) % 4096 == 0,
        0 <= page_base(a) < 0x80_0000_0000,
{
    assert(same_page(a, b) == (page_num(a) == page_num(b))) by (bit_vector);
    assert(page_num(a) < 0x800_0000) by (bit_vector);
    if a % 4096 == 0 && a < 0x80_0000_0000 {
        assert(((a >> 12usize) & 0x7ff_ffffusize) * 4096 == a) by (bit_vector)
            requires
                a % 4096 == 0,
                a < 0x80_0000_0000,
        ;
    }
}

/// `pa` is none of the tables of the page table at `root`.
#[verifier::opaque]
pub open spec fn outside_tree(words: Seq<Seq<u64>>, root: usize, pa: usize) -> bool {
    &&& below_second_level(words, root, pa)
    &&& forall|i: int, j: int|
        0 <= i < 512 && 0 <= j < 512 && pte_valid(pte_word(words, root, i)) && pte_valid(
            #[trigger] pte_word(words, l1_of(words, root, i), j),
        ) ==> l0_of(words, root, i, j) != pa
}

/// How many tables a walk to the last-level entry for `va` has to create:
/// none when the walk reaches one, one when only the last-level table is
/// missing, two otherwise.
pub open spec fn tables_needed(w: Seq<Seq<u64>>, root: usize, va: usize) -> int {
    if leaf_slot(w, root, va) is Some {
        0
    } else if next_table(w, root, spec_vpn2(va) as int) is Some {
        1
    } else {
        2
    }
}

/// Tables reached from `root` stay reached while the valid root and
/// second-level entries are kept and no table disappears.
pub proof fn lemma_slots_kept(old: Seq<Seq<u64>>, new: Seq<Seq<u64>>, root: usize)
    requires
        forall|k: int|
            0 <= k < 512 && pte_valid(#[trigger] pte_word(old, root, k)) ==> pte_word(new, root, k)
                == pte_word(old, root, k),
        forall|i: int, j: int|
            0 <= i < 512 && 0 <= j < 512 && pte_valid(pte_word(old, root, i)) && pte_valid(
                #[trigger] pte_word(old, l1_of(old, root, i), j),
            ) ==> pte_word(new, l1_of(old, root, i), j) == pte_word(old, l1_of(old, root, i), j),
        forall|t: usize| holds_table(old, t) ==> #[trigger] holds_table(new, t),
    ensures
        forall|i: int|
            0 <= i < 512 && next_table(old, root, i) is Some ==> #[trigger] next_table(new, root, i)
                == next_table(old, root, i),
        forall|va: usize|
            leaf_slot(old, root, va) is Some ==> #[trigger] leaf_slot(new, root, va) == leaf_slot(
                old,
                root,
                va,
            ),
{
    assert forall|va: usize| leaf_slot(old, root, va) is Some implies #[trigger] leaf_slot(new, root, va)
        == leaf_slot(old, root, va) by {
        lemma_vpn_bounds(va);
        let v2 = spec_vpn2(va) as int;
        let v1 = spec_vpn1(va) as int;
        assert(pte_valid(pte_word(old, root, v2)));
        assert(pte_word(new, root, v2) == pte_word(old, root, v2));
        assert(pte_valid(pte_word(old, l1_of(old, root, v2), v1)));
    }
}

/// Every valid entry of `old` is unchanged in `new`.
pub open spec fn keeps_valid_words(old: Seq<Seq<u64>>, new: Seq<Seq<u64>>) -> bool {
    forall|t: usize, k: int|
        0 <= k < 512 && pte_valid(#[trigger] pte_word(old, t, k)) ==> pte_word(new, t, k) == pte_word(
            old,
            t,
            k,
        )
}

/// A frame that is one of the tables of `root` stays one while valid entries
/// are kept.
pub proof fn lemma_tree_grows(old: Seq<Seq<u64>>, new: Seq<Seq<u64>>, root: usize)
    requires
        keeps_valid_words(old, new),
    ensures
        forall|pa: usize| !outside_tree(old, root, pa) ==> !#[trigger] outside_tree(new, root, pa),
{
    reveal(outside_tree);
    assert forall|pa: usize| !outside_tree(old, root, pa) implies !#[trigger] outside_tree(new, root, pa) by {
        if !below_second_level(old, root, pa) {
            if pa != root {
                let k = choose|k: int|
                    0 <= k < 512 && pte_valid(#[trigger] pte_word(old, root, k)) && pa == l1_of(old, root, k);
                assert(pte_word(new, root, k) == pte_word(old, root, k));
                assert(!below_second_level(new, root, pa));
            }
        } else {
            let (i, j) = choose|i: int, j: int|
                0 <= i < 512 && 0 <= j < 512 && pte_valid(pte_word(old, root, i)) && pte_valid(
                    #[trigger] pte_word(old, l1_of(old, root, i), j),
                ) && l0_of(old, root, i, j) == pa;
            assert(pte_word(new, root, i) == pte_word(old, root, i));
            assert(pte_word(new, l1_of(old, root, i), j) == pte_word(old, l1_of(old, root, i), j));
            assert(l0_of(new, root, i, j) == pa);
        }
    }
}

/// Two memories that agree on the root and second-level words of `root`
/// agree on which frames lie below the second level or outside the tree.
pub proof fn lemma_same_upper_levels(old: Seq<Seq<u64>>, new: Seq<Seq<u64>>, root: usize)
    requires
        forall|k: int| 0 <= k < 512 ==> #[trigger] pte_word(new, root, k) == pte_word(old, root, k),
        forall|i: int, j: int|
            0 <= i < 512 && 0 <= j < 512 && pte_valid(pte_word(old, root, i)) ==> #[trigger] pte_word(
                new,
                l1_of(new, root, i),
                j,
            ) == pte_word(old, l1_of(old, root, i), j),
    ensures
        forall|pa: usize| #[trigger] outside_tree(new, root, pa) == outside_tree(old, root, pa),
        forall|pa: usize| #[trigger] below_second_level(new, root, pa) == below_second_level(old, root, pa),
{
    reveal(outside_tree);
    assert forall|pa: usize| #[trigger] below_second_level(new, root, pa) == below_second_level(old, root, pa) by {
        if below_second_level(old, root, pa) {
            assert forall|k: int|
                0 <= k < 512 && pte_valid(#[trigger] pte_word(new, root, k)) implies pa != l1_of(
                new,
                root,
                k,
            ) by {
                assert(pte_word(new, root, k) == pte_word(old, root, k));
            }
        }
        if below_second_level(new, root, pa) {
            assert forall|k: int|
                0 <= k < 512 && pte_valid(#[trigger] pte_word(old, root, k)) implies pa != l1_of(
                old,
                root,
                k,
            ) by {
                assert(pte_word(new, root, k) == pte_word(old, root, k));
            }
        }
    }
    assert forall|pa: usize| #[trigger] outside_tree(new, root, pa) == outside_tree(old, root, pa) by {
        if outside_tree(old, root, pa) {
            assert forall|i: int, j: int|
                0 <= i < 512 && 0 <= j < 512 && pte_valid(pte_word(new, root, i)) && pte_valid(
                    #[trigger] pte_word(new, l1_of(new, root, i), j),
                ) implies l0_of(new, root, i, j) != pa by {
                assert(pte_word(new, root, i) == pte_word(old, root, i));
                assert(pte_word(new, l1_of(new, root, i), j) == pte_word(old, l1_of(old, root, i), j));
            }
        }
        if outside_tree(new, root, pa) {
            assert forall|i: int, j: int|
                0 <= i < 512 && 0 <= j < 512 && pte_valid(pte_word(old, root, i)) && pte_valid(
                    #[trigger] pte_word(old, l1_of(old, root, i), j),
                ) implies l0_of(old, root, i, j) != pa by {
                assert(pte_word(new, root, i) == pte_word(old, root, i));
                assert(pte_word(new, l1_of(new, root, i), j) == pte_word(old, l1_of(old, root, i), j));
            }
        }
    }
}

/// A frame that holds page-table words has been handed out.
pub proof fn lemma_table_allocated(ram: Ram, pa: usize)
    requires
        ram.wf(),
        holds_table(ram.table_words(), pa),
    ensures
        ram.is_allocated(pa),
{
    let i = spec_frame_index(pa);
    assert(ram.words@[i]@.len() == ENTRIES_PER_TABLE);
    if pa >= ram.next_frame {
        assert((ram.next_frame - RAM_BASE) / 4096 <= i) by (nonlinear_arith)
            requires
                pa >= ram.next_frame,
                ram.next_frame >= RAM_BASE,
                i == (pa - RAM_BASE) / 4096,
        ;
    }
    if ram.free_list@.contains(pa) {
        let k = choose|k: int| 0 <= k < ram.free_list@.len() && ram.free_list@[k] == pa;
        assert(ram.words@[spec_frame_index(ram.free_list@[k])]@.len() == 0);
    }
}

/// Linking a fresh zeroed table into a root entry keeps every other frame
/// outside the tree.
pub proof fn lemma_outside_after_link_root(
    old: Seq<Seq<u64>>,
    new: Seq<Seq<u64>>,
    root: usize,
    i0: int,
    f: usize,
    pa: usize,
)
    requires
        words_wf(old),
        tree_shaped(old, root),
        0 <= i0 < 512,
        holds_table(old, f),
        f != root,
        encodable(f),
        forall|k: int| 0 <= k < 512 ==> pte_word(old, f, k) == 0,
        new == old.update(
            spec_frame_index(root),
            old[spec_frame_index(root)].update(i0, spec_new_table(f)),
        ),
        outside_tree(old, root, pa),
        pa != f,
    ensures
        outside_tree(new, root, pa),
{
    reveal(outside_tree);
    lemma_write_words(old, new, root, i0, spec_new_table(f));
    lemma_table_entry(f);
    lemma_zero_entry();
    assert forall|k: int|
        0 <= k < 512 && pte_valid(#[trigger] pte_word(new, root, k)) implies pa != l1_of(new, root, k) by {
        if k != i0 {
            assert(pte_word(new, root, k) == pte_word(old, root, k));
        }
    }
    assert forall|i: int, j: int|
        0 <= i < 512 && 0 <= j < 512 && pte_valid(pte_word(new, root, i)) && pte_valid(
            #[trigger] pte_word(new, l1_of(new, root, i), j),
        ) implies l0_of(new, root, i, j) != pa by {
        if i != i0 {
            assert(pte_word(new, root, i) == pte_word(old, root, i));
            assert(l1_of(new, root, i) != root);
            assert(pte_word(new, l1_of(new, root, i), j) == pte_word(old, l1_of(old, root, i), j));
        } else {
            assert(pte_word(new, f, j) == pte_word(old, f, j));
        }
    }
}

/// Linking a fresh zeroed table into a second-level entry keeps every other
/// frame outside the tree.
pub proof fn lemma_outside_after_link_second(
    old: Seq<Seq<u64>>,
    new: Seq<Seq<u64>>,
    root: usize,
    i0: int,
    j0: int,
    f: usize,
    pa: usize,
)
    requires
        words_wf(old),
        tree_shaped(old, root),
        0 <= i0 < 512,
        0 <= j0 < 512,
        pte_valid(pte_word(old, root, i0)),
        holds_table(old, f),
        encodable(f),
        new == old.update(
            spec_frame_index(l1_of(old, root, i0)),
            old[spec_frame_index(l1_of(old, root, i0))].update(j0, spec_new_table(f)),
        ),
        outside_tree(old, root, pa),
        pa != f,
    ensures
        outside_tree(new, root, pa),
{
    reveal(outside_tree);
    let t1 = l1_of(old, root, i0);
    lemma_write_words(old, new, t1, j0, spec_new_table(f));
    lemma_table_entry(f);
    assert(t1 != root);
    assert forall|k: int| 0 <= k < 512 implies #[trigger] pte_word(new, root, k) == pte_word(old, root, k) by {}
    assert forall|k: int|
        0 <= k < 512 && pte_valid(#[trigger] pte_word(new, root, k)) implies pa != l1_of(new, root, k) by {
        assert(pte_word(new, root, k) == pte_word(old, root, k));
    }
    assert forall|i: int, j: int|
        0 <= i < 512 && 0 <= j < 512 && pte_valid(pte_word(new, root, i)) && pte_valid(
            #[trigger] pte_word(new, l1_of(new, root, i), j),
        ) implies l0_of(new, root, i, j) != pa by {
        assert(pte_word(new, root, i) == pte_word(old, root, i));
        assert(l1_of(new, root, i) == l1_of(old, root, i));
        if l1_of(old, root, i) == t1 && j == j0 {
        } else {
            assert(pte_word(new, l1_of(new, root, i), j) == pte_word(old, l1_of(old, root, i), j));
        }
    }
}

/// A leaf entry built from a flag byte with V, U and one of R, W, X is a
/// valid user leaf.
pub proof fn lemma_user_leaf_bits(pa: usize, f: u8)
    requires
        f & 1u8 != 0,
        f & 16u8 != 0,
        f & 14u8 != 0,
    ensures
        spec_new_leaf(pa, f) & 1u64 != 0,
        spec_new_leaf(pa, f) & 0x10u64 != 0,
        pte_leaf(spec_new_leaf(pa, f)),
{
    assert(spec_new_leaf(pa, f) & 1u64 != 0 && spec_new_leaf(pa, f) & 0x10u64 != 0 && pte_leaf(
        spec_new_leaf(pa, f),
    )) by (bit_vector)
        requires
            f & 1u8 != 0,
            f & 16u8 != 0,
            f & 14u8 != 0,
    ;
}


/// Writing one word of a table that is none of the tables of the page table
/// at `root` changes none of its walks.
pub proof fn lemma_write_outside(old: Seq<Seq<u64>>, new: Seq<Seq<u64>>, root: usize, t: usize, k: int, x: u64)
    requires
        words_wf(old),
        tree_shaped(old, root),
        holds_table(old, t),
        0 <= k < 512,
        new == old.update(spec_frame_index(t), old[spec_frame_index(t)].update(k, x)),
        outside_tree(old, root, t),
    ensures
        forall|va: usize| #[trigger] lookup_entry(new, root, va) == lookup_entry(old, root, va),
        forall|va: usize| #[trigger] translate(new, root, va) == translate(old, root, va),
{
    reveal(outside_tree);
    lemma_write_words(old, new, t, k, x);
    assert forall|va: usize| #[trigger] lookup_entry(new, root, va) == lookup_entry(old, root, va) by {
        lemma_vpn_bounds(va);
        let v2 = spec_vpn2(va) as int;
        let v1 = spec_vpn1(va) as int;
        assert(pte_word(new, root, v2) == pte_word(old, root, v2));
        if pte_valid(pte_word(old, root, v2)) {
            let t1 = l1_of(old, root, v2);
            assert(t1 != t);
            assert(pte_word(new, t1, v1) == pte_word(old, t1, v1));
            if pte_valid(pte_word(old, t1, v1)) {
                let t0 = l0_of(old, root, v2, v1);
                assert(t0 != t);
                assert(pte_word(new, t0, spec_vpn0(va) as int) == pte_word(old, t0, spec_vpn0(va) as int));
            }
        }
    }
    assert forall|va: usize| #[trigger] translate(new, root, va) == translate(old, root, va) by {
        assert(lookup_entry(new, root, va) == lookup_entry(old, root, va));
    }
}

/// Unmapping a page a second time changes nothing that the page table
/// maps: when `unmap(vaddr)` took `w0` to `w1` and again `w1` to `w2`, every
/// address has the same valid entry in `w2` as in `w1`.
pub proof fn law_unmap_twice(w0: Seq<Seq<u64>>, w1: Seq<Seq<u64>>, w2: Seq<Seq<u64>>, root: usize, vaddr: usize)
    requires
        forall|va: usize| same_page(va, vaddr) ==> #[trigger] valid_entry(w1, root, va) is None,
        forall|va: usize| !same_page(va, vaddr) ==> #[trigger] valid_entry(w1, root, va) == valid_entry(w0, root, va),
        forall|va: usize| same_page(va, vaddr) ==> #[trigger] valid_entry(w2, root, va) is None,
        forall|va: usize| !same_page(va, vaddr) ==> #[trigger] valid_entry(w2, root, va) == valid_entry(w1, root, va),
    ensures
        forall|va: usize| #[trigger] valid_entry(w2, root, va) == valid_entry(w1, root, va),
{
    assert forall|va: usize| #[trigger] valid_entry(w2, root, va) == valid_entry(w1, root, va) by {
        if same_page(va, vaddr) {
            assert(valid_entry(w1, root, va) is None);
        }
    }
}

} // verus!
