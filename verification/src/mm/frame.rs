//! Physical frame management: per-frame reference counts, a LIFO free list
//! and a bump pointer, together with the page-table words that the kernel
//! keeps in frames.
use vstd::prelude::*;

use crate::mm::page_table::{lemma_frame_index_injective, PhysAddr};

verus! {

/// Physical start of RAM on the QEMU `virt` machine.
pub const RAM_BASE: usize = 0x8000_0000;

/// Size of RAM (128 MiB).
pub const RAM_SIZE: usize = 0x800_0000;

/// First address past the end of RAM.
pub const RAM_END: usize = 0x8800_0000;

/// Size of a frame.
pub const PAGE_SIZE: usize = 4096;

/// Number of frames in RAM.
pub const NUM_FRAMES: usize = 32768;

/// Number of entries in one page table.
pub const ENTRIES_PER_TABLE: usize = 512;

pub open spec fn in_ram(pa: usize) -> bool {
    RAM_BASE <= pa < RAM_END
}

/// `pa` is the start of a frame of RAM.
pub open spec fn is_frame(pa: usize) -> bool {
    in_ram(pa) && pa % 4096 == 0
}

pub open spec fn spec_frame_index(pa: usize) -> int {
    (pa - RAM_BASE) / 4096
}

/// The frame starting at `pa` holds page-table words in `words`.
pub open spec fn holds_table(words: Seq<Seq<u64>>, pa: usize) -> bool {
    is_frame(pa) && words[spec_frame_index(pa)].len() == ENTRIES_PER_TABLE
}

/// The `i`-th word of the page table at `table`; a frame that holds no
/// page-table words reads as zero.
pub open spec fn pte_word(words: Seq<Seq<u64>>, table: usize, i: int) -> u64 {
    if holds_table(words, table) {
        words[spec_frame_index(table)][i]
    } else {
        0
    }
}

pub open spec fn zero_table() -> Seq<u64> {
    Seq::new(ENTRIES_PER_TABLE as nat, |i: int| 0u64)
}

/// The frame at `pa` holds 4096 zero bytes: 512 words, all zero.
pub open spec fn page_zeroed(words: Seq<Seq<u64>>, pa: usize) -> bool {
    &&& holds_table(words, pa)
    &&& forall|k: int| 0 <= k < 512 ==> #[trigger] pte_word(words, pa, k) == 0
}

/// Index of the frame that contains `pa`.
pub fn frame_index(pa: PhysAddr) -> (r: usize)
    requires
        in_ram(pa.0),
    ensures
        r == spec_frame_index(pa.0),
        r < NUM_FRAMES,
{
    let off: usize = pa.0 - RAM_BASE;
    assert(off >> 12 == off / 4096) by (bit_vector);
    off >> 12
}

/// The state of RAM as the kernel manages it.
///
/// `refs[i]` is the reference count of frame `i`; `free_list` holds freed
/// frames, the most recently freed last; every frame from `next_frame` up has
/// never been handed out. `words[i]` is the content of frame `i`, as 512
/// eight-byte words, from the moment the kernel zero-fills it (to use it as
/// a page table or as a user page) until it is freed; it is empty while the
/// kernel keeps no content for the frame.
pub struct Ram {
    pub next_frame: usize,
    pub refs: Vec<u32>,
    pub free_list: Vec<usize>,
    pub words: Vec<Vec<u64>>,
}

impl Ram {
    pub open spec fn wf(&self) -> bool {
        &&& self.refs@.len() == NUM_FRAMES
        &&& self.words@.len() == NUM_FRAMES
        &&& self.next_frame % 4096 == 0
        &&& RAM_BASE <= self.next_frame
        &&& forall|i: int|
            0 <= i < NUM_FRAMES ==> (#[trigger] self.words@[i]@.len() == 0 || self.words@[i]@.len()
                == ENTRIES_PER_TABLE)
        &&& self.free_list@.no_duplicates()
        &&& forall|k: int|
            0 <= k < self.free_list@.len() ==> {
                let pa = #[trigger] self.free_list@[k];
                &&& is_frame(pa)
                &&& pa < self.next_frame
                &&& self.words@[spec_frame_index(pa)]@.len() == 0
            }
        &&& forall|i: int|
            (self.next_frame - RAM_BASE) / 4096 <= i < NUM_FRAMES ==> #[trigger] self.words@[i]@.len()
                == 0
    }

    /// The page-table words of all frames.
    pub open spec fn table_words(&self) -> Seq<Seq<u64>> {
        Seq::new(self.words@.len(), |i: int| self.words@[i]@)
    }

    /// `pa` has been handed out and not freed since.
    pub open spec fn is_allocated(&self, pa: usize) -> bool {
        &&& is_frame(pa)
        &&& pa < self.next_frame
        &&& !self.free_list@.contains(pa)
    }

    pub open spec fn ref_of(&self, pa: usize) -> u32 {
        self.refs@[spec_frame_index(pa)]
    }

    /// Everything but the reference count of frame `idx` is as in `old`.
    pub open spec fn only_ref_changed(&self, old: Ram, idx: int) -> bool {
        &&& self.next_frame == old.next_frame
        &&& self.free_list@ == old.free_list@
        &&& self.table_words() == old.table_words()
        &&& self.refs@.len() == old.refs@.len()
        &&& forall|j: int| 0 <= j < self.refs@.len() && j != idx ==> self.refs@[j] == old.refs@[j]
    }

    /// The frame allocator as it stands after boot: every frame at or above
    /// `kernel_end`, rounded up to a frame boundary, is free for the bump
    /// allocator.
    pub fn frame_init(kernel_end: PhysAddr) -> (r: Ram)
        requires
            RAM_BASE <= kernel_end.0 <= usize::MAX - 4095,
        ensures
            r.wf(),
            r.next_frame == ((kernel_end.0 + 4095) as int / 4096) * 4096,
            r.free_list@.len() == 0,
            forall|i: int| 0 <= i < NUM_FRAMES ==> #[trigger] r.refs@[i] == 0,
            forall|i: int| 0 <= i < NUM_FRAMES ==> #[trigger] r.table_words()[i].len() == 0,
    {
        let mut refs: Vec<u32> = Vec::new();
        let mut words: Vec<Vec<u64>> = Vec::new();
        let mut i: usize = 0;
        while i < NUM_FRAMES
            invariant
                i <= NUM_FRAMES,
                refs@.len() == i,
                words@.len() == i,
                forall|j: int| 0 <= j < i ==> #[trigger] refs@[j] == 0,
                forall|j: int| 0 <= j < i ==> #[trigger] words@[j]@.len() == 0,
            decreases NUM_FRAMES - i,
        {
            refs.push(0);
            words.push(Vec::new());
            i = i + 1;
        }
        let end = kernel_end.0 + 4095;
        let next = end & !4095usize;
        assert(end & !4095usize == (end / 4096) * 4096) by (bit_vector);
        assert(next % 4096 == 0) by (bit_vector)
            requires
                next == end & !4095usize,
        ;
        assert(next >= RAM_BASE) by (bit_vector)
            requires
                next == end & !4095usize,
                end >= RAM_BASE + 4095,
        ;
        Ram { next_frame: next, refs, free_list: Vec::new(), words }
    }

    /// Whether `pa` has been handed out and not freed since.
    pub fn is_handed_out(&self, pa: PhysAddr) -> (r: bool)
        requires
            self.wf(),
        ensures
            r == self.is_allocated(pa.0),
    {
        if pa.0 < RAM_BASE || pa.0 >= RAM_END || pa.0 % 4096 != 0 || pa.0 >= self.next_frame {
            return false;
        }
        let mut k: usize = 0;
        while k < self.free_list.len()
            invariant
                k <= self.free_list@.len(),
                forall|j: int| 0 <= j < k ==> self.free_list@[j] != pa.0,
            decreases self.free_list@.len() - k,
        {
            if self.free_list[k] == pa.0 {
                assert(self.free_list@.contains(pa.0)) by {
                    assert(self.free_list@[k as int] == pa.0);
                }
                return false;
            }
            k = k + 1;
        }
        true
    }

    /// Whether the allocator can hand out one more frame.
    pub fn has_free_frame(&self) -> (r: bool)
        requires
            self.wf(),
        ensures
            r == (self.free_list@.len() > 0 || self.next_frame < RAM_END),
    {
        self.free_list.len() > 0 || self.next_frame < RAM_END
    }

    /// Reference count of the frame containing `pa`.
    pub fn get_ref(&self, pa: PhysAddr) -> (r: u32)
        requires
            self.wf(),
            in_ram(pa.0),
        ensures
            r == self.ref_of(pa.0),
    {
        let idx = frame_index(pa);
        self.refs[idx]
    }

    /// Adds one reference to the frame containing `pa` (wrapping at the
    /// maximum, as an atomic add does).
    pub fn inc_ref(&mut self, pa: PhysAddr)
        requires
            old(self).wf(),
            in_ram(pa.0),
        ensures
            final(self).wf(),
            final(self).only_ref_changed(*old(self), spec_frame_index(pa.0)),
            final(self).ref_of(pa.0) == if old(self).ref_of(pa.0) == u32::MAX {
                0
            } else {
                (old(self).ref_of(pa.0) + 1) as u32
            },
    {
        let idx = frame_index(pa);
        let cur = self.refs[idx];
        let next = if cur == u32::MAX {
            0
        } else {
            cur + 1
        };
        self.refs.set(idx, next);
        assert(self.table_words() =~= old(self).table_words());
    }

    /// Puts the frame at `pa` on top of the free list and clears its
    /// reference count. A freed frame no longer holds page-table words.
    pub fn free_frame(&mut self, pa: PhysAddr)
        requires
            old(self).wf(),
            old(self).is_allocated(pa.0),
        ensures
            final(self).wf(),
            final(self).next_frame == old(self).next_frame,
            final(self).free_list@ == old(self).free_list@.push(pa.0),
            final(self).refs@ == old(self).refs@.update(spec_frame_index(pa.0), 0),
            final(self).table_words() == old(self).table_words().update(
                spec_frame_index(pa.0),
                Seq::empty(),
            ),
            !final(self).is_allocated(pa.0),
            forall|p: usize|
                #![trigger final(self).ref_of(p)]
                #![trigger final(self).is_allocated(p)]
                is_frame(p) && p != pa.0 ==> final(self).ref_of(p) == old(self).ref_of(p)
                    && final(self).is_allocated(p) == old(self).is_allocated(p),
    {
        let idx = frame_index(pa);
        self.free_list.push(pa.0);
        self.words.set(idx, Vec::new());
        self.refs.set(idx, 0);
        proof {
            let fl = self.free_list@;
            assert forall|k: int| 0 <= k < fl.len() implies {
                let p = #[trigger] fl[k];
                &&& is_frame(p)
                &&& p < self.next_frame
                &&& self.words@[spec_frame_index(p)]@.len() == 0
            } by {
                if k < fl.len() - 1 {
                    assert(old(self).free_list@[k] == fl[k]);
                }
            }
            assert(self.table_words() =~= old(self).table_words().update(idx as int, Seq::empty()));
            assert(self.free_list@[self.free_list@.len() - 1] == pa.0);
            assert forall|p: usize| is_frame(p) && p != pa.0 implies #[trigger] self.ref_of(p)
                == old(self).ref_of(p) && self.is_allocated(p) == old(self).is_allocated(p) by {
                lemma_frame_index_injective(p, pa.0);
                if old(self).free_list@.contains(p) {
                    let k = choose|k: int| 0 <= k < old(self).free_list@.len() && old(self).free_list@[k] == p;
                    assert(self.free_list@[k] == p);
                }
                if self.free_list@.contains(p) {
                    let k = choose|k: int| 0 <= k < self.free_list@.len() && self.free_list@[k] == p;
                    assert(old(self).free_list@[k] == p);
                }
            }
        }
    }

    /// Drops one reference to the frame at `pa`, freeing it when the last
    /// reference goes; returns the new count.
    pub fn dec_ref(&mut self, pa: PhysAddr) -> (r: u32)
        requires
            old(self).wf(),
            in_ram(pa.0),
            old(self).ref_of(pa.0) > 0,
            old(self).ref_of(pa.0) == 1 ==> old(self).is_allocated(pa.0),
        ensures
            final(self).wf(),
            r == old(self).ref_of(pa.0) - 1,
            final(self).ref_of(pa.0) == r,
            r == 0 ==> {
                &&& final(self).next_frame == old(self).next_frame
                &&& final(self).free_list@ == old(self).free_list@.push(pa.0)
                &&& final(self).refs@ == old(self).refs@.update(spec_frame_index(pa.0), 0)
                &&& final(self).table_words() == old(self).table_words().update(
                    spec_frame_index(pa.0),
                    Seq::empty(),
                )
            },
            r != 0 ==> final(self).only_ref_changed(*old(self), spec_frame_index(pa.0)),
            final(self).is_allocated(pa.0) == (old(self).is_allocated(pa.0) && r != 0),
            forall|p: usize|
                #![trigger final(self).ref_of(p)]
                #![trigger final(self).is_allocated(p)]
                is_frame(p) && p != pa.0 - (pa.0 - RAM_BASE) % 4096 ==> {
                    &&& final(self).ref_of(p) == old(self).ref_of(p)
                    &&& final(self).is_allocated(p) == old(self).is_allocated(p)
                },
    {
        let idx = frame_index(pa);
        let prev = self.refs[idx];
        self.refs.set(idx, prev - 1);
        assert(self.table_words() =~= old(self).table_words());
        if prev == 1 {
            self.free_frame(pa);
            assert(!self.free_list@.contains(pa.0) ==> false) by {
                assert(self.free_list@[self.free_list@.len() - 1] == pa.0);
            }
        }
        proof {
            let fp = pa.0 - (pa.0 - RAM_BASE) % 4096;
            assert forall|p: usize| is_frame(p) && p != fp implies {
                &&& #[trigger] self.ref_of(p) == old(self).ref_of(p)
                &&& self.is_allocated(p) == old(self).is_allocated(p)
            } by {
                assert(spec_frame_index(p) != spec_frame_index(pa.0)) by (nonlinear_arith)
                    requires
                        p % 4096 == 0,
                        p >= RAM_BASE,
                        pa.0 >= RAM_BASE,
                        p != fp,
                        fp == pa.0 - (pa.0 - RAM_BASE) % 4096,
                        spec_frame_index(p) == (p - RAM_BASE) / 4096,
                        spec_frame_index(pa.0) == (pa.0 - RAM_BASE) / 4096,
                ;
                if prev == 1 {
                    assert(self.free_list@.contains(p) == old(self).free_list@.contains(p)) by {
                        if self.free_list@.contains(p) {
                            let k = choose|k: int| 0 <= k < self.free_list@.len() && self.free_list@[k] == p;
                            if k < old(self).free_list@.len() {
                                assert(old(self).free_list@[k] == p);
                            }
                        }
                        if old(self).free_list@.contains(p) {
                            let k = choose|k: int| 0 <= k < old(self).free_list@.len() && old(self).free_list@[k] == p;
                            assert(self.free_list@[k] == p);
                        }
                    }
                }
            }
        }
        prev - 1
    }

    /// Hands out a frame: the most recently freed one if any, else the next
    /// never-used frame, else `None` when RAM is exhausted. The frame's
    /// reference count becomes 1.
    pub fn alloc_frame(&mut self) -> (r: Option<PhysAddr>)
        requires
            old(self).wf(),
        ensures
            final(self).wf(),
            old(self).free_list@.len() > 0 ==> {
                let pa = old(self).free_list@.last();
                &&& r == Some(PhysAddr(pa))
                &&& final(self).free_list@ == old(self).free_list@.drop_last()
                &&& final(self).next_frame == old(self).next_frame
            },
            old(self).free_list@.len() == 0 && old(self).next_frame >= RAM_END ==> {
                &&& r is None
                &&& *final(self) == *old(self)
            },
            old(self).free_list@.len() == 0 && old(self).next_frame < RAM_END ==> {
                &&& r == Some(PhysAddr(old(self).next_frame))
                &&& final(self).free_list@ == old(self).free_list@
                &&& final(self).next_frame == old(self).next_frame + 4096
            },
            r matches Some(pa) ==> {
                &&& is_frame(pa.0)
                &&& !old(self).is_allocated(pa.0)
                &&& final(self).is_allocated(pa.0)
                &&& old(self).table_words()[spec_frame_index(pa.0)].len() == 0
                &&& final(self).refs@ == old(self).refs@.update(spec_frame_index(pa.0), 1)
                &&& final(self).table_words() == old(self).table_words()
                &&& final(self).ref_of(pa.0) == 1
                &&& forall|p: usize|
                    #![trigger final(self).ref_of(p)]
                    #![trigger final(self).is_allocated(p)]
                    is_frame(p) && p != pa.0 ==> final(self).ref_of(p) == old(self).ref_of(p)
                        && final(self).is_allocated(p) == old(self).is_allocated(p)
            },
    {
        if self.free_list.len() > 0 {
            let head = self.free_list.pop().unwrap();
            let pa = PhysAddr(head);
            proof {
                let k = old(self).free_list@.len() - 1;
                assert(old(self).free_list@[k] == head);
                assert(!self.free_list@.contains(head)) by {
                    if self.free_list@.contains(head) {
                        let j = choose|j: int| 0 <= j < self.free_list@.len() && self.free_list@[j] == head;
                        assert(old(self).free_list@[j] == head);
                    }
                }
                assert forall|k2: int| 0 <= k2 < self.free_list@.len() implies {
                    let p = #[trigger] self.free_list@[k2];
                    &&& is_frame(p)
                    &&& p < self.next_frame
                    &&& self.words@[spec_frame_index(p)]@.len() == 0
                } by {
                    assert(old(self).free_list@[k2] == self.free_list@[k2]);
                }
            }
            let idx = frame_index(pa);
            self.refs.set(idx, 1);
            assert(self.table_words() =~= old(self).table_words());
            proof {
                assert forall|p: usize| is_frame(p) && p != pa.0 implies #[trigger] self.ref_of(p)
                    == old(self).ref_of(p) && self.is_allocated(p) == old(self).is_allocated(p) by {
                    lemma_frame_index_injective(p, pa.0);
                    if old(self).free_list@.contains(p) {
                        let k = choose|k: int| 0 <= k < old(self).free_list@.len() && old(self).free_list@[k] == p;
                        assert(k != old(self).free_list@.len() - 1);
                        assert(self.free_list@[k] == p);
                    }
                    if self.free_list@.contains(p) {
                        let k = choose|k: int| 0 <= k < self.free_list@.len() && self.free_list@[k] == p;
                        assert(old(self).free_list@[k] == p);
                    }
                }
            }
            Some(pa)
        } else {
            let p = self.next_frame;
            if p >= RAM_END {
                return None;
            }
            self.next_frame = p + 4096;
            let pa = PhysAddr(p);
            let idx = frame_index(pa);
            self.refs.set(idx, 1);
            assert(self.table_words() =~= old(self).table_words());
            proof {
                assert(spec_frame_index(p) == (p - RAM_BASE) / 4096);
                assert(self.words@[spec_frame_index(p)]@.len() == 0);
                assert((self.next_frame - RAM_BASE) / 4096 == (p - RAM_BASE) / 4096 + 1);
                assert forall|q: usize| is_frame(q) && q != pa.0 implies #[trigger] self.ref_of(q)
                    == old(self).ref_of(q) && self.is_allocated(q) == old(self).is_allocated(q) by {
                    lemma_frame_index_injective(q, pa.0);
                }
            }
            Some(pa)
        }
    }

    /// Hands out `n` contiguous never-used frames from the bump allocator,
    /// each with reference count 1, or `None` when RAM has no room.
    pub fn alloc_contiguous_frames(&mut self, n: usize) -> (r: Option<PhysAddr>)
        requires
            old(self).wf(),
            0 < n <= NUM_FRAMES,
        ensures
            final(self).wf(),
            final(self).free_list@ == old(self).free_list@,
            final(self).table_words() == old(self).table_words(),
            old(self).next_frame + n * 4096 <= RAM_END ==> {
                &&& r == Some(PhysAddr(old(self).next_frame))
                &&& final(self).next_frame == old(self).next_frame + n * 4096
                &&& forall|i: int|
                    0 <= i < NUM_FRAMES ==> #[trigger] final(self).refs@[i] == if spec_frame_index(
                        old(self).next_frame,
                    ) <= i < spec_frame_index(old(self).next_frame) + n {
                        1
                    } else {
                        old(self).refs@[i]
                    }
            },
            old(self).next_frame + n * 4096 > RAM_END ==> {
                &&& r is None
                &&& *final(self) == *old(self)
            },
    {
        let start = self.next_frame;
        if start >= RAM_END || n > (RAM_END - start) / 4096 {
            proof {
                if start < RAM_END {
                    let d: int = RAM_END - start;
                    assert(n * 4096 > d) by (nonlinear_arith)
                        requires
                            n > d / 4096,
                            d > 0,
                    ;
                }
            }
            return None;
        }
        proof {
            assert(n * 4096 <= RAM_END - start) by (nonlinear_arith)
                requires
                    n <= (RAM_END - start) / 4096,
                    start < RAM_END,
            ;
        }
        let first = frame_index(PhysAddr(start));
        let mut i: usize = 0;
        while i < n
            invariant
                i <= n,
                first == spec_frame_index(start),
                first + n <= NUM_FRAMES,
                self.refs@.len() == NUM_FRAMES,
                self.next_frame == start,
                self.free_list == old(self).free_list,
                self.words == old(self).words,
                forall|j: int|
                    0 <= j < NUM_FRAMES ==> #[trigger] self.refs@[j] == if first <= j < first + i {
                        1
                    } else {
                        old(self).refs@[j]
                    },
            decreases n - i,
        {
            self.refs.set(first + i, 1);
            i = i + 1;
        }
        self.next_frame = start + n * 4096;
        proof {
            assert((self.next_frame - RAM_BASE) / 4096 == (start - RAM_BASE) / 4096 + n) by (nonlinear_arith)
                requires
                    self.next_frame == start + n * 4096,
                    start >= RAM_BASE,
            ;
        }
        Some(PhysAddr(start))
    }

    /// Zeroes the allocated frame at `pa`; it then holds a page table with
    /// every entry zero.
    pub fn zero_frame(&mut self, pa: PhysAddr)
        requires
            old(self).wf(),
            old(self).is_allocated(pa.0),
        ensures
            final(self).wf(),
            final(self).next_frame == old(self).next_frame,
            final(self).free_list@ == old(self).free_list@,
            final(self).refs@ == old(self).refs@,
            final(self).table_words() == old(self).table_words().update(
                spec_frame_index(pa.0),
                zero_table(),
            ),
    {
        let idx = frame_index(pa);
        let mut z: Vec<u64> = Vec::new();
        let mut i: usize = 0;
        while i < ENTRIES_PER_TABLE
            invariant
                i <= ENTRIES_PER_TABLE,
                z@.len() == i,
                forall|j: int| 0 <= j < i ==> #[trigger] z@[j] == 0,
            decreases ENTRIES_PER_TABLE - i,
        {
            z.push(0);
            i = i + 1;
        }
        self.words.set(idx, z);
        proof {
            assert(z@ =~= zero_table());
            assert(self.table_words() =~= old(self).table_words().update(idx as int, zero_table()));
            assert forall|k: int| 0 <= k < self.free_list@.len() implies {
                let p = #[trigger] self.free_list@[k];
                &&& is_frame(p)
                &&& p < self.next_frame
                &&& self.words@[spec_frame_index(p)]@.len() == 0
            } by {
                let p = self.free_list@[k];
                assert(p != pa.0);
                assert(spec_frame_index(p) != idx) by {
                    assert(p % 4096 == 0 && pa.0 % 4096 == 0);
                }
            }
            assert forall|i2: int|
                (self.next_frame - RAM_BASE) / 4096 <= i2 < NUM_FRAMES implies #[trigger] self.words@[i2]@.len()
                == 0 by {
                assert(i2 != idx);
            }
        }
    }

    /// Whether the frame at `pa` holds page-table words.
    pub fn is_table(&self, pa: PhysAddr) -> (r: bool)
        requires
            self.wf(),
        ensures
            r == holds_table(self.table_words(), pa.0),
    {
        if pa.0 < RAM_BASE || pa.0 >= RAM_END || pa.0 % 4096 != 0 {
            return false;
        }
        let idx = frame_index(pa);
        self.words[idx].len() == ENTRIES_PER_TABLE
    }

    /// Reads entry `i` of the page table at `table`.
    pub fn read_pte(&self, table: PhysAddr, i: usize) -> (r: u64)
        requires
            self.wf(),
            i < ENTRIES_PER_TABLE,
        ensures
            r == pte_word(self.table_words(), table.0, i as int),
    {
        if !self.is_table(table) {
            return 0;
        }
        let idx = frame_index(table);
        self.words[idx][i]
    }

    /// Writes entry `i` of the page table at `table`.
    pub fn write_pte(&mut self, table: PhysAddr, i: usize, value: u64)
        requires
            old(self).wf(),
            holds_table(old(self).table_words(), table.0),
            i < ENTRIES_PER_TABLE,
        ensures
            final(self).wf(),
            final(self).next_frame == old(self).next_frame,
            final(self).free_list@ == old(self).free_list@,
            final(self).refs@ == old(self).refs@,
            final(self).table_words() == old(self).table_words().update(
                spec_frame_index(table.0),
                old(self).table_words()[spec_frame_index(table.0)].update(i as int, value),
            ),
    {
        let idx = frame_index(table);
        self.words[idx][i] = value;
        proof {
            assert(self.table_words() =~= old(self).table_words().update(
                idx as int,
                old(self).table_words()[idx as int].update(i as int, value),
            ));
            assert forall|k: int| 0 <= k < self.free_list@.len() implies {
                let p = #[trigger] self.free_list@[k];
                &&& is_frame(p)
                &&& p < self.next_frame
                &&& self.words@[spec_frame_index(p)]@.len() == 0
            } by {
                let p = self.free_list@[k];
                assert(old(self).words@[spec_frame_index(p)]@.len() == 0);
            }
            assert forall|i2: int|
                (self.next_frame - RAM_BASE) / 4096 <= i2 < NUM_FRAMES implies #[trigger] self.words@[i2]@.len()
                == 0 by {
                assert(old(self).words@[i2]@.len() == 0);
            }
        }
    }
}

/// A freed frame is the next one handed out: after `free_frame(pa)` took
/// `r0` to `r1`, an `alloc_frame` from `r1` to `r2` returns `pa` with one
/// reference, and the free list is as it was in `r0`.
pub proof fn law_freed_frame_comes_back(r0: Ram, r1: Ram, r2: Ram, pa: usize, got: Option<PhysAddr>)
    requires
        r1.free_list@ == r0.free_list@.push(pa),
        r1.free_list@.len() > 0 ==> {
            &&& got == Some(PhysAddr(r1.free_list@.last()))
            &&& r2.free_list@ == r1.free_list@.drop_last()
        },
        got matches Some(p) ==> r2.ref_of(p.0) == 1,
    ensures
        got == Some(PhysAddr(pa)),
        r2.free_list@ == r0.free_list@,
        r2.ref_of(pa) == 1,
{
    assert(r1.free_list@.drop_last() =~= r0.free_list@);
}

} // verus!
