//! Trap-time decisions: copy-on-write faults, page faults, and the hex
//! dump used in trap reports.
use vstd::prelude::*;

use crate::console::putchar;
use crate::mm::frame::{holds_table, is_frame, pte_word, spec_frame_index, Ram, RAM_BASE};
use crate::mm::page_table::{
    frames_available, spec_flag_bits, spec_new_leaf, spec_ppn_to_addr, PTEFlags, PTEntry, PhysAddr,
    PteSlot, VirtAddr, PTE_COW, PTE_R, PTE_U, PTE_W, leaf_slot, lookup_entry, page_num,
    l0_of, l1_of, outside_tree, pte_valid, spec_vpn1, spec_vpn2, tree_shaped,
};
use crate::syscall::kernel::{exited_procs, Kernel};
use crate::syscall::user_mem::{
    frames_counted, lemma_unallocated_outside, page_in, user_entry, user_frame_at,
};
use crate::task::process::USER_SPACE_TOP;
use crate::task::process::{Process, ProcessState};
use crate::task::scheduler::reparented;
use crate::task::trapframe::TrapFrame;

verus! {

pub open spec fn hex_char(n: u64) -> u8 {
    if n < 10 {
        (48 + n) as u8
    } else {
        (97 + n - 10) as u8
    }
}

/// The 16 hex digits of `val`, most significant first.
pub open spec fn hex_digits(val: u64) -> Seq<u8> {
    Seq::new(16, |k: int| hex_char((val >> ((60 - 4 * k) as u64)) & 0xfu64))
}

proof fn lemma_nibble(val: u64, k: u64)
    requires
        k < 16,
    ensures
        ((val << ((4 * k) as u64)) >> 60u64) & 0xfu64 == (val >> ((60 - 4 * k) as u64)) & 0xfu64,
        ((val << ((4 * k) as u64)) >> 60u64) & 0xfu64 < 16,
        (val << ((4 * k) as u64)) << 4u64 == val << ((4 * (k + 1)) as u64),
{
    let s1: u64 = (4 * k) as u64;
    let s2: u64 = (60 - 4 * k) as u64;
    let s3: u64 = (4 * (k + 1)) as u64;
    assert(((val << s1) >> 60u64) & 0xfu64 == (val >> s2) & 0xfu64 && ((val << s1) >> 60u64)
        & 0xfu64 < 16 && (val << s1) << 4u64 == val << s3) by (bit_vector)
        requires
            k < 16,
            s1 == 4 * k,
            s2 == 60 - 4 * k,
            s3 == 4 * (k + 1),
    ;
}

/// Sends the 16 hex digits of `val` (lower case, most significant first).
pub fn print_hex(tx: &mut Vec<u8>, val: usize)
    ensures
        final(tx)@ == old(tx)@ + hex_digits(val as u64),
{
    let v0: u64 = val as u64;
    let mut v: u64 = v0;
    let mut k: u64 = 0;
    assert(v0 << 0u64 == v0) by (bit_vector);
    while k < 16
        invariant
            k <= 16,
            v == v0 << ((4 * k) as u64),
            tx@ == old(tx)@ + hex_digits(v0).subrange(0, k as int),
        decreases 16 - k,
    {
        proof {
            lemma_nibble(v0, k);
        }
        let nibble = ((v >> 60) & 0xF) as u8;
        let c = if nibble < 10 {
            48u8 + nibble
        } else {
            97u8 + nibble - 10
        };
        putchar(tx, c);
        assert(c == hex_digits(v0)[k as int]);
        assert(hex_digits(v0).subrange(0, k + 1) =~= hex_digits(v0).subrange(0, k as int).push(c));
        v = v << 4;
        k = k + 1;
    }
    assert(hex_digits(v0).subrange(0, 16) =~= hex_digits(v0));
}

/// What resolving a copy-on-write fault leaves to be done: when the page was
/// shared, the caller copies the old frame's contents to the new one.
#[derive(Clone, Copy, PartialEq, Eq, Structural, Debug)]
pub enum CowResult {
    /// The entry now maps the new frame; copy `from` to `to`.
    Copied { from: PhysAddr, to: PhysAddr },
    /// The page was not shared: its entry was made writable in place.
    Reused,
}

/// The entry after a copy-on-write fault on a shared page: the new frame,
/// readable, writable, user, executable as before, not copy-on-write.
pub open spec fn cow_copied_entry(e: u64, new_frame: usize) -> u64 {
    spec_new_leaf(new_frame, spec_flag_bits(true, true, (e & 0xffu64) as u8 & 8u8 != 0, true))
        & !PTE_COW
}

/// The entry after a copy-on-write fault on an unshared page.
pub open spec fn cow_reused_entry(e: u64) -> u64 {
    (e | PTE_W) & !PTE_COW
}

/// Resolves a copy-on-write fault on the entry at `slot` (the page at
/// `_vaddr`): a frame shared with other mappings is replaced by a fresh one
/// (the old one loses a reference); an unshared one is made writable.
pub fn handle_cow_fault(ram: &mut Ram, _vaddr: VirtAddr, slot: PteSlot) -> (r: CowResult)
    requires
        old(ram).wf(),
        holds_table(old(ram).table_words(), slot.table.0),
        slot.index < 512,
        ({
            let e = pte_word(old(ram).table_words(), slot.table.0, slot.index as int);
            let pa = spec_ppn_to_addr(e);
            &&& old(ram).is_allocated(pa)
            &&& old(ram).ref_of(pa) > 1 ==> frames_available(*old(ram)) >= 1
        }),
    ensures
        final(ram).wf(),
        ({
            let w = old(ram).table_words();
            let e = pte_word(w, slot.table.0, slot.index as int);
            let pa = spec_ppn_to_addr(e);
            let put = |v: u64|
                w.update(
                    spec_frame_index(slot.table.0),
                    w[spec_frame_index(slot.table.0)].update(slot.index as int, v),
                );
            if old(ram).ref_of(pa) > 1 {
                &&& r matches CowResult::Copied { from, to } && from.0 == pa && {
                    &&& is_frame(to.0)
                    &&& !old(ram).is_allocated(to.0)
                    &&& final(ram).is_allocated(to.0)
                    &&& final(ram).ref_of(to.0) == 1
                    &&& final(ram).ref_of(pa) == old(ram).ref_of(pa) - 1
                    &&& final(ram).table_words() == put(cow_copied_entry(e, to.0))
                    &&& final(ram).next_frame >= old(ram).next_frame
                    &&& frames_available(*final(ram)) == frames_available(*old(ram)) - 1
                    &&& forall|q: usize|
                        #![trigger final(ram).is_allocated(q)]
                        #![trigger final(ram).ref_of(q)]
                        is_frame(q) && q != to.0 && q != pa ==> final(ram).is_allocated(q) == old(
                            ram,
                        ).is_allocated(q) && final(ram).ref_of(q) == old(ram).ref_of(q)
                    &&& final(ram).is_allocated(pa)
                }
            } else {
                &&& r == CowResult::Reused
                &&& final(ram).table_words() == put(cow_reused_entry(e))
                &&& final(ram).refs@ == old(ram).refs@
                &&& final(ram).free_list@ == old(ram).free_list@
                &&& final(ram).next_frame == old(ram).next_frame
            }
        }),
{
    let mut entry = PTEntry(ram.read_pte(slot.table, slot.index));
    let ppn = entry.ppn_to_addr();
    let refcount = ram.get_ref(ppn);
    if refcount > 1 {
        let new_frame = match ram.alloc_frame() {
            Some(f) => f,
            None => {
                assert(false);
                return CowResult::Reused;
            },
        };
        assert(ppn.0 != new_frame.0);
        assert(ram.ref_of(ppn.0) == old(ram).ref_of(ppn.0));
        assert(ram.is_allocated(ppn.0));
        let ghost r1 = *ram;
        ram.dec_ref(ppn);
        let ghost r2 = *ram;
        proof {
            assert((ppn.0 - RAM_BASE) % 4096 == 0);
        }
        let f = entry.flags();
        let nf = PTEFlags::new(true, true, f.is_x(), true);
        entry = PTEntry::new_leaf(new_frame, nf);
        entry.clear_cow();
        ram.write_pte(slot.table, slot.index, entry.0);
        proof {
            assert forall|q: usize| is_frame(q) && q != new_frame.0 && q != ppn.0 implies ram.is_allocated(q)
                == old(ram).is_allocated(q) && ram.ref_of(q) == old(ram).ref_of(q) by {
                assert(r2.is_allocated(q) == r1.is_allocated(q));
                assert(r2.ref_of(q) == r1.ref_of(q));
                assert(r1.is_allocated(q) == old(ram).is_allocated(q));
                assert(r1.ref_of(q) == old(ram).ref_of(q));
            }
        }
        CowResult::Copied { from: ppn, to: new_frame }
    } else {
        entry.set_w(true);
        entry.clear_cow();
        ram.write_pte(slot.table, slot.index, entry.0);
        CowResult::Reused
    }
}

/// An entry that a write must resolve first: copy-on-write, readable, not
/// writable, user.
pub open spec fn cow_pending(e: u64) -> bool {
    e & PTE_COW != 0 && e & PTE_R != 0 && e & PTE_W == 0 && e & PTE_U != 0
}

/// A copy-on-write fault at `va` in the page table at `root` can be
/// resolved: the frame is handed out, and a frame is free when it is shared.
pub open spec fn cow_resolvable(ram: Ram, root: usize, va: usize) -> bool {
    match lookup_entry(ram.table_words(), root, va) {
        Some(e) => cow_pending(e) ==> {
            &&& ram.is_allocated(spec_ppn_to_addr(e))
            &&& ram.ref_of(spec_ppn_to_addr(e)) > 1 ==> frames_available(ram) >= 1
        },
        None => true,
    }
}

/// The effect of resolving the copy-on-write entry `e` at `va` in the page
/// table at `root`, from `o` to `f`, with outcome `cr`: the page's entry is
/// replaced (by a private copy when the frame was shared, made writable in
/// place otherwise) and no other entry changes.
pub open spec fn cow_resolved(o: Ram, f: Ram, root: usize, va: usize, e: u64, cr: CowResult) -> bool {
    let pa = spec_ppn_to_addr(e);
    let ow = o.table_words();
    let fw = f.table_words();
    let new_e = match cr {
        CowResult::Copied { from, to } => cow_copied_entry(e, to.0),
        CowResult::Reused => cow_reused_entry(e),
    };
    &&& forall|va2: usize|
        #[trigger] lookup_entry(fw, root, va2) == if page_num(va2) == page_num(va) {
            Some(new_e)
        } else {
            lookup_entry(ow, root, va2)
        }
    &&& forall|t: usize, k: int|
        0 <= k < 512 && leaf_slot(ow, root, va) != Some((t, k)) ==> #[trigger] pte_word(fw, t, k)
            == pte_word(ow, t, k)
    &&& forall|t: usize| #[trigger] holds_table(fw, t) == holds_table(ow, t)
    &&& leaf_slot(ow, root, va) matches Some((t, k)) && fw == ow.update(
        spec_frame_index(t),
        ow[spec_frame_index(t)].update(k, new_e),
    )
    &&& if o.ref_of(pa) > 1 {
        &&& cr matches CowResult::Copied { from, to } && from.0 == pa && {
            &&& !o.is_allocated(to.0)
            &&& f.is_allocated(to.0)
            &&& f.ref_of(to.0) == 1
            &&& f.ref_of(pa) == o.ref_of(pa) - 1
            &&& f.is_allocated(pa)
            &&& frames_available(f) == frames_available(o) - 1
            &&& forall|q: usize|
                #![trigger f.is_allocated(q)]
                #![trigger f.ref_of(q)]
                is_frame(q) && q != to.0 && q != pa ==> f.is_allocated(q) == o.is_allocated(q)
                    && f.ref_of(q) == o.ref_of(q)
        }
    } else {
        &&& cr == CowResult::Reused
        &&& f.refs@ == o.refs@
        &&& f.free_list@ == o.free_list@
        &&& f.next_frame == o.next_frame
    }
}

impl Kernel {
    /// Whether a copy-on-write fault at `va` can be resolved now: the
    /// page's frame is handed out, and a frame is free when it is shared.
    pub fn cow_fault_ready(&self, va: usize) -> (r: bool)
        requires
            self.wf(),
        ensures
            r == cow_resolvable(self.ram, self.root(), va),
    {
        let pt = self.sched.current().page_table;
        match pt.lookup(&self.ram, VirtAddr(va)) {
            None => true,
            Some(slot) => {
                let e = PTEntry(self.ram.read_pte(slot.table, slot.index));
                if !(e.is_cow() && e.is_r() && !e.is_w() && e.is_u()) {
                    return true;
                }
                let pa = e.ppn_to_addr();
                if !self.ram.is_handed_out(pa) {
                    return false;
                }
                proof {
                    crate::mm::page_table::lemma_frames_available_pos(self.ram);
                }
                self.ram.get_ref(pa) <= 1 || self.ram.has_free_frame()
            },
        }
    }

    /// Resolves a pending copy-on-write entry for `vaddr` in the running
    /// process's page table; `None` (and nothing changed) when the entry
    /// there is not one.
    pub fn resolve_cow(&mut self, vaddr: usize) -> (r: Option<CowResult>)
        requires
            old(self).wf(),
            cow_resolvable(old(self).ram, old(self).root(), vaddr),
        ensures
            final(self).wf(),
            final(self).sched == old(self).sched,
            match lookup_entry(old(self).ram.table_words(), old(self).root(), vaddr) {
                Some(e) => if cow_pending(e) {
                    r matches Some(cr) && cow_resolved(
                        old(self).ram,
                        final(self).ram,
                        old(self).root(),
                        vaddr,
                        e,
                        cr,
                    )
                } else {
                    r is None && *final(self) == *old(self)
                },
                None => r is None && *final(self) == *old(self),
            },
    {
        let pt = self.sched.current().page_table;
        let slot = match pt.lookup(&self.ram, VirtAddr(vaddr)) {
            Some(s) => s,
            None => {
                return None;
            },
        };
        let entry = PTEntry(self.ram.read_pte(slot.table, slot.index));
        if !(entry.is_cow() && entry.is_r() && !entry.is_w() && entry.is_u()) {
            return None;
        }
        let ghost w0 = self.ram.table_words();
        let ghost e = entry.0;
        proof {
            let pa = spec_ppn_to_addr(e);
            assert(lookup_entry(w0, pt.root.0, vaddr) == Some(e));
        }
        let cr = handle_cow_fault(&mut self.ram, VirtAddr(vaddr), slot);
        proof {
            let w1 = self.ram.table_words();
            let new_e = match cr {
                CowResult::Copied { from, to } => cow_copied_entry(e, to.0),
                CowResult::Reused => cow_reused_entry(e),
            };
            crate::syscall::user_mem::lemma_write_page_entry(
                w0,
                w1,
                pt.root.0,
                vaddr,
                slot.table.0,
                slot.index as int,
                new_e,
            );
            crate::mm::page_table::lemma_write_words(w0, w1, slot.table.0, slot.index as int, new_e);
        }
        Some(cr)
    }
}

/// How a page fault ends.
#[derive(Clone, Copy, PartialEq, Eq, Structural, Debug)]
pub enum FaultOutcome {
    /// A store to a copy-on-write page: resolved, the process goes on.
    Resolved(CowResult),
    /// Any other fault: the process was killed with code 1 and the caller
    /// schedules another one.
    Killed,
}

impl Kernel {
    /// Kills the running process after a fault it cannot survive: its
    /// children go to init, it becomes a zombie with code 1, and its
    /// parent, when blocked, is woken.
    pub fn do_segfault(&mut self)
        requires
            old(self).wf(),
        ensures
            final(self).wf(),
            final(self).ram == old(self).ram,
            final(self).sched.current == old(self).sched.current,
            final(self).sched.next_pid == old(self).sched.next_pid,
            final(self).sched.procs@ == exited_procs(
                old(self).sched.procs@,
                old(self).sched.current as int,
                1,
            ),
    {
        let ghost o = *self;
        self.sched.reparent_orphans_to_init();
        let mut c = *self.sched.current();
        c.state = ProcessState::Zombie(1);
        self.sched.set_current(c);
        let ghost p2 = self.sched.procs@;
        proof {
            let procs = o.sched.procs@;
            let cur = procs[o.sched.current as int]->Some_0;
            let p1 = Seq::new(procs.len(), |i: int| reparented(procs[i], cur.pid));
            assert(p2 =~= p1.update(
                o.sched.current as int,
                Some(Process { state: ProcessState::Zombie(1), ..p1[o.sched.current as int]->Some_0 }),
            ));
        }
        self.sched.wake_parent();
    }

    /// A page fault with cause `scause` at `stval`: a store fault (15) on a
    /// copy-on-write page is resolved; any other fault kills the process.
    pub fn page_fault_handler(&mut self, scause: usize, stval: usize) -> (r: FaultOutcome)
        requires
            old(self).wf(),
            scause == 15 ==> cow_resolvable(old(self).ram, old(self).root(), stval),
        ensures
            final(self).wf(),
            old(self).user_counted() ==> final(self).user_counted(),
            if scause == 15 && (lookup_entry(old(self).ram.table_words(), old(self).root(), stval) matches Some(e)
                && cow_pending(e)) {
                let e = lookup_entry(old(self).ram.table_words(), old(self).root(), stval)->Some_0;
                &&& r matches FaultOutcome::Resolved(cr)
                &&& cow_resolved(old(self).ram, final(self).ram, old(self).root(), stval, e, cr)
                &&& final(self).sched == old(self).sched
            } else {
                &&& r == FaultOutcome::Killed
                &&& final(self).ram == old(self).ram
                &&& final(self).sched.current == old(self).sched.current
                &&& final(self).sched.next_pid == old(self).sched.next_pid
                &&& final(self).sched.procs@ == exited_procs(
                    old(self).sched.procs@,
                    old(self).sched.current as int,
                    1,
                )
            },
    {
        let ghost o = *self;
        proof {
            o.lemma_user_counted();
        }
        if scause != 15 {
            self.do_segfault();
            proof {
                self.lemma_user_counted();
            }
            return FaultOutcome::Killed;
        }
        match self.resolve_cow(stval) {
            Some(cr) => {
                proof {
                    self.lemma_user_counted();
                    if o.user_counted() {
                        let e = lookup_entry(o.ram.table_words(), o.root(), stval)->Some_0;
                        lemma_counted_after_cow(o.ram, self.ram, o.root(), stval, e, cr);
                    }
                }
                FaultOutcome::Resolved(cr)
            },
            None => {
                self.do_segfault();
                proof {
                    self.lemma_user_counted();
                }
                FaultOutcome::Killed
            },
        }
    }
}

/// What a trap asks of the kernel.
#[derive(Clone, Copy, PartialEq, Eq, Structural, Debug)]
pub enum TrapKind {
    /// An interrupt (the timer).
    Interrupt,
    /// A system call from user mode.
    Syscall,
    /// An instruction, load or store page fault.
    PageFault,
    /// Anything else: the machine is stopped.
    Fatal,
}

/// The kind of trap that `scause` reports: the top bit marks an interrupt;
/// exception 8 is a user system call, 12, 13 and 15 are page faults.
pub fn trap_kind(scause: u64) -> (r: TrapKind)
    ensures
        r == if scause >> 63u64 == 1 {
            TrapKind::Interrupt
        } else if scause == 8 {
            TrapKind::Syscall
        } else if scause == 12 || scause == 13 || scause == 15 {
            TrapKind::PageFault
        } else {
            TrapKind::Fatal
        },
{
    if scause >> 63 == 1 {
        TrapKind::Interrupt
    } else {
        match scause {
            8 => TrapKind::Syscall,
            12 | 13 | 15 => TrapKind::PageFault,
            _ => TrapKind::Fatal,
        }
    }
}

/// The timer interval, in ticks of the time counter.
pub const TIMER_INTERVAL: u64 = 10_000_000;

/// The next timer deadline after `now`.
pub fn next_timer_deadline(now: u64) -> (r: u64)
    requires
        now <= u64::MAX - TIMER_INTERVAL,
    ensures
        r == now + TIMER_INTERVAL,
{
    now + TIMER_INTERVAL
}

/// The report of a fault that kills the running process: a new line,
/// `[SEGFAULT] scause=0x`, the 16 hex digits of `scause`, ` stval=0x`, the
/// 16 hex digits of `stval`, and a new line.
pub fn segfault_report(tx: &mut Vec<u8>, scause: usize, stval: usize)
    ensures
        final(tx)@ == old(tx)@ + seq![13u8, 10u8, 91u8, 83u8, 69u8, 71u8, 70u8, 65u8, 85u8, 76u8, 84u8, 93u8, 32u8, 115u8, 99u8, 97u8, 117u8, 115u8, 101u8, 61u8, 48u8, 120u8] + hex_digits(scause as u64) + seq![32u8, 115u8, 116u8, 118u8, 97u8, 108u8, 61u8, 48u8, 120u8]
            + hex_digits(stval as u64) + seq![13u8, 10u8],
{
    let ghost t0 = tx@;
    tx.push(13u8);
    tx.push(10u8);
    tx.push(91u8);
    tx.push(83u8);
    tx.push(69u8);
    tx.push(71u8);
    tx.push(70u8);
    tx.push(65u8);
    tx.push(85u8);
    tx.push(76u8);
    tx.push(84u8);
    tx.push(93u8);
    tx.push(32u8);
    tx.push(115u8);
    tx.push(99u8);
    tx.push(97u8);
    tx.push(117u8);
    tx.push(115u8);
    tx.push(101u8);
    tx.push(61u8);
    tx.push(48u8);
    tx.push(120u8);
    assert(tx@ == t0 + seq![13u8, 10u8, 91u8, 83u8, 69u8, 71u8, 70u8, 65u8, 85u8, 76u8, 84u8, 93u8, 32u8, 115u8, 99u8, 97u8, 117u8, 115u8, 101u8, 61u8, 48u8, 120u8]);
    print_hex(tx, scause);
    let ghost t1 = tx@;
    tx.push(32u8);
    tx.push(115u8);
    tx.push(116u8);
    tx.push(118u8);
    tx.push(97u8);
    tx.push(108u8);
    tx.push(61u8);
    tx.push(48u8);
    tx.push(120u8);
    assert(tx@ == t1 + seq![32u8, 115u8, 116u8, 118u8, 97u8, 108u8, 61u8, 48u8, 120u8]);
    print_hex(tx, stval);
    let ghost t2 = tx@;
    tx.push(13u8);
    tx.push(10u8);
    assert(tx@ == t2 + seq![13u8, 10u8]);
}

/// The report of a trap the kernel cannot handle, before the machine stops:
/// a new line, `[TRAP]`, a new line, ` scause: 0x`, the 16 hex digits of
/// `scause`, and a new line.
pub fn fatal_trap_report(tx: &mut Vec<u8>, scause: usize)
    ensures
        final(tx)@ == old(tx)@ + seq![13u8, 10u8, 91u8, 84u8, 82u8, 65u8, 80u8, 93u8, 13u8, 10u8, 32u8, 115u8, 99u8, 97u8, 117u8, 115u8, 101u8, 58u8, 32u8, 48u8, 120u8] + hex_digits(scause as u64) + seq![13u8, 10u8],
{
    let ghost t0 = tx@;
    tx.push(13u8);
    tx.push(10u8);
    tx.push(91u8);
    tx.push(84u8);
    tx.push(82u8);
    tx.push(65u8);
    tx.push(80u8);
    tx.push(93u8);
    tx.push(13u8);
    tx.push(10u8);
    tx.push(32u8);
    tx.push(115u8);
    tx.push(99u8);
    tx.push(97u8);
    tx.push(117u8);
    tx.push(115u8);
    tx.push(101u8);
    tx.push(58u8);
    tx.push(32u8);
    tx.push(48u8);
    tx.push(120u8);
    assert(tx@ == t0 + seq![13u8, 10u8, 91u8, 84u8, 82u8, 65u8, 80u8, 93u8, 13u8, 10u8, 32u8, 115u8, 99u8, 97u8, 117u8, 115u8, 101u8, 58u8, 32u8, 48u8, 120u8]);
    print_hex(tx, scause);
    let ghost t2 = tx@;
    tx.push(13u8);
    tx.push(10u8);
    assert(tx@ == t2 + seq![13u8, 10u8]);
}

/// A timer interrupt: counts one more tick in `ticks`, reports the count on
/// the console (`tick `, its 16 hex digits, a new line), and returns the
/// next deadline.
pub fn timer_tick(ticks: &mut usize, tx: &mut Vec<u8>, now: u64) -> (r: u64)
    requires
        *old(ticks) < usize::MAX,
        now <= u64::MAX - TIMER_INTERVAL,
    ensures
        *final(ticks) == *old(ticks) + 1,
        final(tx)@ == old(tx)@ + seq![116u8, 105u8, 99u8, 107u8, 32u8] + hex_digits(
            (*old(ticks) + 1) as u64,
        ) + seq![13u8, 10u8],
        r == now + TIMER_INTERVAL,
{
    *ticks = *ticks + 1;
    let ghost t0 = tx@;
    tx.push(116u8);
    tx.push(105u8);
    tx.push(99u8);
    tx.push(107u8);
    tx.push(32u8);
    assert(tx@ == t0 + seq![116u8, 105u8, 99u8, 107u8, 32u8]);
    let ghost t1 = tx@;
    print_hex(tx, *ticks);
    let ghost t2 = tx@;
    tx.push(13u8);
    tx.push(10u8);
    assert(tx@ == t2 + seq![13u8, 10u8]);
    next_timer_deadline(now)
}

/// The system call that a trap frame asks for: its number (`a7`) and its
/// six arguments (`a0` to `a5`).
pub fn syscall_request(tf: &TrapFrame) -> (r: (usize, [usize; 6]))
    ensures
        r.0 == tf.regs@[17],
        r.1@ == tf.regs@.subrange(10, 16),
{
    let args = [tf.regs[10], tf.regs[11], tf.regs[12], tf.regs[13], tf.regs[14], tf.regs[15]];
    assert(args@ =~= tf.regs@.subrange(10, 16));
    (tf.regs[17], args)
}


/// The frame and the user bit of a resolved copy-on-write entry.
proof fn lemma_resolved_frame(e: u64, to: usize)
    requires
        is_frame(to),
    ensures
        spec_ppn_to_addr(cow_copied_entry(e, to)) == to,
        user_entry(cow_copied_entry(e, to)),
        spec_ppn_to_addr(cow_reused_entry(e)) == spec_ppn_to_addr(e),
        user_entry(cow_reused_entry(e)) == user_entry(e),
{
    let x = (e & 0xffu64) as u8 & 8u8 != 0;
    crate::mm::page_table::lemma_flag_bits(true, true, x, true);
    let f = spec_flag_bits(true, true, x, true);
    crate::mm::page_table::lemma_leaf_entry(to, f);
    let l = spec_new_leaf(to, f);
    assert(((l & !0x100u64) >> 10u64) & 0xFFFF_FFFF_FFFFu64 == (l >> 10u64) & 0xFFFF_FFFF_FFFFu64
        && (l & !0x100u64) & 1u64 != 0 && (l & !0x100u64) & 0x10u64 != 0) by (bit_vector)
        requires
            l & 0xffu64 == f as u64,
            f & 1u8 == 1u8,
            f & 16u8 != 0,
    ;
    assert(cow_copied_entry(e, to) == l & !0x100u64);
    assert((((e | 0x4u64) & !0x100u64) >> 10u64) & 0xFFFF_FFFF_FFFFu64 == (e >> 10u64)
        & 0xFFFF_FFFF_FFFFu64 && ((e | 0x4u64) & !0x100u64) & 1u64 == e & 1u64 && ((e | 0x4u64)
        & !0x100u64) & 0x10u64 == e & 0x10u64) by (bit_vector);
}

/// After a copy-on-write fault is resolved, each user page of the running
/// process maps the frame it mapped before, or one that was free before.
pub proof fn lemma_cow_frames_old_or_fresh(o: Ram, f: Ram, root: usize, va: usize, e: u64, cr: CowResult)
    requires
        o.wf(),
        tree_shaped(o.table_words(), root),
        lookup_entry(o.table_words(), root, va) == Some(e),
        cow_pending(e),
        cow_resolved(o, f, root, va, e, cr),
    ensures
        forall|v: usize|
            #[trigger] user_frame_at(f.table_words(), root, v) is Some ==> user_frame_at(
                f.table_words(),
                root,
                v,
            ) == user_frame_at(o.table_words(), root, v) || !o.is_allocated(
                user_frame_at(f.table_words(), root, v)->Some_0,
            ),
{
    let ow = o.table_words();
    let fw = f.table_words();
    let pa = spec_ppn_to_addr(e);
    let new_e = match cr {
        CowResult::Copied { from, to } => cow_copied_entry(e, to.0),
        CowResult::Reused => cow_reused_entry(e),
    };
    if let CowResult::Copied { from, to } = cr {
        assert(o.ref_of(pa) > 1);
        lemma_resolved_frame(e, to.0);
    } else {
        lemma_resolved_frame(e, 0x8000_0000);
    }
    assert forall|v: usize| #[trigger] user_frame_at(fw, root, v) is Some implies user_frame_at(fw, root, v)
        == user_frame_at(ow, root, v) || !o.is_allocated(user_frame_at(fw, root, v)->Some_0) by {
        if page_num(v) == page_num(va) {
            crate::mm::page_table::lemma_page_num(v, va);
            assert(lookup_entry(fw, root, v) == Some(new_e));
            assert(lookup_entry(ow, root, v) == lookup_entry(ow, root, va));
        }
    }
}

/// Resolving a copy-on-write fault keeps the frames of the running
/// process's user pages counted.
pub proof fn lemma_counted_after_cow(o: Ram, f: Ram, root: usize, va: usize, e: u64, cr: CowResult)
    requires
        o.wf(),
        tree_shaped(o.table_words(), root),
        frames_counted(o, root, 0, USER_SPACE_TOP as int),
        lookup_entry(o.table_words(), root, va) == Some(e),
        cow_pending(e),
        cow_resolved(o, f, root, va, e, cr),
    ensures
        frames_counted(f, root, 0, USER_SPACE_TOP as int),
{
    let ow = o.table_words();
    let fw = f.table_words();
    let pa = spec_ppn_to_addr(e);
    let (t0, k0) = leaf_slot(ow, root, va)->Some_0;
    crate::mm::page_table::lemma_vpn_bounds(va);
    // the root and second-level tables keep their words
    assert forall|i: int| 0 <= i < 512 implies #[trigger] pte_word(fw, root, i) == pte_word(ow, root, i) by {
        assert(pte_valid(pte_word(ow, root, spec_vpn2(va) as int)));
    }
    assert forall|i: int, j: int|
        0 <= i < 512 && 0 <= j < 512 && pte_valid(pte_word(ow, root, i)) implies #[trigger] pte_word(
        fw,
        l1_of(ow, root, i),
        j,
    ) == pte_word(ow, l1_of(ow, root, i), j) by {
        assert(pte_valid(pte_word(ow, root, spec_vpn2(va) as int)));
        assert(pte_valid(pte_word(ow, l1_of(ow, root, spec_vpn2(va) as int), spec_vpn1(va) as int)));
        assert(t0 == l0_of(ow, root, spec_vpn2(va) as int, spec_vpn1(va) as int));
    }
    assert forall|i: int, j: int|
        0 <= i < 512 && 0 <= j < 512 && pte_valid(pte_word(ow, root, i)) implies #[trigger] pte_word(
        fw,
        l1_of(fw, root, i),
        j,
    ) == pte_word(ow, l1_of(ow, root, i), j) by {
        assert(l1_of(fw, root, i) == l1_of(ow, root, i));
    }
    crate::mm::page_table::lemma_same_upper_levels(ow, fw, root);
    let nf: Option<usize> = match cr {
        CowResult::Copied { from, to } => Some(to.0),
        CowResult::Reused => if user_entry(e) {
            Some(pa)
        } else {
            None
        },
    };
    let new_e = match cr {
        CowResult::Copied { from, to } => cow_copied_entry(e, to.0),
        CowResult::Reused => cow_reused_entry(e),
    };
    if let CowResult::Copied { from, to } = cr {
        assert(o.ref_of(pa) > 1);
        lemma_resolved_frame(e, to.0);
        lemma_unallocated_outside(o, root, to.0);
    } else {
        lemma_resolved_frame(e, 0x8000_0000);
    }
    assert(user_entry(e) ==> user_frame_at(ow, root, va) == Some(pa));
    assert forall|v: usize| #[trigger] user_frame_at(fw, root, v) == if page_num(v) == page_num(va) {
        nf
    } else {
        user_frame_at(ow, root, v)
    } by {
        if page_num(v) == page_num(va) {
            assert(lookup_entry(fw, root, v) == Some(new_e));
        }
    }
    assert forall|v: usize|
        #![trigger user_frame_at(fw, root, v)]
        page_in(v, 0, USER_SPACE_TOP as int) && user_frame_at(fw, root, v) is Some implies {
        let q = user_frame_at(fw, root, v)->Some_0;
        &&& is_frame(q)
        &&& f.ref_of(q) >= 1
        &&& f.is_allocated(q)
        &&& outside_tree(fw, root, q)
    } by {
        crate::mm::page_table::lemma_page_num(v, va);
        if page_num(v) == page_num(va) {
            if !(cr is Copied) {
                assert(user_frame_at(ow, root, v) == Some(pa));
                assert(o.is_allocated(pa));
            }
        } else {
            let q = user_frame_at(ow, root, v)->Some_0;
            assert(o.is_allocated(q));
            if let CowResult::Copied { from, to } = cr {
                assert(q != to.0);
                if q == pa {
                    assert(f.ref_of(pa) == o.ref_of(pa) - 1);
                }
            }
        }
    }
    assert forall|v1: usize, v2: usize|
        #![trigger user_frame_at(fw, root, v1), user_frame_at(fw, root, v2)]
        page_in(v1, 0, USER_SPACE_TOP as int) && page_in(v2, 0, USER_SPACE_TOP as int) && page_num(v1)
            != page_num(v2) && user_frame_at(fw, root, v1) is Some implies user_frame_at(fw, root, v1)
        != user_frame_at(fw, root, v2) by {
        if user_frame_at(fw, root, v2) is Some {
            if page_num(v1) != page_num(va) && page_num(v2) != page_num(va) {
                assert(user_frame_at(ow, root, v1) != user_frame_at(ow, root, v2));
            } else if page_num(v1) == page_num(va) {
                assert(o.is_allocated(user_frame_at(ow, root, v2)->Some_0));
                crate::mm::page_table::lemma_page_num(v1, va);
                assert(lookup_entry(ow, root, v1) == lookup_entry(ow, root, va));
                if !(cr is Copied) {
                    assert(user_frame_at(ow, root, v1) == user_frame_at(fw, root, v1));
                    assert(user_frame_at(ow, root, v1) != user_frame_at(ow, root, v2));
                }
            } else {
                assert(o.is_allocated(user_frame_at(ow, root, v1)->Some_0));
                crate::mm::page_table::lemma_page_num(v2, va);
                assert(lookup_entry(ow, root, v2) == lookup_entry(ow, root, va));
                if !(cr is Copied) && user_frame_at(fw, root, v2) is Some {
                    assert(user_frame_at(ow, root, v2) == user_frame_at(fw, root, v2));
                    assert(user_frame_at(ow, root, v1) != user_frame_at(ow, root, v2));
                }
            }
        }
    }
}

} // verus!
