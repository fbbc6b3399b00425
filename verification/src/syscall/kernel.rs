//! The kernel state and the system calls that change memory: `brk`, `mmap`,
//! `munmap`.
use vstd::prelude::*;

use crate::mm::frame::Ram;
use crate::mm::page_table::{
    lookup_entry, spec_flag_bits, translate, tree_shaped, valid_entry, PTEFlags, PageTable,
};
use crate::syscall::areas::{
    area_end, areas_wf, gap_fits, is_first_free, overlaps, can_split_mmap_range, choose_mmap_addr, covers, find_free_mmap_slot,
    has_free_slot, lemma_first_free_unique, lemma_insert_area,
    lemma_mmap_addr_fits, lemma_mmap_addr_unique, needs_split, remove_mmap_range,
    spec_first_free, spec_mmap_addr,
};
use crate::syscall::errno::{
    align_up, checked_align_up, lemma_align_up_mono, linux_error, pte_flags_from_prot, spec_align_up, spec_linux_error,
    spec_pte_flags_from_prot, EINVAL, ENOMEM, ENOSYS, MAP_ANONYMOUS, MAP_FIXED, MAP_PRIVATE,
    lemma_prot_some_access,
};
use crate::syscall::user_mem::{
    frames_counted, keeps_outside, lemma_counted_after_growth, lemma_counted_after_unmap,
    map_affordable,
    map_zeroed_user_pages, mapped_prefix, page_in, range_unmapped, rolled_back, unmap_progress,
    unmap_user_pages, user_frame_at,
};
use crate::task::process::{
    MmapArea, Process, ProcessState, MAX_MMAP_AREAS, USER_HEAP_LIMIT, USER_HEAP_START, USER_MMAP_LIMIT,
    USER_MMAP_START, USER_SPACE_TOP,
};
use crate::task::scheduler::{first_blocked_with_pid, reparented, Scheduler, MAX_PROCESSES};
use crate::task::trapframe::TrapFrame;

verus! {

/// A process's own bookkeeping is consistent: its areas are well formed,
/// its heap lies in the heap region, and its kernel stack has room for a
/// trap frame.
pub open spec fn proc_wf(p: Process) -> bool {
    &&& areas_wf(p.mmap_areas@)
    &&& USER_HEAP_START <= p.heap_start <= p.heap_end <= USER_HEAP_LIMIT
    &&& p.kernel_sp >= TrapFrame::SIZE
}

/// The whole kernel state: RAM (frames and page tables) and the process
/// table.
pub struct Kernel {
    pub ram: Ram,
    pub sched: Scheduler,
}

/// Flags of heap pages: readable, writable, user.
pub open spec fn heap_flags() -> u8 {
    spec_flag_bits(true, true, false, true)
}

impl Kernel {
    pub open spec fn wf(&self) -> bool {
        &&& self.ram.wf()
        &&& self.sched.wf()
        &&& proc_wf(self.sched.cur())
        &&& tree_shaped(self.ram.table_words(), self.root())
    }

    /// Root table of the running process.
    pub open spec fn root(&self) -> usize {
        self.sched.cur().page_table.root.0
    }

    /// The frames mapped by the running process's user pages are counted
    /// (see [`frames_counted`] and [`Kernel::lemma_user_counted`]).
    pub closed spec fn user_counted(&self) -> bool {
        frames_counted(self.ram, self.root(), 0, USER_SPACE_TOP as int)
    }

    /// What [`Kernel::user_counted`] says.
    pub proof fn lemma_user_counted(&self)
        ensures
            self.user_counted() == frames_counted(self.ram, self.root(), 0, USER_SPACE_TOP as int),
    {
    }

    /// The process table is as in `old` but for the running process, which
    /// is now `p`.
    pub open spec fn cur_became(&self, old: Kernel, p: Process) -> bool {
        &&& self.sched.same_except(old.sched, old.sched.current as int)
        &&& self.sched.cur() == p
    }

    /// `brk`: moves the running process's heap end to `new_break` when that
    /// lies in `[heap_start, USER_HEAP_LIMIT]` (0 only asks), mapping fresh
    /// zeroed pages when it grows and unmapping pages when it shrinks;
    /// returns the heap end afterwards.
    pub fn sys_brk(&mut self, new_break: usize) -> (r: usize)
        requires
            old(self).wf(),
            old(self).user_counted(),
        ensures
            final(self).wf(),
            final(self).user_counted(),
            brk_post(*old(self), *final(self), new_break, r),
    {
        let p = *self.sched.current();
        let old_break = p.heap_end;
        let heap_start = p.heap_start;
        if new_break == 0 {
            return old_break;
        }
        if new_break < heap_start || new_break > USER_HEAP_LIMIT {
            return old_break;
        }
        let pt = p.page_table;
        let ghost r0 = self.ram;
        proof {
            lemma_align_up_mono(old_break as int, USER_HEAP_LIMIT as int);
            lemma_align_up_mono(new_break as int, USER_HEAP_LIMIT as int);
            lemma_align_up_mono(0, old_break as int);
        }
        if new_break > old_break {
            let grew = grow_heap(&mut self.ram, &pt, old_break, new_break);
            proof {
                lemma_counted_after_growth(
                    r0,
                    self.ram,
                    pt.root.0,
                    spec_align_up(old_break as int),
                    spec_align_up(new_break as int),
                    grew,
                    heap_flags(),
                );
            }
            if !grew {
                return old_break;
            }
        } else if new_break < old_break {
            proof {
                crate::syscall::user_mem::lemma_counted_sub(
                    self.ram,
                    pt.root.0,
                    0,
                    USER_SPACE_TOP as int,
                    spec_align_up(new_break as int),
                    spec_align_up(old_break as int),
                );
            }
            proof {
                lemma_align_up_mono(new_break as int, old_break as int);
            }
            shrink_heap(&mut self.ram, &pt, new_break, old_break);
            proof {
                lemma_align_up_mono(0, new_break as int);
                lemma_counted_after_unmap(
                    r0,
                    self.ram,
                    pt.root.0,
                    spec_align_up(new_break as int),
                    spec_align_up(old_break as int),
                );
            }
        }
        let mut np = p;
        np.heap_end = new_break;
        self.sched.set_current(np);
        new_break
    }
}

/// What `brk` does (see [`Kernel::sys_brk`]).
pub open spec fn brk_post(o: Kernel, f: Kernel, new_break: usize, r: usize) -> bool {
    let p = o.sched.cur();
    let ob = p.heap_end;
    let root = o.root();
    let in_range = new_break != 0 && p.heap_start <= new_break <= USER_HEAP_LIMIT;
    let moved = Process { heap_end: new_break, ..p };
    &&& !in_range ==> r == ob && f == o
    &&& in_range && new_break == ob ==> r == ob && f.ram == o.ram && f.cur_became(o, moved)
    &&& in_range && new_break < ob ==> {
        &&& r == new_break
        &&& f.cur_became(o, moved)
        &&& unmap_progress(
            o.ram,
            f.ram,
            root,
            spec_align_up(new_break as int),
            spec_align_up(ob as int),
        )
    }
    &&& in_range && new_break > ob ==> {
        &&& map_affordable(o.ram, root, spec_align_up(ob as int), spec_align_up(new_break as int)) ==> r
            == new_break
        &&& r == new_break ==> range_unmapped(
            o.ram.table_words(),
            root,
            spec_align_up(ob as int),
            spec_align_up(new_break as int),
        )
    }
    &&& in_range && new_break > ob ==> {
        ||| {
            &&& r == new_break
            &&& f.cur_became(o, moved)
            &&& mapped_prefix(
                o.ram,
                f.ram,
                root,
                spec_align_up(ob as int),
                spec_align_up(new_break as int),
                heap_flags(),
            )
        }
        ||| {
            &&& r == ob
            &&& f.sched == o.sched
            &&& rolled_back(o.ram, f.ram, root)
        }
    }
}

/// What `mmap` does (see [`Kernel::sys_mmap`]).
pub open spec fn mmap_post(
    o: Kernel,
    f: Kernel,
    addr: usize,
    len: usize,
    prot: usize,
    flags: usize,
    offset: usize,
    r: usize,
) -> bool {
    let p = o.sched.cur();
    let areas = p.mmap_areas@;
    let alen = spec_align_up(len as int) as usize;
    let place = spec_mmap_addr(areas, addr, alen);
    match mmap_arg_error(len, prot, flags, offset) {
        Some(e) => r == spec_linux_error(e) && f == o,
        None => match place {
            None => r == spec_linux_error(ENOMEM) && f == o,
            Some(start) => if !has_free_slot(areas) {
                r == spec_linux_error(ENOMEM) && f == o
            } else {
                let area = MmapArea { start, len: alen, prot, flags, used: true };
                let np = Process { mmap_areas: f.sched.cur().mmap_areas, ..p };
                &&& map_affordable(o.ram, o.root(), start as int, start + alen) ==> r == start
                &&& r == start ==> range_unmapped(o.ram.table_words(), o.root(), start as int, start + alen)
                &&& {
                    ||| {
                        &&& r == start
                        &&& gap_fits(areas, start as int, alen as int)
                        &&& start % 4096 == 0
                        &&& is_first_free(areas, spec_first_free(areas))
                        &&& f.cur_became(o, np)
                        &&& np.mmap_areas@ == areas.update(spec_first_free(areas), area)
                        &&& mapped_prefix(
                            o.ram,
                            f.ram,
                            o.root(),
                            start as int,
                            start + alen,
                            spec_pte_flags_from_prot(prot)->Some_0,
                        )
                    }
                    ||| {
                        &&& r == spec_linux_error(ENOMEM)
                        &&& f.sched == o.sched
                        &&& rolled_back(o.ram, f.ram, o.root())
                    }
                }
            },
        },
    }
}

/// What `munmap` does (see [`Kernel::sys_munmap`]).
pub open spec fn munmap_post(o: Kernel, f: Kernel, addr: usize, len: usize, r: usize) -> bool {
    let p = o.sched.cur();
    let areas = p.mmap_areas@;
    let end = addr + spec_align_up(len as int);
    match munmap_arg_error(addr, len) {
        Some(e) => r == spec_linux_error(e) && f == o,
        None => if needs_split(areas, addr as int, end) && !has_free_slot(areas) {
            r == spec_linux_error(ENOMEM) && f == o
        } else {
            let np = f.sched.cur();
            &&& r == 0
            &&& f.cur_became(o, Process { mmap_areas: np.mmap_areas, ..p })
            &&& unmap_progress(o.ram, f.ram, o.root(), addr as int, end)
            &&& forall|x: int, pr: usize, fl: usize|
                #[trigger] covers(np.mmap_areas@, x, pr, fl) == (covers(areas, x, pr, fl) && !(addr
                    <= x < end))
        },
    }
}

/// Maps the heap pages between the old and the new break.
pub fn grow_heap(ram: &mut Ram, pt: &PageTable, old_break: usize, new_break: usize) -> (r: bool)
    requires
        old(ram).wf(),
        tree_shaped(old(ram).table_words(), pt.root.0),
        old_break < new_break <= USER_HEAP_LIMIT,
    ensures
        r ==> mapped_prefix(
            *old(ram),
            *final(ram),
            pt.root.0,
            spec_align_up(old_break as int),
            spec_align_up(new_break as int),
            heap_flags(),
        ),
        !r ==> rolled_back(*old(ram), *final(ram), pt.root.0),
        r ==> range_unmapped(
            old(ram).table_words(),
            pt.root.0,
            spec_align_up(old_break as int),
            spec_align_up(new_break as int),
        ),
        map_affordable(*old(ram), pt.root.0, spec_align_up(old_break as int), spec_align_up(new_break as int))
            ==> r,
        forall|va: usize|
            !r || !page_in(va, spec_align_up(old_break as int), spec_align_up(new_break as int))
                ==> #[trigger] valid_entry(final(ram).table_words(), pt.root.0, va) == valid_entry(
                old(ram).table_words(),
                pt.root.0,
                va,
            ),
        keeps_outside(*old(ram), *final(ram), pt.root.0),
{
    let start = align_up(old_break);
    let end = align_up(new_break);
    proof {
        lemma_align_up_mono(old_break as int, new_break as int);
        lemma_align_up_mono(new_break as int, USER_HEAP_LIMIT as int);
    }
    let flags = PTEFlags::new(true, true, false, true);
    map_zeroed_user_pages(ram, pt, start, end, flags)
}

/// Unmaps the heap pages between the new and the old break.
pub fn shrink_heap(ram: &mut Ram, pt: &PageTable, new_break: usize, old_break: usize)
    requires
        old(ram).wf(),
        tree_shaped(old(ram).table_words(), pt.root.0),
        new_break < old_break <= USER_HEAP_LIMIT,
        frames_counted(
            *old(ram),
            pt.root.0,
            spec_align_up(new_break as int),
            spec_align_up(old_break as int),
        ),
    ensures
        unmap_progress(
            *old(ram),
            *final(ram),
            pt.root.0,
            spec_align_up(new_break as int),
            spec_align_up(old_break as int),
        ),
{
    proof {
        lemma_align_up_mono(new_break as int, old_break as int);
        lemma_align_up_mono(old_break as int, USER_HEAP_LIMIT as int);
        lemma_align_up_mono(spec_align_up(old_break as int), spec_align_up(old_break as int));
    }
    unmap_user_pages(ram, pt, align_up(new_break), align_up(old_break));
}

/// The error `mmap` reports for its arguments alone, if any.
pub open spec fn mmap_arg_error(len: usize, prot: usize, flags: usize, offset: usize) -> Option<isize> {
    if len > usize::MAX - 4095 || spec_align_up(len as int) == 0 {
        Some(EINVAL)
    } else if offset & 4095usize != 0 {
        Some(EINVAL)
    } else if flags & MAP_FIXED != 0 {
        Some(ENOSYS)
    } else if flags & MAP_ANONYMOUS == 0 || flags & MAP_PRIVATE == 0 {
        Some(ENOSYS)
    } else if flags & !0x32usize != 0 {
        Some(ENOSYS)
    } else if spec_pte_flags_from_prot(prot) is None {
        Some(EINVAL)
    } else {
        None
    }
}

/// The error `munmap` reports for its arguments alone, if any.
pub open spec fn munmap_arg_error(addr: usize, len: usize) -> Option<isize> {
    if addr & 4095usize != 0 {
        Some(EINVAL)
    } else if len > usize::MAX - 4095 || spec_align_up(len as int) == 0 {
        Some(EINVAL)
    } else if addr + spec_align_up(len as int) > usize::MAX {
        Some(EINVAL)
    } else if addr < USER_MMAP_START || addr + spec_align_up(len as int) > USER_MMAP_LIMIT {
        Some(EINVAL)
    } else {
        None
    }
}

impl Kernel {
    /// `mmap`: makes a private anonymous mapping of `len` bytes (rounded up
    /// to pages, each backed by a fresh zero-filled frame) with protection
    /// `prot`, at the hint when it is free, else at the lowest gap of the
    /// mmap region; returns its address, or `-errno`.
    pub fn sys_mmap(
        &mut self,
        addr: usize,
        len: usize,
        prot: usize,
        flags: usize,
        fd: usize,
        offset: usize,
    ) -> (r: usize)
        requires
            old(self).wf(),
            addr <= usize::MAX - 4095,
        ensures
            final(self).wf(),
            old(self).user_counted() ==> final(self).user_counted(),
            mmap_post(*old(self), *final(self), addr, len, prot, flags, offset, r),
    {
        let len = match checked_align_up(len) {
            Some(l) => {
                if l == 0 {
                    return linux_error(EINVAL);
                }
                l
            },
            None => {
                return linux_error(EINVAL);
            },
        };
        if offset & (4096 - 1) != 0 {
            return linux_error(EINVAL);
        }
        if flags & MAP_FIXED != 0 {
            return linux_error(ENOSYS);
        }
        if flags & MAP_ANONYMOUS == 0 || flags & MAP_PRIVATE == 0 {
            return linux_error(ENOSYS);
        }
        assert(MAP_PRIVATE | MAP_FIXED | MAP_ANONYMOUS == 0x32usize) by (bit_vector);
        if flags & !(MAP_PRIVATE | MAP_FIXED | MAP_ANONYMOUS) != 0 {
            return linux_error(ENOSYS);
        }
        let pte_flags = match pte_flags_from_prot(prot) {
            Some(f) => f,
            None => {
                return linux_error(EINVAL);
            },
        };
        let p = *self.sched.current();
        let start = match choose_mmap_addr(&p.mmap_areas, addr, len) {
            Some(s) => s,
            None => {
                proof {
                    lemma_mmap_addr_unique(p.mmap_areas@, addr, len, None);
                }
                return linux_error(ENOMEM);
            },
        };
        proof {
            lemma_mmap_addr_unique(p.mmap_areas@, addr, len, Some(start));
            lemma_mmap_addr_fits(p.mmap_areas@, addr, len, start);
        }
        let end = start + len;
        let slot = match find_free_mmap_slot(&p.mmap_areas) {
            Some(s) => s,
            None => {
                return linux_error(ENOMEM);
            },
        };
        proof {
            lemma_first_free_unique(p.mmap_areas@, slot as int);
            lemma_prot_some_access(prot);
            crate::mm::page_table::lemma_flag_bits(
                prot & 1 != 0 || prot & 2 != 0,
                prot & 2 != 0,
                prot & 4 != 0,
                true,
            );
        }
        let pt = p.page_table;
        let ghost r0 = self.ram;
        let mapped = map_zeroed_user_pages(&mut self.ram, &pt, start, end, pte_flags);
        proof {
            if old(self).user_counted() {
                lemma_counted_after_growth(r0, self.ram, pt.root.0, start as int, end as int, mapped, pte_flags.0);
            }
        }
        if !mapped {
            assert(!map_affordable(r0, pt.root.0, start as int, end as int));
            assert(spec_linux_error(ENOMEM) != start) by {
                assert((-12isize) as usize > 0x8000_0000usize) by (bit_vector);
            }
            return linux_error(ENOMEM);
        }
        let mut np = p;
        let area = MmapArea { start, len, prot, flags, used: true };
        np.mmap_areas[slot] = area;
        proof {
            lemma_insert_area(p.mmap_areas@, slot as int, area);
        }
        self.sched.set_current(np);
        start
    }

    /// `munmap`: removes `[addr, addr + len)` (rounded up to pages) from the
    /// mmap region: unmaps the user pages there and cuts the range out of the
    /// process's areas; returns 0, or `-errno`.
    pub fn sys_munmap(&mut self, addr: usize, len: usize) -> (r: usize)
        requires
            old(self).wf(),
            old(self).user_counted(),
        ensures
            final(self).wf(),
            final(self).user_counted(),
            munmap_post(*old(self), *final(self), addr, len, r),
    {
        if addr & (4096 - 1) != 0 {
            return linux_error(EINVAL);
        }
        let len = match checked_align_up(len) {
            Some(l) => {
                if l == 0 {
                    return linux_error(EINVAL);
                }
                l
            },
            None => {
                return linux_error(EINVAL);
            },
        };
        if addr > usize::MAX - len {
            return linux_error(EINVAL);
        }
        let end = addr + len;
        if addr < USER_MMAP_START || end > USER_MMAP_LIMIT {
            return linux_error(EINVAL);
        }
        let p = *self.sched.current();
        if !can_split_mmap_range(&p.mmap_areas, addr, end) {
            return linux_error(ENOMEM);
        }
        let pt = p.page_table;
        proof {
            crate::syscall::user_mem::lemma_counted_sub(
                self.ram,
                pt.root.0,
                0,
                USER_SPACE_TOP as int,
                addr as int,
                end as int,
            );
            assert(addr % 4096 == 0 && end % 4096 == 0) by (bit_vector)
                requires
                    addr & 4095usize == 0,
                    len % 4096 == 0,
                    end == addr + len,
            ;
        }
        let ghost r0 = self.ram;
        proof {
            crate::syscall::errno::lemma_align_up_mono(end as int, end as int);
        }
        unmap_user_pages(&mut self.ram, &pt, addr, end);
        proof {
            lemma_counted_after_unmap(r0, self.ram, pt.root.0, addr as int, end as int);
        }
        let mut np = p;
        remove_mmap_range(&mut np.mmap_areas, addr, end);
        self.sched.set_current(np);
        0
    }
}

/// The process table after the running process exits with `code`: its
/// live children go to init, it becomes a zombie, and its parent, when
/// blocked, is woken.
pub open spec fn exited_procs(procs: Seq<Option<Process>>, current: int, code: usize) -> Seq<Option<Process>> {
    let cur = procs[current]->Some_0;
    let p1 = Seq::new(procs.len(), |i: int| reparented(procs[i], cur.pid));
    let p2 = p1.update(current, Some(Process { state: ProcessState::Zombie(code), ..p1[current]->Some_0 }));
    match first_blocked_with_pid(p2, p2[current]->Some_0.parent_pid) {
        Some(i) => p2.update(i, Some(Process { state: ProcessState::Ready, ..p2[i]->Some_0 })),
        None => p2,
    }
}

/// What `exit` does (see [`Kernel::sys_exit`]).
pub open spec fn exit_post(o: Kernel, f: Kernel, code: usize) -> bool {
    &&& f.sched.current == o.sched.current
    &&& f.sched.next_pid == o.sched.next_pid
    &&& f.sched.procs@ == exited_procs(o.sched.procs@, o.sched.current as int, code)
    &&& unmap_progress(o.ram, f.ram, o.root(), 0, USER_SPACE_TOP as int)
}

impl Kernel {
    /// `exit`: hands the running process's children to init, releases its
    /// user pages (each frame loses one reference and each entry is
    /// cleared), makes it a zombie with `code`, and wakes its parent when
    /// that is blocked. The caller then schedules another process.
    pub fn sys_exit(&mut self, code: usize)
        requires
            old(self).wf(),
            old(self).user_counted(),
        ensures
            final(self).wf(),
            exit_post(*old(self), *final(self), code),
    {
        let ghost o = *self;
        self.sched.reparent_orphans_to_init();
        let pt = self.sched.current().page_table;
        assert(pt.root.0 == o.root());
        proof {
            crate::syscall::errno::lemma_align_up_mono(USER_SPACE_TOP as int, USER_SPACE_TOP as int);
        }
        unmap_user_pages(&mut self.ram, &pt, 0, USER_SPACE_TOP);
        let mut c = *self.sched.current();
        c.state = ProcessState::Zombie(code);
        self.sched.set_current(c);
        let ghost p2 = self.sched.procs@;
        proof {
            let procs = o.sched.procs@;
            let cur = procs[o.sched.current as int]->Some_0;
            let p1 = Seq::new(procs.len(), |i: int| reparented(procs[i], cur.pid));
            assert(p2 =~= p1.update(
                o.sched.current as int,
                Some(Process { state: ProcessState::Zombie(code), ..p1[o.sched.current as int]->Some_0 }),
            ));
        }
        self.sched.wake_parent();
    }
}


/// `munmap` of the range that `mmap` has just returned undoes the `mmap`:
/// it succeeds, the process's areas then cover exactly the addresses, with
/// the same protection and flags, that they covered before, and its page
/// table translates every address as before.
pub proof fn law_munmap_undoes_mmap(
    k0: Kernel,
    k1: Kernel,
    k2: Kernel,
    addr: usize,
    len: usize,
    prot: usize,
    flags: usize,
    offset: usize,
    a: usize,
    r: usize,
)
    requires
        k0.sched.wf(),
        proc_wf(k0.sched.cur()),
        mmap_post(k0, k1, addr, len, prot, flags, offset, a),
        a < USER_MMAP_LIMIT,
        munmap_post(k1, k2, a, len, r),
    ensures
        r == 0,
        forall|x: int, p: usize, f: usize|
            #[trigger] covers(k2.sched.cur().mmap_areas@, x, p, f) == covers(
                k0.sched.cur().mmap_areas@,
                x,
                p,
                f,
            ),
        k2.root() == k0.root(),
        forall|va: usize| #[trigger] translate(k2.ram.table_words(), k2.root(), va) == translate(
            k0.ram.table_words(),
            k0.root(),
            va,
        ),
{
    let areas = k0.sched.cur().mmap_areas@;
    let alen = spec_align_up(len as int) as usize;
    assert((-22isize) as usize > 0x8000_0000usize) by (bit_vector);
    assert((-38isize) as usize > 0x8000_0000usize) by (bit_vector);
    assert((-12isize) as usize > 0x8000_0000usize) by (bit_vector);
    assert(mmap_arg_error(len, prot, flags, offset) is None);
    let start = spec_mmap_addr(areas, addr, alen)->Some_0;
    assert(a == start);
    assert(gap_fits(areas, a as int, alen as int));
    let ff = spec_first_free(areas);
    let area = MmapArea { start: a, len: alen, prot, flags, used: true };
    let areas1 = k1.sched.cur().mmap_areas@;
    assert(areas1 == areas.update(ff, area));
    assert(a & 4095usize == 0) by (bit_vector)
        requires
            a % 4096 == 0,
    ;
    let e = a + alen;
    assert(munmap_arg_error(a, len) is None);
    assert(!needs_split(areas1, a as int, e)) by {
        if needs_split(areas1, a as int, e) {
            let k = choose|k: int|
                0 <= k < MAX_MMAP_AREAS && (#[trigger] areas1[k]).used && areas1[k].start < a
                    && e < area_end(areas1[k]);
            if k != ff {
                assert(areas1[k] == areas[k]);
                assert(overlaps(areas[k], a as int, e));
            }
        }
    }
    assert forall|x: int, p: usize, f: usize| #[trigger] covers(areas1, x, p, f) == (covers(areas, x, p, f)
        || (a <= x < e && p == prot && f == flags)) by {
        if covers(areas, x, p, f) {
            let k = choose|k: int|
                0 <= k < MAX_MMAP_AREAS && (#[trigger] areas[k]).used && areas[k].start <= x
                    < area_end(areas[k]) && areas[k].prot == p && areas[k].flags == f;
            assert(k != ff);
            assert(areas1[k] == areas[k]);
        }
        if a <= x < e && p == prot && f == flags {
            assert(areas1[ff] == area);
        }
        if covers(areas1, x, p, f) {
            let k = choose|k: int|
                0 <= k < MAX_MMAP_AREAS && (#[trigger] areas1[k]).used && areas1[k].start <= x
                    < area_end(areas1[k]) && areas1[k].prot == p && areas1[k].flags == f;
            if k != ff {
                assert(areas1[k] == areas[k]);
            }
        }
    }
    let root = k0.root();
    assert(k1.root() == root);
    assert forall|va: usize| #[trigger] translate(k2.ram.table_words(), root, va) == translate(
        k0.ram.table_words(),
        root,
        va,
    ) by {
        crate::mm::page_table::lemma_zero_entry();
        if page_in(va, a as int, e) {
            assert(user_frame_at(k1.ram.table_words(), root, va) is Some);
            assert(lookup_entry(k2.ram.table_words(), root, va) == Some(0u64));
        } else {
            assert(lookup_entry(k2.ram.table_words(), root, va) == lookup_entry(k1.ram.table_words(), root, va));
            assert(translate(k1.ram.table_words(), root, va) == translate(k0.ram.table_words(), root, va));
        }
    }
    assert forall|x: int, p: usize, f: usize| covers(areas, x, p, f) implies !(a <= x < e) by {
        let k = choose|k: int|
            0 <= k < MAX_MMAP_AREAS && (#[trigger] areas[k]).used && areas[k].start <= x < area_end(
                areas[k],
            ) && areas[k].prot == p && areas[k].flags == f;
        assert(!overlaps(areas[k], a as int, e));
    }
}


/// Moving the break back undoes growing the heap: after `brk` has grown the
/// heap from its end `ob` to `nb`, `brk(ob)` returns `ob`, the running
/// process is as it was, and its page table translates every address as
/// before.
pub proof fn law_brk_back_undoes_growth(k0: Kernel, k1: Kernel, nb: usize, r1: usize, k2: Kernel, r2: usize)
    requires
        k0.sched.wf(),
        proc_wf(k0.sched.cur()),
        nb > k0.sched.cur().heap_end,
        brk_post(k0, k1, nb, r1),
        r1 == nb,
        brk_post(k1, k2, k0.sched.cur().heap_end, r2),
    ensures
        r2 == k0.sched.cur().heap_end,
        k2.sched.cur() == k0.sched.cur(),
        forall|va: usize| #[trigger] translate(k2.ram.table_words(), k2.root(), va) == translate(
            k0.ram.table_words(),
            k0.root(),
            va,
        ),
{
    let ob = k0.sched.cur().heap_end;
    let root = k0.root();
    let s = spec_align_up(ob as int);
    let e = spec_align_up(nb as int);
    assert(k1.sched.cur().heap_end == nb);
    assert(k1.root() == root);
    assert(k2.root() == root);
    assert forall|va: usize| #[trigger] translate(k2.ram.table_words(), root, va) == translate(
        k0.ram.table_words(),
        root,
        va,
    ) by {
        crate::mm::page_table::lemma_zero_entry();
        if page_in(va, s, e) {
            assert(user_frame_at(k1.ram.table_words(), root, va) is Some);
            assert(lookup_entry(k2.ram.table_words(), root, va) == Some(0u64));
        } else {
            assert(lookup_entry(k2.ram.table_words(), root, va) == lookup_entry(k1.ram.table_words(), root, va));
            assert(translate(k1.ram.table_words(), root, va) == translate(k0.ram.table_words(), root, va));
        }
    }
}

/// `exit` hands every child of the exiting process that has not been
/// reaped to init, zombies included: each keeps its slot and pid and gets
/// parent 1. Unless init itself exits, no process that is not gone names
/// the exiting pid as its parent afterwards.
pub proof fn law_exit_hands_children_to_init(k0: Kernel, k1: Kernel, code: usize)
    requires
        k0.sched.wf(),
        exit_post(k0, k1, code),
    ensures
        forall|i: int|
            #![trigger k1.sched.procs@[i]]
            0 <= i < MAX_PROCESSES && i != k0.sched.current && (k0.sched.procs@[i] matches Some(p)
                && p.parent_pid == k0.sched.cur().pid && p.state != ProcessState::Gone)
                ==> (k1.sched.procs@[i] matches Some(q) && q.parent_pid == 1 && q.pid == k0.sched.procs@[i]->Some_0.pid),
        k0.sched.cur().pid != 1 ==> forall|i: int|
            #![trigger k1.sched.procs@[i]]
            0 <= i < MAX_PROCESSES && i != k0.sched.current && (k1.sched.procs@[i] matches Some(q) && q.state
                != ProcessState::Gone)
                ==> k1.sched.procs@[i]->Some_0.parent_pid != k0.sched.cur().pid,
{
    let procs = k0.sched.procs@;
    let c = k0.sched.current as int;
    let cur = k0.sched.cur();
    let p1 = Seq::new(procs.len(), |i: int| reparented(procs[i], cur.pid));
    let p2 = p1.update(c, Some(Process { state: ProcessState::Zombie(code), ..p1[c]->Some_0 }));
    let fin = k1.sched.procs@;
    assert forall|i: int| 0 <= i < MAX_PROCESSES implies (fin[i] is Some == p2[i] is Some) && (fin[i] is Some ==> (
        #[trigger] fin[i])->Some_0.parent_pid == p2[i]->Some_0.parent_pid && fin[i]->Some_0.pid == p2[i]->Some_0.pid
        && (fin[i]->Some_0.state == ProcessState::Gone) == (p2[i]->Some_0.state == ProcessState::Gone)) by {
        match first_blocked_with_pid(p2, p2[c]->Some_0.parent_pid) {
            Some(j) => {
                if exists|j2: int| 0 <= j2 < p2.len() && crate::task::scheduler::blocked_with_pid(
                    #[trigger] p2[j2],
                    p2[c]->Some_0.parent_pid,
                ) {
                    assert(crate::task::scheduler::blocked_with_pid(p2[j], p2[c]->Some_0.parent_pid));
                }
            },
            None => {},
        }
    }
    assert forall|i: int|
        0 <= i < MAX_PROCESSES && i != c && (#[trigger] fin[i] matches Some(q) && q.state != ProcessState::Gone)
            && cur.pid != 1 implies fin[i]->Some_0.parent_pid != cur.pid by {
        assert(p1[i] == reparented(procs[i], cur.pid));
    }
    assert forall|i: int|
        0 <= i < MAX_PROCESSES && i != c && (procs[i] matches Some(p) && p.parent_pid == cur.pid && p.state
            != ProcessState::Gone) implies (#[trigger] fin[i] matches Some(q) && q.parent_pid == 1 && q.pid
        == procs[i]->Some_0.pid) by {
        assert(p1[i] == reparented(procs[i], cur.pid));
    }
}

/// `mmap` of a private anonymous mapping of a non-empty length at a
/// page-aligned offset never refuses a protection made of read, write and
/// exec bits: it does not report `-EINVAL`.
pub proof fn law_mmap_accepts_every_protection(
    o: Kernel,
    f: Kernel,
    addr: usize,
    len: usize,
    prot: usize,
    flags: usize,
    offset: usize,
    r: usize,
)
    requires
        mmap_post(o, f, addr, len, prot, flags, offset, r),
        1 <= prot <= 7,
        flags == MAP_PRIVATE | MAP_ANONYMOUS,
        offset % 4096 == 0,
        0 < len <= usize::MAX - 4095,
    ensures
        r != spec_linux_error(EINVAL),
{
    crate::syscall::errno::law_protection_flags(prot);
    lemma_align_up_mono(len as int, len as int);
    assert(offset & 4095usize == 0 && flags & MAP_FIXED == 0 && flags & MAP_ANONYMOUS != 0 && flags
        & MAP_PRIVATE != 0 && flags & !0x32usize == 0) by (bit_vector)
        requires
            offset % 4096 == 0,
            flags == 0x02usize | 0x20usize,
            MAP_FIXED == 0x10usize,
            MAP_ANONYMOUS == 0x20usize,
            MAP_PRIVATE == 0x02usize,
    ;
    assert(mmap_arg_error(len, prot, flags, offset) is None);
    assert((-12isize) as usize != (-22isize) as usize && ((-22isize) as usize) % 4096 != 0) by (bit_vector);
    assert(spec_linux_error(ENOMEM) != spec_linux_error(EINVAL));
    if r == spec_linux_error(EINVAL) {
        assert(r % 4096 != 0);
    }
}

} // verus!
