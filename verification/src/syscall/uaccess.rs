//! Checking user buffers before the kernel reads or writes them.
use vstd::prelude::*;

use crate::mm::page_table::{
    frames_available, lemma_page_num, lookup_entry, page_num, spec_ppn_to_addr, PTEntry, VirtAddr,
    PTE_R, PTE_U, PTE_W,
};
use crate::syscall::errno::{linux_error, spec_linux_error, EFAULT};
use crate::syscall::kernel::Kernel;
use crate::mm::frame::{is_frame, Ram};
use crate::trap::{
    cow_copied_entry, cow_pending, cow_resolvable, cow_resolved, cow_reused_entry,
    lemma_counted_after_cow, CowResult,
};

verus! {

/// The first address of the page that holds `a`.
pub open spec fn page_floor(a: int) -> int {
    a - a % 4096
}

/// `va` is the start of one of the pages that `[ptr, ptr + len)` touches
/// (for `len > 0`).
pub open spec fn span_page(ptr: usize, len: usize, va: usize) -> bool {
    &&& len > 0
    &&& va % 4096 == 0
    &&& page_floor(ptr as int) <= va <= page_floor(ptr + len - 1)
}

/// Number of pages that `[ptr, ptr + len)` touches (for `len > 0`).
pub open spec fn span_pages(ptr: usize, len: usize) -> int {
    (page_floor(ptr + len - 1) - page_floor(ptr as int)) / 4096 + 1
}

/// User mode may read (or, for `write`, write after resolving
/// copy-on-write) the page whose last-level entry is `e`.
pub open spec fn user_page_ok(e: Option<u64>, write: bool) -> bool {
    match e {
        Some(x) => x & PTE_U != 0 && if write {
            x & PTE_W != 0 || cow_pending(x)
        } else {
            x & PTE_R != 0
        },
        None => false,
    }
}

/// `[ptr, ptr + len)` is a user buffer that the kernel may read (or write).
pub open spec fn range_ok(w: Seq<Seq<u64>>, root: usize, ptr: usize, len: usize, write: bool) -> bool {
    ||| len == 0
    ||| {
        &&& ptr != 0
        &&& ptr + len - 1 <= usize::MAX
        &&& forall|va: usize|
            span_page(ptr, len, va) ==> user_page_ok(#[trigger] lookup_entry(w, root, va), write)
    }
}

/// The page of `va` is one of the pages of `[ptr, ptr + len)` below
/// `bound`, and every page of the buffer before it passes the check.
#[verifier::opaque]
pub open spec fn reached_before(
    w: Seq<Seq<u64>>,
    root: usize,
    ptr: usize,
    len: usize,
    write: bool,
    va: usize,
    bound: int,
) -> bool {
    exists|p: usize|
        #![trigger span_page(ptr, len, p)]
        span_page(ptr, len, p) && p < bound && page_num(p) == page_num(va) && forall|q: usize|
            span_page(ptr, len, q) && q < p ==> user_page_ok(#[trigger] lookup_entry(w, root, q), write)
}

/// The page of `va` is one of the pages of `[ptr, ptr + len)`, and every
/// page of the buffer before it passes the check.
#[verifier::opaque]
pub open spec fn reached(w: Seq<Seq<u64>>, root: usize, ptr: usize, len: usize, write: bool, va: usize) -> bool {
    exists|p: usize|
        #![trigger span_page(ptr, len, p)]
        span_page(ptr, len, p) && page_num(p) == page_num(va) && forall|q: usize|
            span_page(ptr, len, q) && q < p ==> user_page_ok(#[trigger] lookup_entry(w, root, q), write)
}

/// `n` is `o` after its copy-on-write state was resolved.
pub open spec fn resolved_entry(o: u64, n: u64) -> bool {
    n == cow_reused_entry(o) || exists|to: usize| n == #[trigger] cow_copied_entry(o, to)
}

/// The entry `n` is `o`, or `o` was a pending copy-on-write entry and `n`
/// is its resolution.
pub open spec fn kept_or_resolved(o: Option<u64>, n: Option<u64>) -> bool {
    ||| n == o
    ||| {
        &&& o is Some
        &&& n is Some
        &&& cow_pending(o->Some_0)
        &&& resolved_entry(o->Some_0, n->Some_0)
    }
}

/// The page at `va` waits for a copy-on-write on a frame that other
/// mappings share, so resolving it takes a fresh frame.
pub open spec fn shared_pending_at(k: Kernel, va: usize) -> bool {
    lookup_entry(k.ram.table_words(), k.root(), va) matches Some(e) && cow_pending(e)
        && k.ram.ref_of(spec_ppn_to_addr(e)) > 1
}

/// The pages `first, first + 4096, ...` before the `i`-th may be written
/// (once their copy-on-write is resolved).
pub open spec fn writable_before(k: Kernel, first: int, i: int) -> bool {
    forall|j: int|
        0 <= j < i ==> user_page_ok(
            #[trigger] lookup_entry(k.ram.table_words(), k.root(), (first + j * 4096) as usize),
            true,
        )
}

/// Fresh frames that checking the first `n` pages from `first` for writing
/// takes: one for each shared copy-on-write page reached before a page
/// that fails the check.
pub open spec fn copies_needed(k: Kernel, first: int, n: nat) -> nat
    decreases n,
{
    if n == 0 {
        0
    } else {
        let i = n - 1;
        copies_needed(k, first, i as nat) + if writable_before(k, first, i) && shared_pending_at(
            k,
            (first + i * 4096) as usize,
        ) {
            1nat
        } else {
            0nat
        }
    }
}

proof fn lemma_copies_needed_mono(k: Kernel, first: int, i: nat, n: nat)
    requires
        i <= n,
    ensures
        copies_needed(k, first, i) <= copies_needed(k, first, n),
    decreases n,
{
    if i < n {
        lemma_copies_needed_mono(k, first, i, (n - 1) as nat);
    }
}

/// Checking the buffer for writing can resolve each copy-on-write page it
/// reaches: the page's frame is handed out, and the allocator has a frame
/// for each shared one.
pub open spec fn range_resolvable(k: Kernel, ptr: usize, len: usize) -> bool {
    &&& forall|va: usize|
        span_page(ptr, len, va) && (lookup_entry(k.ram.table_words(), k.root(), va) matches Some(e)
            && cow_pending(e)) ==> k.ram.is_allocated(
            spec_ppn_to_addr(lookup_entry(k.ram.table_words(), k.root(), va)->Some_0),
        )
    &&& len > 0 && ptr != 0 && ptr + len - 1 <= usize::MAX ==> frames_available(k.ram)
        >= copies_needed(k, page_floor(ptr as int), span_pages(ptr, len) as nat)
}

/// Page `page` of the buffer, all of whose earlier pages pass the check for
/// writing, takes a fresh frame exactly when it is a shared copy-on-write
/// page.
proof fn lemma_next_copy(o: Kernel, ptr: usize, len: usize, page: usize)
    requires
        len > 0,
        page % 4096 == 0,
        page_floor(ptr as int) <= page <= page_floor(ptr + len - 1),
        forall|va: usize|
            span_page(ptr, len, va) && va < page ==> user_page_ok(
                #[trigger] lookup_entry(o.ram.table_words(), o.root(), va),
                true,
            ),
    ensures
        ({
            let first = page_floor(ptr as int);
            let i = (page - first) / 4096;
            &&& i + 1 <= span_pages(ptr, len)
            &&& copies_needed(o, first, (i + 1) as nat) == copies_needed(o, first, i as nat) + if shared_pending_at(
                o,
                page,
            ) {
                1nat
            } else {
                0nat
            }
            &&& copies_needed(o, first, (i + 1) as nat) <= copies_needed(o, first, span_pages(ptr, len) as nat)
        }),
{
    let first = page_floor(ptr as int);
    let last = page_floor(ptr + len - 1);
    let i = (page - first) / 4096;
    assert(first % 4096 == 0);
    assert(i + 1 <= span_pages(ptr, len) && page == first + i * 4096) by (nonlinear_arith)
        requires
            first <= page <= last,
            page % 4096 == 0,
            first % 4096 == 0,
            i == (page - first) / 4096,
            span_pages(ptr, len) == (last - first) / 4096 + 1,
    ;
    assert(writable_before(o, first, i)) by {
        assert forall|j: int| 0 <= j < i implies user_page_ok(
            #[trigger] lookup_entry(o.ram.table_words(), o.root(), (first + j * 4096) as usize),
            true,
        ) by {
            let v = (first + j * 4096) as usize;
            assert(v % 4096 == 0 && first <= v < page);
            assert(span_page(ptr, len, v));
        }
    }
    lemma_copies_needed_mono(o, first, (i + 1) as nat, span_pages(ptr, len) as nat);
}

/// Resolving one copy-on-write page keeps the frames handed out in `o`
/// handed out, only lowers their counts, and takes a fresh frame only when
/// the page's frame was shared in `o`.
proof fn lemma_resolution_frames(o: Ram, b: Ram, f: Ram, root: usize, va: usize, x: u64, cr: CowResult)
    requires
        cow_resolved(b, f, root, va, x, cr),
        o.is_allocated(spec_ppn_to_addr(x)),
        forall|pa: usize| o.is_allocated(pa) ==> #[trigger] b.is_allocated(pa),
        forall|pa: usize| o.is_allocated(pa) ==> #[trigger] b.ref_of(pa) <= o.ref_of(pa),
    ensures
        forall|pa: usize| o.is_allocated(pa) ==> #[trigger] f.is_allocated(pa),
        forall|pa: usize| o.is_allocated(pa) ==> #[trigger] f.ref_of(pa) <= o.ref_of(pa),
        frames_available(f) + (if o.ref_of(spec_ppn_to_addr(x)) > 1 {
            1int
        } else {
            0int
        }) >= frames_available(b),
{
    let px = spec_ppn_to_addr(x);
    assert(b.is_allocated(px));
    assert(b.ref_of(px) <= o.ref_of(px));
    assert forall|pa: usize|
        #![trigger f.ref_of(pa)]
        #![trigger f.is_allocated(pa)]
        o.is_allocated(pa) implies f.ref_of(pa) <= o.ref_of(pa) && f.is_allocated(pa) by {
        assert(b.is_allocated(pa));
        assert(b.ref_of(pa) <= o.ref_of(pa));
        if let CowResult::Copied { from, to } = cr {
            if is_frame(pa) && pa != to.0 && pa != px {
                assert(f.is_allocated(pa) == b.is_allocated(pa));
                assert(f.ref_of(pa) == b.ref_of(pa));
            }
        } else {
            assert(f.refs@ == b.refs@);
        }
    }
}

proof fn lemma_resolved_bits(o: u64, n: u64)
    requires
        resolved_entry(o, n),
        cow_pending(o),
    ensures
        n & PTE_W != 0,
        n & PTE_U != 0,
        n & PTE_R != 0,
        !cow_pending(n),
{
    if n == cow_reused_entry(o) {
        assert((o | 0x4u64) & !0x100u64 & 0x4u64 != 0 && (o | 0x4u64) & !0x100u64 & 0x10u64 != 0
            && (o | 0x4u64) & !0x100u64 & 0x2u64 != 0) by (bit_vector)
            requires
                o & 0x10u64 != 0,
                o & 0x2u64 != 0,
        ;
    } else {
        let to = choose|to: usize| n == #[trigger] cow_copied_entry(o, to);
        let x = (o & 0xffu64) as u8 & 8u8 != 0;
        crate::mm::page_table::lemma_flag_bits(true, true, x, true);
        let f = crate::mm::page_table::spec_flag_bits(true, true, x, true);
        assert((((((to >> 12usize) << 10usize) as u64) | (f as u64)) & !0x100u64) & 0x4u64 != 0
            && (((((to >> 12usize) << 10usize) as u64) | (f as u64)) & !0x100u64) & 0x10u64 != 0
            && (((((to >> 12usize) << 10usize) as u64) | (f as u64)) & !0x100u64) & 0x2u64 != 0)
            by (bit_vector)
            requires
                f & 2u8 != 0,
                f & 4u8 != 0,
                f & 16u8 != 0,
        ;
    }
}

/// What the per-page check accepts of the entry `e` as it stands.
pub open spec fn page_check(e: Option<u64>, write: bool) -> bool {
    match e {
        Some(x) => x & PTE_U != 0 && if write {
            x & PTE_W != 0 || cow_pending(x)
        } else {
            x & PTE_R != 0
        },
        None => false,
    }
}

proof fn lemma_same_page_lookup(w: Seq<Seq<u64>>, root: usize, a: usize, b: usize)
    requires
        page_num(a) == page_num(b),
    ensures
        lookup_entry(w, root, a) == lookup_entry(w, root, b),
{
    lemma_page_num(a, b);
}

/// What the check of a user buffer does (see [`Kernel::ensure_user_range`]).
pub open spec fn ensure_post(
    o: Kernel,
    f: Kernel,
    ptr: usize,
    len: usize,
    write: bool,
    r: Result<(), usize>,
) -> bool {
    let ow = o.ram.table_words();
    let fw = f.ram.table_words();
    let root = o.root();
    &&& f.sched == o.sched
    &&& r is Ok <==> range_ok(ow, root, ptr, len, write)
    &&& r matches Err(e) ==> e == spec_linux_error(EFAULT)
    &&& !write ==> f == o
    &&& forall|va: usize|
        #![trigger lookup_entry(fw, root, va)]
        kept_or_resolved(lookup_entry(ow, root, va), lookup_entry(fw, root, va))
    &&& forall|va: usize|
        #![trigger lookup_entry(fw, root, va)]
        lookup_entry(fw, root, va) != lookup_entry(ow, root, va) ==> reached(ow, root, ptr, len, write, va)
    &&& r is Ok && write ==> forall|va: usize|
        span_page(ptr, len, va) ==> (#[trigger] lookup_entry(fw, root, va) matches Some(x) && x
            & PTE_W != 0 && x & PTE_U != 0)
}

/// Checking the page at `page` changes no entry but those of that page, so
/// every changed entry lies on a page the check has reached.
proof fn lemma_reached_step(
    ow: Seq<Seq<u64>>,
    bw: Seq<Seq<u64>>,
    nw: Seq<Seq<u64>>,
    root: usize,
    ptr: usize,
    len: usize,
    write: bool,
    page: usize,
)
    requires
        span_page(ptr, len, page),
        forall|q: usize| span_page(ptr, len, q) && q < page ==> user_page_ok(#[trigger] lookup_entry(ow, root, q), write),
        forall|va: usize|
            #![trigger lookup_entry(bw, root, va)]
            lookup_entry(bw, root, va) != lookup_entry(ow, root, va) ==> reached_before(
                ow,
                root,
                ptr,
                len,
                write,
                va,
                page as int,
            ),
        forall|va: usize| page_num(va) != page_num(page) ==> #[trigger] lookup_entry(nw, root, va) == lookup_entry(bw, root, va),
    ensures
        forall|va: usize|
            #![trigger lookup_entry(nw, root, va)]
            lookup_entry(nw, root, va) != lookup_entry(ow, root, va) ==> reached_before(
                ow,
                root,
                ptr,
                len,
                write,
                va,
                page + 4096,
            ) && reached(ow, root, ptr, len, write, va),
{
    reveal(reached_before);
    reveal(reached);
    assert forall|va: usize|
        #![trigger lookup_entry(nw, root, va)]
        lookup_entry(nw, root, va) != lookup_entry(ow, root, va) implies reached_before(
        ow,
        root,
        ptr,
        len,
        write,
        va,
        page + 4096,
    ) && reached(ow, root, ptr, len, write, va) by {
        if page_num(va) != page_num(page) {
            assert(lookup_entry(bw, root, va) != lookup_entry(ow, root, va));
            let p = choose|p: usize|
                #![trigger span_page(ptr, len, p)]
                span_page(ptr, len, p) && p < page && page_num(p) == page_num(va) && forall|q: usize|
                    span_page(ptr, len, q) && q < p ==> user_page_ok(#[trigger] lookup_entry(ow, root, q), write);
            assert(span_page(ptr, len, p));
        } else {
            assert(span_page(ptr, len, page));
        }
    }
}

impl Kernel {
    /// Checks one page of a user buffer: the page at `page` must be a user
    /// page, readable, or for `write` writable once a pending copy-on-write
    /// is resolved (which is done here).
    fn check_user_page(&mut self, page: usize, write: bool) -> (ok: bool)
        requires
            old(self).wf(),
            write ==> cow_resolvable(old(self).ram, old(self).root(), page),
        ensures
            final(self).wf(),
            final(self).sched == old(self).sched,
            ok == page_check(lookup_entry(old(self).ram.table_words(), old(self).root(), page), write),
            !(write && (lookup_entry(old(self).ram.table_words(), old(self).root(), page) matches Some(e)
                && cow_pending(e))) ==> *final(self) == *old(self),
            write && (lookup_entry(old(self).ram.table_words(), old(self).root(), page) matches Some(e)
                && cow_pending(e)) ==> exists|cr: CowResult|
                #[trigger] cow_resolved(
                    old(self).ram,
                    final(self).ram,
                    old(self).root(),
                    page,
                    lookup_entry(old(self).ram.table_words(), old(self).root(), page)->Some_0,
                    cr,
                ),
    {
        let pt = self.sched.current().page_table;
        let slot = match pt.lookup(&self.ram, VirtAddr(page)) {
            Some(s) => s,
            None => {
                return false;
            },
        };
        let entry = PTEntry(self.ram.read_pte(slot.table, slot.index));
        if !entry.is_u() {
            return false;
        }
        if write {
            if entry.is_cow() && entry.is_r() && !entry.is_w() {
                match self.resolve_cow(page) {
                    Some(cr) => {
                        assert(cow_resolved(
                            old(self).ram,
                            self.ram,
                            old(self).root(),
                            page,
                            entry.0,
                            cr,
                        ));
                    },
                    None => {},
                }
                return true;
            }
            entry.is_w()
        } else {
            entry.is_r()
        }
    }

    /// Checks that the running process may let the kernel read (or, for
    /// `write`, write) `[ptr, ptr + len)`: every page it touches must be a
    /// user page that is readable (or writable, copy-on-write pages being
    /// resolved on the way). `-EFAULT` otherwise; an empty buffer is fine.
    #[verifier::spinoff_prover]
    #[verifier::rlimit(80)]
    pub fn ensure_user_range(&mut self, ptr: usize, len: usize, write: bool) -> (r: Result<(), usize>)
        requires
            old(self).wf(),
            write ==> range_resolvable(*old(self), ptr, len),
        ensures
            final(self).wf(),
            old(self).user_counted() ==> final(self).user_counted(),
            ensure_post(*old(self), *final(self), ptr, len, write, r),

    {
        if len == 0 {
            return Ok(());
        }
        if ptr == 0 {
            return Err(linux_error(EFAULT));
        }
        let end = match ptr.checked_add(len - 1) {
            Some(e) => e,
            None => {
                return Err(linux_error(EFAULT));
            },
        };
        let ghost o = *self;
        let ghost root = o.root();
        let ghost ow = o.ram.table_words();
        let ghost first = page_floor(ptr as int);
        let last = end & !0xfff;
        let mut page = ptr & !0xfff;
        proof {
            assert(last == page_floor(end as int) && last % 4096 == 0) by (bit_vector)
                requires
                    last == end & !0xfffusize,
            ;
            assert(page == page_floor(ptr as int) && page % 4096 == 0) by (bit_vector)
                requires
                    page == ptr & !0xfffusize,
            ;
        }
        loop
            invariant_except_break
                page % 4096 == 0,
                first <= page <= last,
                first == page_floor(ptr as int),
                last == page_floor(ptr + len - 1),
                last % 4096 == 0,
                len > 0,
                ptr != 0,
                end == ptr + len - 1,
                root == o.root(),
                ow == o.ram.table_words(),
                o == *old(self),
                o.wf(),
                self.wf(),
                self.sched == o.sched,
                !write ==> *self == o,
                write ==> range_resolvable(o, ptr, len),
                o.user_counted() ==> self.user_counted(),
                write ==> frames_available(self.ram) + copies_needed(o, first, ((page - first) / 4096) as nat)
                    >= frames_available(o.ram),
                write ==> forall|pa: usize| o.ram.is_allocated(pa) ==> #[trigger] self.ram.ref_of(pa) <= o.ram.ref_of(pa),
                forall|pa: usize| o.ram.is_allocated(pa) ==> #[trigger] self.ram.is_allocated(pa),
                forall|va: usize|
                    span_page(ptr, len, va) && va < page ==> user_page_ok(
                        #[trigger] lookup_entry(ow, root, va),
                        write,
                    ),
                forall|va: usize|
                    #![trigger lookup_entry(self.ram.table_words(), root, va)]
                    kept_or_resolved(lookup_entry(ow, root, va), lookup_entry(self.ram.table_words(), root, va)),
                forall|va: usize|
                    #![trigger lookup_entry(self.ram.table_words(), root, va)]
                    lookup_entry(self.ram.table_words(), root, va) != lookup_entry(ow, root, va)
                        ==> reached_before(ow, root, ptr, len, write, va, page as int),
                write ==> forall|va: usize|
                    span_page(ptr, len, va) && va < page ==> (#[trigger] lookup_entry(
                        self.ram.table_words(),
                        root,
                        va,
                    ) matches Some(x) && x & PTE_W != 0 && x & PTE_U != 0),
            ensures
                self.wf(),
                self.sched == o.sched,
                forall|va: usize|
                    #![trigger lookup_entry(self.ram.table_words(), root, va)]
                    lookup_entry(self.ram.table_words(), root, va) != lookup_entry(ow, root, va)
                        ==> reached(ow, root, ptr, len, write, va),
                !write ==> *self == o,
                o.user_counted() ==> self.user_counted(),
                forall|va: usize| span_page(ptr, len, va) ==> user_page_ok(#[trigger] lookup_entry(ow, root, va), write),
                forall|va: usize|
                    #![trigger lookup_entry(self.ram.table_words(), root, va)]
                    kept_or_resolved(lookup_entry(ow, root, va), lookup_entry(self.ram.table_words(), root, va)),
                write ==> forall|va: usize|
                    span_page(ptr, len, va) ==> (#[trigger] lookup_entry(
                        self.ram.table_words(),
                        root,
                        va,
                    ) matches Some(x) && x & PTE_W != 0 && x & PTE_U != 0),
            decreases last - page,
        {
            let ghost before = *self;
            let ghost bw = before.ram.table_words();
            proof {
                let cur = lookup_entry(bw, root, page);
                let orig = lookup_entry(ow, root, page);
                if write && cur is Some && cow_pending(cur->Some_0) {
                    let x = cur->Some_0;
                    // a pending entry was never resolved, so it is the entry the check started from
                    if cur != orig {
                        let ox = orig->Some_0;
                        lemma_resolved_bits(ox, x);
                    }
                    assert(span_page(ptr, len, page));
                    assert(o.ram.is_allocated(spec_ppn_to_addr(x)));
                    lemma_next_copy(o, ptr, len, page);
                }
            }
            let ok = self.check_user_page(page, write);
            proof {
                let cur = lookup_entry(bw, root, page);
                let orig = lookup_entry(ow, root, page);
                if cur != orig {
                    let ox = orig->Some_0;
                    let nx = cur->Some_0;
                    lemma_resolved_bits(ox, nx);
                }
                assert(ok == user_page_ok(orig, write));
                if write && cur is Some && cow_pending(cur->Some_0) {
                    let x = cur->Some_0;
                    let cr = choose|cr: CowResult| #[trigger] cow_resolved(before.ram, self.ram, root, page, x, cr);
                    assert(cur == orig);
                    assert forall|va: usize| page_num(va) != page_num(page) implies #[trigger] lookup_entry(
                        self.ram.table_words(),
                        root,
                        va,
                    ) == lookup_entry(bw, root, va) by {}
                    let new_e = match cr {
                        CowResult::Copied { from, to } => cow_copied_entry(x, to.0),
                        CowResult::Reused => cow_reused_entry(x),
                    };
                    if let CowResult::Copied { from, to } = cr {
                        assert(new_e == cow_copied_entry(x, to.0));
                    }
                    assert(resolved_entry(x, new_e));
                    lemma_resolved_bits(x, new_e);
                    assert forall|va: usize|
                        #![trigger lookup_entry(self.ram.table_words(), root, va)]
                        kept_or_resolved(lookup_entry(ow, root, va), lookup_entry(self.ram.table_words(), root, va)) by {
                        if page_num(va) == page_num(page) {
                            lemma_same_page_lookup(ow, root, va, page);
                        }
                    }
                    assert forall|va: usize|
                        span_page(ptr, len, va) && va < page + 4096 implies (#[trigger] lookup_entry(
                        self.ram.table_words(),
                        root,
                        va,
                    ) matches Some(y) && y & PTE_W != 0 && y & PTE_U != 0) by {
                        if page_num(va) == page_num(page) {
                        } else {
                            if va >= page {
                                assert(va == page);
                            }
                        }
                    }
                    lemma_resolution_frames(o.ram, before.ram, self.ram, root, page, x, cr);
                    assert(before.user_counted() ==> self.user_counted()) by {
                        before.lemma_user_counted();
                        self.lemma_user_counted();
                        if before.user_counted() {
                            lemma_counted_after_cow(before.ram, self.ram, root, page, x, cr);
                        }
                    }
                } else {
                    assert(*self == before);
                    if write && ok {
                        assert forall|va: usize|
                            span_page(ptr, len, va) && va < page + 4096 implies (#[trigger] lookup_entry(
                            self.ram.table_words(),
                            root,
                            va,
                        ) matches Some(y) && y & PTE_W != 0 && y & PTE_U != 0) by {
                            if va >= page {
                                assert(va == page);
                            }
                        }
                    }
                }
            }
            proof {
                assert(span_page(ptr, len, page));
                lemma_reached_step(ow, bw, self.ram.table_words(), root, ptr, len, write, page);
            }
            if !ok {
                proof {
                    assert(span_page(ptr, len, page));
                    assert(!range_ok(ow, root, ptr, len, write));
                }
                                return Err(linux_error(EFAULT));
            }
            if page >= last {
                proof {
                    assert forall|va: usize| span_page(ptr, len, va) implies user_page_ok(
                        #[trigger] lookup_entry(ow, root, va),
                        write,
                    ) by {
                        if va >= page {
                            assert(va == page);
                        }
                    }
                }
                break;
            }
            page = page + 4096;
            proof {
                assert forall|va: usize| span_page(ptr, len, va) && va < page implies user_page_ok(
                    #[trigger] lookup_entry(ow, root, va),
                    write,
                ) by {
                    if va >= page - 4096 {
                        assert(va == page - 4096);
                    }
                }
            }
        }
        Ok(())
    }
}

} // verus!
