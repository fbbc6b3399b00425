//! Bookkeeping of a process's `mmap` areas: finding room for a new mapping,
//! and cutting a range out of the existing ones.
use vstd::prelude::*;

use crate::syscall::errno::{align_up, spec_align_up};
use crate::task::process::{MmapArea, MAX_MMAP_AREAS, USER_MMAP_LIMIT, USER_MMAP_START};

verus! {

pub open spec fn area_end(a: MmapArea) -> int {
    a.start + a.len
}

/// A used area lies page-aligned and non-empty inside the mmap region.
pub open spec fn area_ok(a: MmapArea) -> bool {
    &&& a.start % 4096 == 0
    &&& a.len % 4096 == 0
    &&& a.len > 0
    &&& USER_MMAP_START <= a.start
    &&& a.start + a.len <= USER_MMAP_LIMIT
}

/// The areas of a process: every used one lies in the mmap region, and no
/// two used ones intersect.
pub open spec fn areas_wf(areas: Seq<MmapArea>) -> bool {
    &&& areas.len() == MAX_MMAP_AREAS
    &&& forall|k: int| 0 <= k < MAX_MMAP_AREAS && (#[trigger] areas[k]).used ==> area_ok(areas[k])
    &&& forall|k: int, l: int|
        0 <= k < MAX_MMAP_AREAS && 0 <= l < MAX_MMAP_AREAS && k != l && (#[trigger] areas[k]).used
            && (#[trigger] areas[l]).used ==> area_end(areas[k]) <= areas[l].start || area_end(
            areas[l],
        ) <= areas[k].start
}

/// `a` intersects `[s, e)`.
pub open spec fn overlaps(a: MmapArea, s: int, e: int) -> bool {
    s < area_end(a) && a.start < e
}

/// No used area intersects `[s, e)`.
pub open spec fn range_free(areas: Seq<MmapArea>, s: int, e: int) -> bool {
    forall|k: int| 0 <= k < MAX_MMAP_AREAS && (#[trigger] areas[k]).used ==> !overlaps(areas[k], s, e)
}

/// `[x, x + len)` lies in the mmap region and intersects no used area.
pub open spec fn gap_fits(areas: Seq<MmapArea>, x: int, len: int) -> bool {
    &&& USER_MMAP_START <= x
    &&& x + len <= USER_MMAP_LIMIT
    &&& range_free(areas, x, x + len)
}

/// `r` is the lowest address at which `len` bytes fit, or `None` when they
/// fit nowhere.
pub open spec fn is_lowest_gap(areas: Seq<MmapArea>, len: int, r: Option<usize>) -> bool {
    match r {
        Some(c) => {
            &&& gap_fits(areas, c as int, len)
            &&& c % 4096 == 0
            &&& forall|x: int| USER_MMAP_START <= x < c ==> !#[trigger] gap_fits(areas, x, len)
        },
        None => forall|x: int| !#[trigger] gap_fits(areas, x, len),
    }
}

/// Some used area covers address `x` with protection `p` and flags `f`.
pub open spec fn covers(areas: Seq<MmapArea>, x: int, p: usize, f: usize) -> bool {
    exists|k: int|
        0 <= k < MAX_MMAP_AREAS && (#[trigger] areas[k]).used && areas[k].start <= x < area_end(
            areas[k],
        ) && areas[k].prot == p && areas[k].flags == f
}

/// Some used area reaches past `[s, e)` on both sides.
pub open spec fn needs_split(areas: Seq<MmapArea>, s: int, e: int) -> bool {
    exists|k: int|
        0 <= k < MAX_MMAP_AREAS && (#[trigger] areas[k]).used && areas[k].start < s && e < area_end(
            areas[k],
        )
}

/// Some slot is unused.
pub open spec fn has_free_slot(areas: Seq<MmapArea>) -> bool {
    exists|k: int| 0 <= k < MAX_MMAP_AREAS && !(#[trigger] areas[k]).used
}

/// Number of unused slots among the first `n`.
pub open spec fn count_free(areas: Seq<MmapArea>, n: int) -> int
    decreases n,
{
    if n <= 0 {
        0
    } else {
        count_free(areas, n - 1) + if areas[n - 1].used {
            0int
        } else {
            1int
        }
    }
}

/// Number of used areas among the first `n` that reach past `[s, e)` on both
/// sides.
pub open spec fn count_needed(areas: Seq<MmapArea>, s: int, e: int, n: int) -> int
    decreases n,
{
    if n <= 0 {
        0
    } else {
        count_needed(areas, s, e, n - 1) + if areas[n - 1].used && overlaps(areas[n - 1], s, e)
            && areas[n - 1].start < s && e < area_end(areas[n - 1]) {
            1int
        } else {
            0int
        }
    }
}

proof fn lemma_count_free_pos(areas: Seq<MmapArea>, n: int)
    requires
        0 <= n <= areas.len(),
    ensures
        count_free(areas, n) > 0 <==> exists|k: int| 0 <= k < n && !(#[trigger] areas[k]).used,
        count_free(areas, n) >= 0,
    decreases n,
{
    if n > 0 {
        lemma_count_free_pos(areas, n - 1);
        if count_free(areas, n - 1) > 0 {
            let k = choose|k: int| 0 <= k < n - 1 && !(#[trigger] areas[k]).used;
            assert(0 <= k < n && !areas[k].used);
        }
        if !areas[n - 1].used {
            assert(0 <= n - 1 < n && !areas[n - 1].used);
        }
    }
}

proof fn lemma_count_needed_pos(areas: Seq<MmapArea>, s: int, e: int, n: int)
    requires
        0 <= n <= areas.len(),
        s < e,
    ensures
        count_needed(areas, s, e, n) > 0 <==> exists|k: int|
            0 <= k < n && (#[trigger] areas[k]).used && areas[k].start < s && e < area_end(
                areas[k],
            ),
        count_needed(areas, s, e, n) >= 0,
    decreases n,
{
    if n > 0 {
        lemma_count_needed_pos(areas, s, e, n - 1);
        if count_needed(areas, s, e, n - 1) > 0 {
            let k = choose|k: int|
                0 <= k < n - 1 && (#[trigger] areas[k]).used && areas[k].start < s && e < area_end(
                    areas[k],
                );
            assert(0 <= k < n && areas[k].used && areas[k].start < s && e < area_end(areas[k]));
        }
    }
}

/// The first used area that intersects `[s, e)`.
pub fn first_overlap(areas: &[MmapArea; MAX_MMAP_AREAS], s: usize, e: usize) -> (r: Option<usize>)
    requires
        areas_wf(areas@),
    ensures
        match r {
            Some(k) => {
                &&& k < MAX_MMAP_AREAS
                &&& areas@[k as int].used
                &&& overlaps(areas@[k as int], s as int, e as int)
                &&& forall|j: int|
                    0 <= j < k && (#[trigger] areas@[j]).used ==> !overlaps(
                        areas@[j],
                        s as int,
                        e as int,
                    )
            },
            None => range_free(areas@, s as int, e as int),
        },
{
    let mut k: usize = 0;
    while k < MAX_MMAP_AREAS
        invariant
            k <= MAX_MMAP_AREAS,
            areas_wf(areas@),
            forall|j: int|
                0 <= j < k && (#[trigger] areas@[j]).used ==> !overlaps(areas@[j], s as int, e as int),
        decreases MAX_MMAP_AREAS - k,
    {
        let area = areas[k];
        if area.used {
            assert(areas@[k as int].used);
            if s < area.end() && area.start < e {
                return Some(k);
            }
        }
        k = k + 1;
    }
    None
}

/// Whether no used area intersects `[start, end)`.
pub fn mmap_range_available(areas: &[MmapArea; MAX_MMAP_AREAS], start: usize, end: usize) -> (r:
    bool)
    requires
        areas_wf(areas@),
    ensures
        r == range_free(areas@, start as int, end as int),
{
    first_overlap(areas, start, end).is_none()
}

/// The first unused slot.
pub fn find_free_mmap_slot(areas: &[MmapArea; MAX_MMAP_AREAS]) -> (r: Option<usize>)
    ensures
        match r {
            Some(k) => is_first_free(areas@, k as int),
            None => !has_free_slot(areas@),
        },
{
    let mut k: usize = 0;
    while k < MAX_MMAP_AREAS
        invariant
            k <= MAX_MMAP_AREAS,
            forall|j: int| 0 <= j < k ==> (#[trigger] areas@[j]).used,
        decreases MAX_MMAP_AREAS - k,
    {
        if !areas[k].used {
            return Some(k);
        }
        k = k + 1;
    }
    None
}

/// The lowest page-aligned address in the mmap region where `len` bytes
/// intersect no used area, scanning upward from the region's start.
pub fn find_mmap_gap(areas: &[MmapArea; MAX_MMAP_AREAS], len: usize) -> (r: Option<usize>)
    requires
        areas_wf(areas@),
    ensures
        is_lowest_gap(areas@, len as int, r),
{
    let mut candidate = USER_MMAP_START;
    loop
        invariant
            areas_wf(areas@),
            USER_MMAP_START <= candidate <= USER_MMAP_LIMIT,
            candidate % 4096 == 0,
            forall|x: int|
                USER_MMAP_START <= x < candidate ==> !#[trigger] gap_fits(areas@, x, len as int),
        decreases USER_MMAP_LIMIT - candidate,
    {
        if candidate > usize::MAX - len {
            assert forall|x: int| !#[trigger] gap_fits(areas@, x, len as int) by {}
            return None;
        }
        let end = candidate + len;
        if end > USER_MMAP_LIMIT {
            assert forall|x: int| !#[trigger] gap_fits(areas@, x, len as int) by {}
            return None;
        }
        match first_overlap(areas, candidate, end) {
            None => {
                return Some(candidate);
            },
            Some(k) => {
                let a = areas[k];
                assert(area_ok(a));
                let next = align_up(a.end());
                assert(next == area_end(a)) by {
                    assert(area_end(a) % 4096 == 0) by {
                        assert(a.start % 4096 == 0 && a.len % 4096 == 0);
                    }
                }
                assert forall|x: int|
                    USER_MMAP_START <= x < next implies !#[trigger] gap_fits(areas@, x, len as int) by {
                    if x >= candidate {
                        assert(overlaps(areas@[k as int], x, x + len));
                    }
                }
                candidate = next;
            },
        }
    }
}

/// The address chosen for a new mapping of `len` bytes: the hint rounded up
/// to a page when it is non-zero, lies in the mmap region and is free;
/// otherwise the lowest gap. `None` also when the rounded hint lies in the
/// region but the hint plus `len` overflows.
pub open spec fn choose_mmap_addr_result(
    areas: Seq<MmapArea>,
    hint: usize,
    len: usize,
    r: Option<usize>,
) -> bool {
    let h = spec_align_up(hint as int);
    if hint != 0 && h >= USER_MMAP_START && h + len > usize::MAX {
        r is None
    } else if hint != 0 && h >= USER_MMAP_START && h + len <= USER_MMAP_LIMIT && range_free(
        areas,
        h,
        h + len,
    ) {
        r == Some(h as usize)
    } else {
        is_lowest_gap(areas, len as int, r)
    }
}

pub fn choose_mmap_addr(areas: &[MmapArea; MAX_MMAP_AREAS], hint: usize, len: usize) -> (r: Option<
    usize,
>)
    requires
        areas_wf(areas@),
        hint <= usize::MAX - 4095,
    ensures
        choose_mmap_addr_result(areas@, hint, len, r),
{
    if hint != 0 {
        let hint = align_up(hint);
        if hint >= USER_MMAP_START {
            if hint > usize::MAX - len {
                return None;
            }
            if hint + len <= USER_MMAP_LIMIT && mmap_range_available(areas, hint, hint + len) {
                return Some(hint);
            }
        }
    }
    find_mmap_gap(areas, len)
}

/// Whether cutting `[start, end)` out of the areas finds a free slot for
/// every area that it splits in two.
pub fn can_split_mmap_range(areas: &[MmapArea; MAX_MMAP_AREAS], start: usize, end: usize) -> (r:
    bool)
    requires
        areas_wf(areas@),
        start < end,
    ensures
        r == (count_needed(areas@, start as int, end as int, MAX_MMAP_AREAS as int) <= count_free(
            areas@,
            MAX_MMAP_AREAS as int,
        )),
        r == (needs_split(areas@, start as int, end as int) ==> has_free_slot(areas@)),
{
    let mut needed: usize = 0;
    let mut free: usize = 0;
    let mut k: usize = 0;
    while k < MAX_MMAP_AREAS
        invariant
            k <= MAX_MMAP_AREAS,
            areas_wf(areas@),
            needed == count_needed(areas@, start as int, end as int, k as int),
            free == count_free(areas@, k as int),
            needed <= k,
            free <= k,
        decreases MAX_MMAP_AREAS - k,
    {
        let area = areas[k];
        if !area.used {
            free = free + 1;
        } else {
            if start < area.end() && area.start < end && area.start < start && end < area.end() {
                needed = needed + 1;
            }
        }
        k = k + 1;
    }
    proof {
        lemma_count_free_pos(areas@, MAX_MMAP_AREAS as int);
        lemma_count_needed_pos(areas@, start as int, end as int, MAX_MMAP_AREAS as int);
        lemma_needed_at_most_one(areas@, start as int, end as int, MAX_MMAP_AREAS as int);
        if needs_split(areas@, start as int, end as int) {
            let k = choose|k: int|
                0 <= k < MAX_MMAP_AREAS && (#[trigger] areas@[k]).used && areas@[k].start < start
                    && end < area_end(areas@[k]);
            assert(0 <= k < MAX_MMAP_AREAS && areas@[k].used && areas@[k].start < start && end
                < area_end(areas@[k]));
        }
        if has_free_slot(areas@) {
            let k = choose|k: int| 0 <= k < MAX_MMAP_AREAS && !(#[trigger] areas@[k]).used;
            assert(0 <= k < MAX_MMAP_AREAS && !areas@[k].used);
        }
    }
    needed <= free
}

/// Disjoint areas: at most one of them reaches past a non-empty range on
/// both sides.
proof fn lemma_needed_at_most_one(areas: Seq<MmapArea>, s: int, e: int, n: int)
    requires
        areas_wf(areas),
        s < e,
        0 <= n <= MAX_MMAP_AREAS,
    ensures
        count_needed(areas, s, e, n) <= 1,
    decreases n,
{
    if n > 0 {
        lemma_needed_at_most_one(areas, s, e, n - 1);
        let a = areas[n - 1];
        if a.used && overlaps(a, s, e) && a.start < s && e < area_end(a) {
            lemma_count_needed_pos(areas, s, e, n - 1);
            if count_needed(areas, s, e, n - 1) > 0 {
                let k = choose|k: int|
                    0 <= k < n - 1 && (#[trigger] areas[k]).used && areas[k].start < s && e
                        < area_end(areas[k]);
                assert(areas[k].used && areas[n - 1].used && k != n - 1);
            }
        }
    }
}

/// Some used slot from `i` on reaches past `[s, e)` on both sides.
pub open spec fn needs_split_from(areas: Seq<MmapArea>, s: int, e: int, i: int) -> bool {
    exists|k: int|
        i <= k < MAX_MMAP_AREAS && (#[trigger] areas[k]).used && areas[k].start < s && e < area_end(
            areas[k],
        )
}

/// `b` is a used area inside `a`, with its attributes, outside `[s, e)`.
pub open spec fn piece_of(b: MmapArea, a: MmapArea, s: int, e: int) -> bool {
    &&& b.used
    &&& b.prot == a.prot
    &&& b.flags == a.flags
    &&& a.start <= b.start
    &&& area_end(b) <= area_end(a)
    &&& !overlaps(b, s, e)
}

pub open spec fn in_area(a: MmapArea, x: int) -> bool {
    a.used && a.start <= x < area_end(a)
}

/// Replacing used slot `i` by pieces of itself in slots `i` and `s` (a free
/// slot, or `i` again) that together cover what slot `i` covered outside
/// `[start, end)` changes no coverage outside `[start, end)`.
proof fn lemma_cut(
    cur: Seq<MmapArea>,
    new: Seq<MmapArea>,
    i: int,
    s: int,
    start: int,
    end: int,
)
    requires
        cur.len() == MAX_MMAP_AREAS,
        new.len() == MAX_MMAP_AREAS,
        0 <= i < MAX_MMAP_AREAS,
        0 <= s < MAX_MMAP_AREAS,
        cur[i].used,
        s == i || !cur[s].used,
        forall|k: int| 0 <= k < MAX_MMAP_AREAS && k != i && k != s ==> new[k] == cur[k],
        new[i].used ==> piece_of(new[i], cur[i], start, end),
        s != i && new[s].used ==> piece_of(new[s], cur[i], start, end),
        forall|x: int|
            #![trigger in_area(cur[i], x)]
            in_area(cur[i], x) && !(start <= x < end) ==> in_area(new[i], x) || (s != i && in_area(
                new[s],
                x,
            )),
    ensures
        forall|x: int, p: usize, f: usize|
            !(start <= x < end) ==> (#[trigger] covers(new, x, p, f) == covers(cur, x, p, f)),
{
    assert forall|x: int, p: usize, f: usize| !(start <= x < end) implies (#[trigger] covers(
        new,
        x,
        p,
        f,
    ) == covers(cur, x, p, f)) by {
        if covers(new, x, p, f) {
            let k = choose|k: int|
                0 <= k < MAX_MMAP_AREAS && (#[trigger] new[k]).used && new[k].start <= x
                    < area_end(new[k]) && new[k].prot == p && new[k].flags == f;
            if k == i || k == s {
                assert(cur[i].used && cur[i].start <= x < area_end(cur[i]) && cur[i].prot == p
                    && cur[i].flags == f);
            } else {
                assert(cur[k].used && cur[k].start <= x < area_end(cur[k]) && cur[k].prot == p
                    && cur[k].flags == f);
            }
        }
        if covers(cur, x, p, f) {
            let k = choose|k: int|
                0 <= k < MAX_MMAP_AREAS && (#[trigger] cur[k]).used && cur[k].start <= x
                    < area_end(cur[k]) && cur[k].prot == p && cur[k].flags == f;
            if k == i {
                assert(in_area(cur[i], x));
                if in_area(new[i], x) {
                    assert(new[i].used && new[i].start <= x < area_end(new[i]) && new[i].prot == p
                        && new[i].flags == f);
                } else {
                    assert(new[s].used && new[s].start <= x < area_end(new[s]) && new[s].prot == p
                        && new[s].flags == f);
                }
            } else {
                assert(k != s);
                assert(new[k].used && new[k].start <= x < area_end(new[k]) && new[k].prot == p
                    && new[k].flags == f);
            }
        }
    }
}

/// The area `a` reaches past `[s, e)` on both sides.
pub open spec fn splits(a: MmapArea, s: int, e: int) -> bool {
    a.used && a.start < s && e < area_end(a)
}

/// What cutting `[s, e)` leaves of `a` in its own slot: `a` itself when it
/// is unused or does not meet the range, nothing when the range covers it,
/// otherwise the part after the range when it starts inside the range, and
/// the part before the range else.
pub open spec fn cut_area(a: MmapArea, s: int, e: int) -> MmapArea {
    if !a.used || !overlaps(a, s, e) {
        a
    } else if s <= a.start && e >= area_end(a) {
        MmapArea { start: 0, len: 0, prot: 0, flags: 0, used: false }
    } else if s <= a.start {
        MmapArea { start: e as usize, len: (area_end(a) - e) as usize, ..a }
    } else {
        MmapArea { start: a.start, len: (s - a.start) as usize, ..a }
    }
}

/// The part of `a` after `e`.
pub open spec fn tail_piece(a: MmapArea, e: int) -> MmapArea {
    MmapArea { start: e as usize, len: (area_end(a) - e) as usize, ..a }
}

/// With all slots before `n` used and some slot free, there is a first free
/// slot.
proof fn lemma_first_free_from(areas: Seq<MmapArea>, n: int)
    requires
        0 <= n <= MAX_MMAP_AREAS,
        forall|j: int| 0 <= j < n ==> (#[trigger] areas[j]).used,
        has_free_slot(areas),
    ensures
        exists|k: int| is_first_free(areas, k),
    decreases MAX_MMAP_AREAS - n,
{
    if n == MAX_MMAP_AREAS {
        let j = choose|j: int| 0 <= j < MAX_MMAP_AREAS && !(#[trigger] areas[j]).used;
        assert(areas[j].used);
    } else if !areas[n].used {
        assert(is_first_free(areas, n));
    } else {
        lemma_first_free_from(areas, n + 1);
    }
}

/// An area reaching past `[s, e)` on both sides is the only used area that
/// meets the range.
proof fn lemma_split_alone(areas: Seq<MmapArea>, i: int, k: int, s: int, e: int)
    requires
        areas_wf(areas),
        0 <= i < MAX_MMAP_AREAS,
        0 <= k < MAX_MMAP_AREAS,
        i != k,
        s < e,
        splits(areas[i], s, e),
    ensures
        !(areas[k].used && overlaps(areas[k], s, e)),
        !splits(areas[k], s, e),
{
    if areas[k].used {
        assert(areas[i].used);
    }
}

/// Cuts `[start, end)` out of the areas: areas inside it are dropped, areas
/// reaching into it are shortened, and an area reaching past it on both
/// sides keeps its head in place and gets its tail moved to the first free
/// slot. The range is page-aligned, as `munmap` hands it over: the pieces
/// left must be areas again, and every area starts and ends on a page
/// boundary (`areas_wf`).
pub fn remove_mmap_range(areas: &mut [MmapArea; MAX_MMAP_AREAS], start: usize, end: usize)
    requires
        areas_wf(old(areas)@),
        start < end,
        start % 4096 == 0,
        end % 4096 == 0,
        needs_split(old(areas)@, start as int, end as int) ==> has_free_slot(old(areas)@),
    ensures
        areas_wf(final(areas)@),
        forall|x: int, p: usize, f: usize|
            #[trigger] covers(final(areas)@, x, p, f) == (covers(old(areas)@, x, p, f) && !(start
                <= x < end)),
        forall|k: int|
            0 <= k < MAX_MMAP_AREAS && !(needs_split(old(areas)@, start as int, end as int) && k
                == spec_first_free(old(areas)@)) ==> #[trigger] final(areas)@[k] == cut_area(
                old(areas)@[k],
                start as int,
                end as int,
            ),
        forall|k: int|
            0 <= k < MAX_MMAP_AREAS && #[trigger] splits(old(areas)@[k], start as int, end as int)
                ==> final(areas)@[spec_first_free(old(areas)@)] == tail_piece(old(areas)@[k], end as int),
{
    let ghost o = old(areas)@;
    let ghost ns = needs_split(o, start as int, end as int);
    let ghost si: int = if ns {
        choose|k: int| 0 <= k < MAX_MMAP_AREAS && #[trigger] splits(o[k], start as int, end as int)
    } else {
        -1
    };
    let ghost ff: int = if ns {
        spec_first_free(o)
    } else {
        -1
    };
    proof {
        if ns {
            let k = choose|k: int|
                0 <= k < MAX_MMAP_AREAS && (#[trigger] o[k]).used && o[k].start < start && end
                    < area_end(o[k]);
            assert(splits(o[k], start as int, end as int));
            lemma_first_free_from(o, 0);
            let j = choose|j: int| is_first_free(o, j);
            lemma_first_free_unique(o, j);
        }
    }
    let mut i: usize = 0;
    assert(needs_split_from(o, start as int, end as int, 0) ==> needs_split(o, start as int, end as int)) by {
        if needs_split_from(o, start as int, end as int, 0) {
            let k = choose|k: int|
                0 <= k < MAX_MMAP_AREAS && (#[trigger] o[k]).used && o[k].start < start && end
                    < area_end(o[k]);
            assert(o[k].used);
        }
    }
    while i < MAX_MMAP_AREAS
        invariant
            i <= MAX_MMAP_AREAS,
            start < end,
            start % 4096 == 0,
            end % 4096 == 0,
            areas_wf(areas@),
            forall|x: int, p: usize, f: usize|
                !(start <= x < end) ==> (#[trigger] covers(areas@, x, p, f) == covers(o, x, p, f)),
            forall|k: int|
                0 <= k < i && (#[trigger] areas@[k]).used ==> !overlaps(
                    areas@[k],
                    start as int,
                    end as int,
                ),
            forall|k: int|
                i <= k < MAX_MMAP_AREAS ==> (#[trigger] areas@[k] == o[k]) || (areas@[k].used
                    && !overlaps(areas@[k], start as int, end as int)),
            needs_split_from(areas@, start as int, end as int, i as int) ==> has_free_slot(areas@),
            ns == needs_split(o, start as int, end as int),
            areas_wf(o),
            ns ==> 0 <= si < MAX_MMAP_AREAS && splits(o[si], start as int, end as int) && is_first_free(o, ff),
            !ns ==> ff == -1,
            forall|k: int|
                0 <= k < MAX_MMAP_AREAS && k != ff ==> #[trigger] areas@[k] == if k < i {
                    cut_area(o[k], start as int, end as int)
                } else {
                    o[k]
                },
            ns ==> areas@[ff] == if i > si {
                tail_piece(o[si], end as int)
            } else {
                o[ff]
            },
        decreases MAX_MMAP_AREAS - i,
    {
        let ghost cur = areas@;
        let area = areas[i];
        if !area.used || !(start < area.end() && area.start < end) {
            assert(needs_split_from(cur, start as int, end as int, i + 1) ==> needs_split_from(
                cur,
                start as int,
                end as int,
                i as int,
            )) by {
                if needs_split_from(cur, start as int, end as int, i + 1) {
                    let k = choose|k: int|
                        i + 1 <= k < MAX_MMAP_AREAS && (#[trigger] cur[k]).used && cur[k].start
                            < start && end < area_end(cur[k]);
                    assert(cur[k].used);
                }
            }
            i = i + 1;
            continue;
        }
        assert(area == o[i as int]);
        assert(area_ok(area));
        let a_end = area.end();
        if start <= area.start && end >= a_end {
            areas[i] = MmapArea::empty();
            proof {
                lemma_cut(cur, areas@, i as int, i as int, start as int, end as int);
                lemma_wf_after_cut(cur, areas@, i as int, i as int);
            }
        } else if start <= area.start {
            areas[i] = MmapArea {
                start: end,
                len: a_end - end,
                prot: area.prot,
                flags: area.flags,
                used: true,
            };
            proof {
                lemma_cut(cur, areas@, i as int, i as int, start as int, end as int);
                lemma_wf_after_cut(cur, areas@, i as int, i as int);
            }
        } else if end >= a_end {
            areas[i] = MmapArea {
                start: area.start,
                len: start - area.start,
                prot: area.prot,
                flags: area.flags,
                used: true,
            };
            proof {
                lemma_cut(cur, areas@, i as int, i as int, start as int, end as int);
                lemma_wf_after_cut(cur, areas@, i as int, i as int);
            }
        } else {
            let tail = MmapArea {
                start: end,
                len: a_end - end,
                prot: area.prot,
                flags: area.flags,
                used: true,
            };
            assert(needs_split_from(cur, start as int, end as int, i as int)) by {
                assert(cur[i as int].used);
            }
            proof {
                assert(splits(o[i as int], start as int, end as int));
                if si != i as int {
                    lemma_split_alone(o, si, i as int, start as int, end as int);
                }
                assert forall|k: int| 0 <= k < MAX_MMAP_AREAS implies #[trigger] cur[k] == o[k] by {
                    if k != ff && k < i {
                        lemma_split_alone(o, si, k, start as int, end as int);
                    }
                }
                assert(cur =~= o);
            }
            let slot = match find_free_mmap_slot(areas) {
                Some(s) => s,
                None => {
                    assert(false);
                    return ;
                },
            };
            proof {
                lemma_first_free_unique(o, slot as int);
            }
            areas[i] = MmapArea {
                start: area.start,
                len: start - area.start,
                prot: area.prot,
                flags: area.flags,
                used: true,
            };
            areas[slot] = tail;
            proof {
                lemma_cut(cur, areas@, i as int, slot as int, start as int, end as int);
                lemma_wf_after_cut(cur, areas@, i as int, slot as int);
            }
        }
        proof {
            let nw = areas@;
            assert forall|k: int|
                0 <= k < i + 1 && (#[trigger] nw[k]).used implies !overlaps(
                nw[k],
                start as int,
                end as int,
            ) by {
                if k != i as int && nw[k] == cur[k] {
                }
            }
            assert forall|k: int| i + 1 <= k < MAX_MMAP_AREAS implies (#[trigger] nw[k] == o[k]) || (
            nw[k].used && !overlaps(nw[k], start as int, end as int)) by {
                if nw[k] == cur[k] {
                    assert(cur[k] == o[k] || (cur[k].used && !overlaps(
                        cur[k],
                        start as int,
                        end as int,
                    )));
                }
            }
            if needs_split_from(nw, start as int, end as int, i + 1) {
                let k = choose|k: int|
                    i + 1 <= k < MAX_MMAP_AREAS && (#[trigger] nw[k]).used && nw[k].start < start
                        && end < area_end(nw[k]);
                assert(nw[k] == cur[k] || !overlaps(nw[k], start as int, end as int));
                assert(nw[k] == o[k]);
                assert(cur[k] == o[k] || (cur[k].used && !overlaps(
                    cur[k],
                    start as int,
                    end as int,
                )));
                assert(cur[k].used && cur[i as int].used && k != i as int);
                assert(false);
            }
        }
        i = i + 1;
    }
    proof {
        let fin = areas@;
        assert forall|k: int|
            0 <= k < MAX_MMAP_AREAS && #[trigger] splits(o[k], start as int, end as int) implies fin[spec_first_free(
            o,
        )] == tail_piece(o[k], end as int) by {
            assert(o[k].used);
            if k != si {
                lemma_split_alone(o, si, k, start as int, end as int);
            }
        }
        assert forall|x: int, p: usize, f: usize| #[trigger] covers(fin, x, p, f) == (covers(
            o,
            x,
            p,
            f,
        ) && !(start <= x < end)) by {
            if start <= x < end && covers(fin, x, p, f) {
                let k = choose|k: int|
                    0 <= k < MAX_MMAP_AREAS && (#[trigger] fin[k]).used && fin[k].start <= x
                        < area_end(fin[k]) && fin[k].prot == p && fin[k].flags == f;
                assert(!overlaps(fin[k], start as int, end as int));
            }
        }
    }
}

/// A cut as in `lemma_cut`, with the new pieces well placed and
/// page-aligned, keeps the areas well formed.
proof fn lemma_wf_after_cut(cur: Seq<MmapArea>, new: Seq<MmapArea>, i: int, s: int)
    requires
        areas_wf(cur),
        new.len() == MAX_MMAP_AREAS,
        0 <= i < MAX_MMAP_AREAS,
        0 <= s < MAX_MMAP_AREAS,
        cur[i].used,
        s == i || !cur[s].used,
        forall|k: int| 0 <= k < MAX_MMAP_AREAS && k != i && k != s ==> new[k] == cur[k],
        new[i].used ==> {
            &&& cur[i].start <= new[i].start
            &&& area_end(new[i]) <= area_end(cur[i])
            &&& new[i].start % 4096 == 0
            &&& new[i].len % 4096 == 0
            &&& new[i].len > 0
        },
        s != i && new[s].used ==> {
            &&& cur[i].start <= new[s].start
            &&& area_end(new[s]) <= area_end(cur[i])
            &&& new[s].start % 4096 == 0
            &&& new[s].len % 4096 == 0
            &&& new[s].len > 0
            &&& (new[i].used ==> area_end(new[i]) <= new[s].start)
        },
    ensures
        areas_wf(new),
{
    assert forall|k: int| 0 <= k < MAX_MMAP_AREAS && (#[trigger] new[k]).used implies area_ok(new[k]) by {
        if k == i || k == s {
            assert(area_ok(cur[i]));
        } else {
            assert(cur[k].used);
        }
    }
    assert forall|k: int, l: int|
        0 <= k < MAX_MMAP_AREAS && 0 <= l < MAX_MMAP_AREAS && k != l && (#[trigger] new[k]).used
            && (#[trigger] new[l]).used implies area_end(new[k]) <= new[l].start || area_end(new[l])
        <= new[k].start by {
        let kk = if k == s { i } else { k };
        let ll = if l == s { i } else { l };
        if kk != ll {
            assert(cur[kk].used && cur[ll].used);
        }
    }
}

/// The address that `choose_mmap_addr` picks (see
/// [`choose_mmap_addr_result`], which has exactly one solution).
pub open spec fn spec_mmap_addr(areas: Seq<MmapArea>, hint: usize, len: usize) -> Option<usize> {
    choose|r: Option<usize>| choose_mmap_addr_result(areas, hint, len, r)
}

/// The lowest gap is unique.
pub proof fn lemma_lowest_gap_unique(areas: Seq<MmapArea>, len: int, a: Option<usize>, b: Option<usize>)
    requires
        is_lowest_gap(areas, len, a),
        is_lowest_gap(areas, len, b),
    ensures
        a == b,
{
    match (a, b) {
        (Some(x), Some(y)) => {
            if x < y {
                assert(!gap_fits(areas, x as int, len));
            }
            if y < x {
                assert(!gap_fits(areas, y as int, len));
            }
        },
        (Some(x), None) => {
            assert(!gap_fits(areas, x as int, len));
        },
        (None, Some(y)) => {
            assert(!gap_fits(areas, y as int, len));
        },
        (None, None) => {},
    }
}

/// What `choose_mmap_addr` returns is determined by its arguments.
pub proof fn lemma_mmap_addr_unique(areas: Seq<MmapArea>, hint: usize, len: usize, r: Option<usize>)
    requires
        choose_mmap_addr_result(areas, hint, len, r),
    ensures
        spec_mmap_addr(areas, hint, len) == r,
{
    let c = spec_mmap_addr(areas, hint, len);
    assert(choose_mmap_addr_result(areas, hint, len, c));
    let h = spec_align_up(hint as int);
    if !(hint != 0 && h >= USER_MMAP_START && h + len > usize::MAX) && !(hint != 0 && h
        >= USER_MMAP_START && h + len <= USER_MMAP_LIMIT && range_free(areas, h, h + len)) {
        lemma_lowest_gap_unique(areas, len as int, c, r);
    }
}

/// The first unused slot.
pub open spec fn is_first_free(areas: Seq<MmapArea>, k: int) -> bool {
    &&& 0 <= k < MAX_MMAP_AREAS
    &&& !areas[k].used
    &&& forall|j: int| 0 <= j < k ==> (#[trigger] areas[j]).used
}

/// The first unused slot, when there is one.
pub open spec fn spec_first_free(areas: Seq<MmapArea>) -> int {
    choose|k: int| is_first_free(areas, k)
}

pub proof fn lemma_first_free_unique(areas: Seq<MmapArea>, k: int)
    requires
        is_first_free(areas, k),
    ensures
        spec_first_free(areas) == k,
{
    let c = spec_first_free(areas);
    assert(is_first_free(areas, c));
    if c < k {
        assert(areas[c].used);
    }
    if k < c {
        assert(areas[k].used);
    }
}

/// An address that `choose_mmap_addr` picks has room for `len` bytes and is
/// page-aligned.
pub proof fn lemma_mmap_addr_fits(areas: Seq<MmapArea>, hint: usize, len: usize, c: usize)
    requires
        choose_mmap_addr_result(areas, hint, len, Some(c)),
    ensures
        gap_fits(areas, c as int, len as int),
        c % 4096 == 0,
{
    crate::syscall::errno::lemma_align_up_mono(hint as int, hint as int);
}

/// Putting an area that fits into an unused slot keeps the areas well
/// formed.
pub proof fn lemma_insert_area(areas: Seq<MmapArea>, k: int, n: MmapArea)
    requires
        areas_wf(areas),
        0 <= k < MAX_MMAP_AREAS,
        !areas[k].used,
        n.used,
        area_ok(n),
        range_free(areas, n.start as int, area_end(n)),
    ensures
        areas_wf(areas.update(k, n)),
{
    let a2 = areas.update(k, n);
    assert forall|i: int, j: int|
        0 <= i < MAX_MMAP_AREAS && 0 <= j < MAX_MMAP_AREAS && i != j && (#[trigger] a2[i]).used
            && (#[trigger] a2[j]).used implies area_end(a2[i]) <= a2[j].start || area_end(a2[j])
        <= a2[i].start by {
        if i == k {
            assert(areas[j].used);
            assert(!overlaps(areas[j], n.start as int, area_end(n)));
        } else if j == k {
            assert(areas[i].used);
            assert(!overlaps(areas[i], n.start as int, area_end(n)));
        } else {
            assert(areas[i].used && areas[j].used);
        }
    }
}

} // verus!
