//! The process table and round-robin scheduling decisions.
use vstd::prelude::*;

use crate::mm::page_table::spec_satp;
use crate::task::process::{Process, ProcessState};
use crate::task::trapframe::TrapFrame;

verus! {

pub const MAX_PROCESSES: usize = 32;

/// The process table: `MAX_PROCESSES` slots, the index of the running
/// process and the next pid to hand out.
pub struct Scheduler {
    pub procs: Vec<Option<Process>>,
    pub current: usize,
    pub next_pid: usize,
}

/// What the context switch after a scheduling decision needs: the `satp`
/// value of the next process, the kernel stack address where its trap frame
/// goes, and the frame itself.
#[derive(Clone, Copy, Debug)]
pub struct Switch {
    pub satp: usize,
    pub frame_sp: usize,
    pub frame: TrapFrame,
}

pub open spec fn is_ready(slot: Option<Process>) -> bool {
    slot matches Some(p) && p.state == ProcessState::Ready
}

/// Slot `i` can take a new process: it is empty or holds a reaped one.
pub open spec fn is_reusable(slot: Option<Process>) -> bool {
    match slot {
        None => true,
        Some(p) => p.state == ProcessState::Gone,
    }
}

/// The slot `d` steps after `cur`, going round the table.
pub open spec fn cyclic(cur: int, d: int) -> int {
    (cur + d) % (MAX_PROCESSES as int)
}

impl Scheduler {
    pub open spec fn wf(&self) -> bool {
        &&& self.procs@.len() == MAX_PROCESSES
        &&& self.current < MAX_PROCESSES
        &&& self.procs@[self.current as int] is Some
    }

    pub open spec fn cur(&self) -> Process {
        self.procs@[self.current as int]->Some_0
    }

    /// Every slot other than `i` is as in `old`, and the current index and
    /// next pid are unchanged.
    pub open spec fn same_except(&self, old: Scheduler, i: int) -> bool {
        &&& self.procs@.len() == old.procs@.len()
        &&& self.current == old.current
        &&& self.next_pid == old.next_pid
        &&& forall|j: int| 0 <= j < self.procs@.len() && j != i ==> #[trigger] self.procs@[j] == old.procs@[j]
    }

    /// An empty table; the first process is pid 1.
    pub fn new() -> (r: Self)
        ensures
            r.procs@.len() == MAX_PROCESSES,
            forall|i: int| 0 <= i < MAX_PROCESSES ==> #[trigger] r.procs@[i] is None,
            r.current == 0,
            r.next_pid == 1,
    {
        let mut procs: Vec<Option<Process>> = Vec::new();
        let mut i: usize = 0;
        while i < MAX_PROCESSES
            invariant
                i <= MAX_PROCESSES,
                procs@.len() == i,
                forall|j: int| 0 <= j < i ==> #[trigger] procs@[j] is None,
            decreases MAX_PROCESSES - i,
        {
            procs.push(None);
            i = i + 1;
        }
        Scheduler { procs, current: 0, next_pid: 1 }
    }

    /// Puts `p` in slot `i`.
    pub fn install(&mut self, i: usize, p: Process)
        requires
            i < old(self).procs@.len(),
        ensures
            final(self).procs@ == old(self).procs@.update(i as int, Some(p)),
            final(self).current == old(self).current,
            final(self).next_pid == old(self).next_pid,
    {
        self.procs.set(i, Some(p));
    }

    /// The first slot that is empty or holds a reaped process.
    pub fn find_empty_slot(&self) -> (r: Option<usize>)
        requires
            self.procs@.len() == MAX_PROCESSES,
        ensures
            match r {
                Some(i) => i < MAX_PROCESSES && is_reusable(self.procs@[i as int]) && forall|j: int|
                    0 <= j < i ==> !is_reusable(#[trigger] self.procs@[j]),
                None => forall|j: int| 0 <= j < MAX_PROCESSES ==> !is_reusable(#[trigger] self.procs@[j]),
            },
    {
        let mut i: usize = 0;
        while i < MAX_PROCESSES
            invariant
                i <= MAX_PROCESSES,
                self.procs@.len() == MAX_PROCESSES,
                forall|j: int| 0 <= j < i ==> !is_reusable(#[trigger] self.procs@[j]),
            decreases MAX_PROCESSES - i,
        {
            match &self.procs[i] {
                None => {
                    return Some(i);
                },
                Some(p) => {
                    if p.state == ProcessState::Gone {
                        return Some(i);
                    }
                },
            }
            i = i + 1;
        }
        None
    }

    /// Hands out the next pid.
    pub fn alloc_pid(&mut self) -> (r: usize)
        requires
            old(self).next_pid < usize::MAX,
        ensures
            r == old(self).next_pid,
            final(self).next_pid == old(self).next_pid + 1,
            final(self).procs@ == old(self).procs@,
            final(self).current == old(self).current,
    {
        let pid = self.next_pid;
        self.next_pid = pid + 1;
        pid
    }

    /// The running process.
    pub fn current(&self) -> (r: &Process)
        requires
            self.wf(),
        ensures
            *r == self.cur(),
    {
        self.procs[self.current].as_ref().unwrap()
    }

    /// Index of the running process's slot.
    pub fn current_index(&self) -> (r: usize)
        ensures
            r == self.current,
    {
        self.current
    }

    /// Replaces the running process by `p`.
    pub fn set_current(&mut self, p: Process)
        requires
            old(self).wf(),
        ensures
            final(self).wf(),
            final(self).same_except(*old(self), old(self).current as int),
            final(self).cur() == p,
    {
        let c = self.current;
        self.procs.set(c, Some(p));
    }

    /// Hands every live child of the running process to init (pid 1).
    pub fn reparent_orphans_to_init(&mut self)
        requires
            old(self).wf(),
        ensures
            final(self).wf(),
            final(self).current == old(self).current,
            final(self).next_pid == old(self).next_pid,
            final(self).procs@.len() == MAX_PROCESSES,
            forall|i: int|
                0 <= i < MAX_PROCESSES ==> #[trigger] final(self).procs@[i] == reparented(
                    old(self).procs@[i],
                    old(self).cur().pid,
                ),
            forall|i: int|
                #![trigger final(self).procs@[i]]
                0 <= i < MAX_PROCESSES && (old(self).procs@[i] matches Some(p) && p.parent_pid == old(
                    self,
                ).cur().pid && p.state != ProcessState::Gone) ==> final(self).procs@[i] == Some(
                    Process { parent_pid: 1, ..old(self).procs@[i]->Some_0 },
                ),
            forall|i: int|
                #![trigger final(self).procs@[i]]
                0 <= i < MAX_PROCESSES && !(old(self).procs@[i] matches Some(p) && p.parent_pid == old(
                    self,
                ).cur().pid && p.state != ProcessState::Gone) ==> final(self).procs@[i] == old(
                    self,
                ).procs@[i],
    {
        let cur_pid = self.current().pid;
        let ghost o = self.procs@;
        let mut i: usize = 0;
        while i < MAX_PROCESSES
            invariant
                i <= MAX_PROCESSES,
                self.procs@.len() == MAX_PROCESSES,
                self.current == old(self).current,
                self.next_pid == old(self).next_pid,
                o == old(self).procs@,
                cur_pid == old(self).cur().pid,
                old(self).wf(),
                forall|j: int|
                    0 <= j < MAX_PROCESSES ==> #[trigger] self.procs@[j] == if j < i {
                        reparented(o[j], cur_pid)
                    } else {
                        o[j]
                    },
            decreases MAX_PROCESSES - i,
        {
            let slot = self.procs[i];
            if let Some(mut p) = slot {
                if p.parent_pid == cur_pid && p.state != ProcessState::Gone {
                    p.parent_pid = 1;
                    self.procs.set(i, Some(p));
                }
            }
            i = i + 1;
        }
        assert(self.procs@[self.current as int] is Some);
    }

    /// Wakes the first blocked process whose pid is the running process's
    /// parent.
    pub fn wake_parent(&mut self)
        requires
            old(self).wf(),
        ensures
            final(self).wf(),
            final(self).current == old(self).current,
            final(self).next_pid == old(self).next_pid,
            final(self).procs@.len() == MAX_PROCESSES,
            match first_blocked_with_pid(old(self).procs@, old(self).cur().parent_pid) {
                Some(i) => {
                    &&& final(self).procs@ == old(self).procs@.update(
                        i,
                        Some(
                            Process { state: ProcessState::Ready, ..old(self).procs@[i]->Some_0 },
                        ),
                    )
                },
                None => final(self).procs@ == old(self).procs@,
            },
    {
        let parent_pid = self.current().parent_pid;
        let mut i: usize = 0;
        while i < MAX_PROCESSES
            invariant
                i <= MAX_PROCESSES,
                *self == *old(self),
                parent_pid == old(self).cur().parent_pid,
                self.wf(),
                forall|j: int| 0 <= j < i ==> !blocked_with_pid(#[trigger] self.procs@[j], parent_pid),
            decreases MAX_PROCESSES - i,
        {
            let slot = self.procs[i];
            if let Some(mut p) = slot {
                if p.pid == parent_pid && p.state == ProcessState::Blocked {
                    proof {
                        lemma_first_blocked(self.procs@, parent_pid, i as int);
                    }
                    p.state = ProcessState::Ready;
                    self.procs.set(i, Some(p));
                    return ;
                }
            }
            i = i + 1;
        }
        proof {
            lemma_first_blocked_none(self.procs@, parent_pid);
        }
    }

    /// The first ready slot after the running one, going round the table
    /// (the running slot itself last); `MAX_PROCESSES` when none is ready.
    pub fn pick_next(&self) -> (r: usize)
        requires
            self.procs@.len() == MAX_PROCESSES,
            self.current < MAX_PROCESSES,
        ensures
            r <= MAX_PROCESSES,
            r < MAX_PROCESSES ==> {
                &&& is_ready(self.procs@[r as int])
                &&& exists|d: int|
                    1 <= d <= MAX_PROCESSES && r == cyclic(self.current as int, d) && forall|e: int|
                        1 <= e < d ==> !is_ready(
                            #[trigger] self.procs@[cyclic(self.current as int, e)],
                        )
            },
            r == MAX_PROCESSES ==> forall|j: int|
                0 <= j < MAX_PROCESSES ==> !is_ready(#[trigger] self.procs@[j]),
    {
        let cur = self.current;
        let mut i: usize = 1;
        while i <= MAX_PROCESSES
            invariant
                1 <= i <= MAX_PROCESSES + 1,
                cur == self.current,
                self.procs@.len() == MAX_PROCESSES,
                cur < MAX_PROCESSES,
                forall|e: int| 1 <= e < i ==> !is_ready(#[trigger] self.procs@[cyclic(cur as int, e)]),
            decreases MAX_PROCESSES + 1 - i,
        {
            let idx = (cur + i) % MAX_PROCESSES;
            match &self.procs[idx] {
                Some(p) => {
                    if p.state == ProcessState::Ready {
                        assert(idx == cyclic(cur as int, i as int));
                        return idx;
                    }
                },
                None => {},
            }
            assert(!is_ready(self.procs@[cyclic(cur as int, i as int)]));
            i = i + 1;
        }
        assert forall|j: int| 0 <= j < MAX_PROCESSES implies !is_ready(#[trigger] self.procs@[j]) by {
            let d = if j > cur { j - cur } else { j - cur + MAX_PROCESSES };
            assert(cyclic(cur as int, d) == j);
        }
        MAX_PROCESSES
    }

    /// The scheduling decision: stores `saved` as the running process's
    /// trap frame, then picks the next ready process round-robin, makes it
    /// the running one and marks it running (a ready process has room for a
    /// trap frame on its kernel stack). `None` when no process is ready
    /// (the machine is then shut down).
    pub fn schedule(&mut self, saved: TrapFrame) -> (r: Option<Switch>)
        requires
            old(self).wf(),
            forall|i: int|
                0 <= i < MAX_PROCESSES && is_ready(#[trigger] old(self).procs@[i]) ==> old(
                    self,
                ).procs@[i]->Some_0.kernel_sp >= TrapFrame::SIZE,
        ensures
            final(self).wf(),
            final(self).next_pid == old(self).next_pid,
            ({
                let saved_procs = old(self).procs@.update(
                    old(self).current as int,
                    Some(Process { trap_frame: saved, ..old(self).cur() }),
                );
                match r {
                    None => {
                        &&& final(self).procs@ == saved_procs
                        &&& final(self).current == old(self).current
                        &&& forall|j: int|
                            0 <= j < MAX_PROCESSES ==> !is_ready(#[trigger] saved_procs[j])
                    },
                    Some(sw) => {
                        let n = final(self).current as int;
                        &&& is_ready(saved_procs[n])
                        &&& exists|d: int|
                            1 <= d <= MAX_PROCESSES && n == cyclic(old(self).current as int, d)
                                && forall|e: int|
                                1 <= e < d ==> !is_ready(
                                    #[trigger] saved_procs[cyclic(old(self).current as int, e)],
                                )
                        &&& final(self).procs@ == saved_procs.update(
                            n,
                            Some(Process { state: ProcessState::Running, ..saved_procs[n]->Some_0 }),
                        )
                        &&& sw.satp == spec_satp(saved_procs[n]->Some_0.page_table.root.0)
                        &&& sw.frame_sp == saved_procs[n]->Some_0.kernel_sp - TrapFrame::SIZE
                        &&& sw.frame == saved_procs[n]->Some_0.trap_frame
                    },
                }
            }),
    {
        let ghost saved_procs = old(self).procs@.update(
            old(self).current as int,
            Some(Process { trap_frame: saved, ..old(self).cur() }),
        );
        let mut cur = *self.current();
        cur.trap_frame = saved;
        self.set_current(cur);
        assert(self.procs@ =~= saved_procs);
        let next_idx = self.pick_next();
        if next_idx == MAX_PROCESSES {
            return None;
        }
        self.current = next_idx;
        let mut next = *self.current();
        next.state = ProcessState::Running;
        self.set_current(next);
        assert(self.procs@ =~= saved_procs.update(
            next_idx as int,
            Some(Process { state: ProcessState::Running, ..saved_procs[next_idx as int]->Some_0 }),
        ));
        let satp = next.page_table.satp_val();
        let frame_sp = next.kernel_sp - TrapFrame::SIZE;
        Some(Switch { satp, frame_sp, frame: next.trap_frame })
    }
}

/// `slot` with its parent changed to init when it is a live child of
/// `parent`.
pub open spec fn reparented(slot: Option<Process>, parent: usize) -> Option<Process> {
    match slot {
        Some(p) => if p.parent_pid == parent && p.state != ProcessState::Gone {
            Some(Process { parent_pid: 1, ..p })
        } else {
            slot
        },
        None => None,
    }
}

pub open spec fn blocked_with_pid(slot: Option<Process>, pid: usize) -> bool {
    slot matches Some(p) && p.pid == pid && p.state == ProcessState::Blocked
}

/// The first slot holding a blocked process with pid `pid`.
pub open spec fn first_blocked_with_pid(procs: Seq<Option<Process>>, pid: usize) -> Option<int> {
    if exists|i: int| 0 <= i < procs.len() && blocked_with_pid(#[trigger] procs[i], pid) {
        Some(
            choose|i: int|
                0 <= i < procs.len() && blocked_with_pid(#[trigger] procs[i], pid) && forall|j: int|
                    0 <= j < i ==> !blocked_with_pid(#[trigger] procs[j], pid),
        )
    } else {
        None
    }
}

proof fn lemma_first_blocked(procs: Seq<Option<Process>>, pid: usize, i: int)
    requires
        0 <= i < procs.len(),
        blocked_with_pid(procs[i], pid),
        forall|j: int| 0 <= j < i ==> !blocked_with_pid(#[trigger] procs[j], pid),
    ensures
        first_blocked_with_pid(procs, pid) == Some(i),
{
    let k = choose|k: int|
        0 <= k < procs.len() && blocked_with_pid(#[trigger] procs[k], pid) && forall|j: int|
            0 <= j < k ==> !blocked_with_pid(#[trigger] procs[j], pid);
    assert(blocked_with_pid(procs[i], pid));
    if k < i {
        assert(!blocked_with_pid(procs[k], pid));
    }
    if k > i {
        assert(!blocked_with_pid(procs[i], pid));
    }
}

proof fn lemma_first_blocked_none(procs: Seq<Option<Process>>, pid: usize)
    requires
        forall|j: int| 0 <= j < procs.len() ==> !blocked_with_pid(#[trigger] procs[j], pid),
    ensures
        first_blocked_with_pid(procs, pid) is None,
{
}

} // verus!
