//! The system-call table: from a call number and its arguments to the
//! kernel operation, and what is left for the caller to do with user
//! memory and the console.
use vstd::prelude::*;
use vstd::string::StringSliceAdditionalSpecFns;

use crate::syscall::areas::areas_wf;
use crate::syscall::errno::{linux_error, spec_linux_error, EBADF, ECHILD, ENOSYS, ERANGE};
use crate::syscall::fork::{fork_post, fork_ready, has_reusable_slot};
use crate::syscall::kernel::{brk_post, exit_post, mmap_post, munmap_post, Kernel};
use crate::syscall::uaccess::{ensure_post, range_resolvable};
use crate::syscall::wait::{reap_ready, wait_post, WaitResult};
use crate::task::process::{MmapArea, Process, MAX_MMAP_AREAS};
use crate::task::trapframe::REG_SP;

verus! {

pub const SYS_GETCWD: usize = 17;

pub const SYS_READ: usize = 63;

pub const SYS_WRITE: usize = 64;

pub const SYS_EXIT: usize = 93;

pub const SYS_EXIT_GROUP: usize = 94;

pub const SYS_UNAME: usize = 160;

pub const SYS_GETPID: usize = 172;

pub const SYS_GETPPID: usize = 173;

pub const SYS_GETUID: usize = 174;

pub const SYS_GETEUID: usize = 175;

pub const SYS_GETGID: usize = 176;

pub const SYS_GETEGID: usize = 177;

pub const SYS_GETTID: usize = 178;

pub const SYS_BRK: usize = 214;

pub const SYS_MUNMAP: usize = 215;

pub const SYS_FORK: usize = 220;

pub const SYS_EXEC: usize = 221;

pub const SYS_MMAP: usize = 222;

pub const SYS_WAIT: usize = 260;

/// Length of one field of `struct utsname`, its terminating zero included.
pub const UTS_FIELD_LEN: usize = 65;

pub const UTS_FIELDS: usize = 6;

/// Size of `struct utsname`.
pub const UTS_SIZE: usize = 390;

/// `struct utsname` with the given fields: each in its 65-byte slot, cut
/// to 64 bytes, the rest zero.
pub open spec fn uts_image(fields: Seq<Seq<u8>>) -> Seq<u8> {
    Seq::new(
        UTS_SIZE as nat,
        |i: int|
            {
                let f = i / 65;
                let o = i % 65;
                if o < 64 && o < fields[f].len() {
                    fields[f][o]
                } else {
                    0u8
                }
            },
    )
}

/// The fields that `uname` reports: system, node, release, version,
/// machine, domain.
pub open spec fn uts_fields() -> Seq<Seq<u8>> {
    seq![
        "Unit00".spec_bytes(),
        "unit00".spec_bytes(),
        "0.1.0".spec_bytes(),
        "oskernel-2026 stage-1".spec_bytes(),
        "riscv64".spec_bytes(),
        "localdomain".spec_bytes(),
    ]
}

/// Writes `value`, cut to 64 bytes, into field `index` of the `struct
/// utsname` image `buf`.
pub fn write_uts_field(buf: &mut Vec<u8>, index: usize, value: &[u8])
    requires
        old(buf)@.len() == UTS_SIZE,
        index < UTS_FIELDS,
    ensures
        final(buf)@ == Seq::new(
            UTS_SIZE as nat,
            |i: int|
                if index * 65 <= i < index * 65 + 64 && i - index * 65 < value@.len() {
                    value@[i - index * 65]
                } else {
                    old(buf)@[i]
                },
        ),
{
    let len = if value.len() < UTS_FIELD_LEN - 1 {
        value.len()
    } else {
        UTS_FIELD_LEN - 1
    };
    let base = index * UTS_FIELD_LEN;
    let mut k: usize = 0;
    while k < len
        invariant
            k <= len,
            len <= 64,
            len <= value@.len(),
            len == value@.len() || len == 64,
            base == index * 65,
            index < UTS_FIELDS,
            buf@ == Seq::new(
                UTS_SIZE as nat,
                |i: int|
                    if base <= i < base + k {
                        value@[i - base]
                    } else {
                        old(buf)@[i]
                    },
            ),
        decreases len - k,
    {
        buf.set(base + k, value[k]);
        assert(buf@ =~= Seq::new(
            UTS_SIZE as nat,
            |i: int|
                if base <= i < base + k + 1 {
                    value@[i - base]
                } else {
                    old(buf)@[i]
                },
        ));
        k = k + 1;
    }
    assert(buf@ =~= Seq::new(
        UTS_SIZE as nat,
        |i: int|
            if index * 65 <= i < index * 65 + 64 && i - index * 65 < value@.len() {
                value@[i - index * 65]
            } else {
                old(buf)@[i]
            },
    ));
}

/// The `struct utsname` image that `uname` copies out.
pub fn uname_image() -> (r: Vec<u8>)
    ensures
        r@ == uts_image(uts_fields()),
{
    let mut buf: Vec<u8> = Vec::new();
    let mut i: usize = 0;
    while i < UTS_SIZE
        invariant
            i <= UTS_SIZE,
            buf@.len() == i,
            forall|j: int| 0 <= j < i ==> buf@[j] == 0u8,
        decreases UTS_SIZE - i,
    {
        buf.push(0u8);
        i = i + 1;
    }
    let ghost b0 = buf@;
    write_uts_field(&mut buf, 0, "Unit00".as_bytes());
    write_uts_field(&mut buf, 1, "unit00".as_bytes());
    write_uts_field(&mut buf, 2, "0.1.0".as_bytes());
    write_uts_field(&mut buf, 3, "oskernel-2026 stage-1".as_bytes());
    write_uts_field(&mut buf, 4, "riscv64".as_bytes());
    write_uts_field(&mut buf, 5, "localdomain".as_bytes());
    proof {
        let fields = uts_fields();
        assert forall|j: int| 0 <= j < UTS_SIZE implies #[trigger] buf@[j] == uts_image(fields)[j] by {
            let f = j / 65;
            let o = j % 65;
            assert(0 <= f < 6);
            assert(j == f * 65 + o);
        }
        assert(buf@ =~= uts_image(fields));
    }
    buf
}

/// The eight bytes of `v`, least significant first.
pub open spec fn le_bytes(v: u64) -> Seq<u8> {
    Seq::new(8, |k: int| ((v >> ((8 * k) as u64)) & 0xffu64) as u8)
}

/// The eight bytes of `v`, least significant first, as a store of a
/// 64-bit word writes them.
pub fn word_bytes(v: u64) -> (r: Vec<u8>)
    ensures
        r@ == le_bytes(v),
{
    let mut out: Vec<u8> = Vec::new();
    let mut x: u64 = v;
    let mut k: u64 = 0;
    assert(v >> 0u64 == v) by (bit_vector);
    while k < 8
        invariant
            k <= 8,
            x == v >> ((8 * k) as u64),
            out@ == le_bytes(v).subrange(0, k as int),
        decreases 8 - k,
    {
        let b = (x & 0xff) as u8;
        proof {
            let s: u64 = (8 * k) as u64;
            let s2: u64 = (8 * (k + 1)) as u64;
            assert((v >> s) >> 8u64 == v >> s2) by (bit_vector)
                requires
                    k < 8,
                    s == 8 * k,
                    s2 == 8 * (k + 1),
            ;
        }
        out.push(b);
        assert(out@ =~= le_bytes(v).subrange(0, k + 1));
        x = x >> 8;
        k = k + 1;
    }
    assert(le_bytes(v).subrange(0, 8) =~= le_bytes(v));
    out
}

/// What a system call leaves to the caller.
#[derive(Debug)]
pub enum SyscallOutcome {
    /// Return this value to user mode.
    Return(usize),
    /// Read `len` bytes from the console into the (checked) user buffer at
    /// `buf`, then return `len`.
    ReadConsole { buf: usize, len: usize },
    /// Send the `len` bytes of the (checked) user buffer at `buf` to the
    /// console, then return `len`.
    WriteConsole { buf: usize, len: usize },
    /// Copy `data` to user memory at `dst`, then return `ret`.
    CopyOut { dst: usize, data: Vec<u8>, ret: usize },
    /// The running process exited or blocked: run another one.
    Reschedule,
}

/// `outcome` copies `bytes` to `dst` and then returns `ret`.
pub open spec fn copies_out(outcome: SyscallOutcome, dst: usize, bytes: Seq<u8>, ret: usize) -> bool {
    outcome matches SyscallOutcome::CopyOut { dst: d, data, ret: v } && d == dst && data@ == bytes && v
        == ret
}

/// What `read(fd, buf, len)` does.
pub open spec fn read_post(o: Kernel, f: Kernel, fd: usize, buf: usize, len: usize, r: SyscallOutcome) -> bool {
    if fd != 0 {
        r == SyscallOutcome::Return(spec_linux_error(EBADF)) && f == o
    } else {
        exists|c: Result<(), usize>|
            #[trigger] ensure_post(o, f, buf, len, true, c) && match c {
                Ok(_) => r == SyscallOutcome::ReadConsole { buf, len },
                Err(e) => r == SyscallOutcome::Return(e),
            }
    }
}

/// What `write(fd, buf, len)` does.
pub open spec fn write_post(o: Kernel, f: Kernel, fd: usize, buf: usize, len: usize, r: SyscallOutcome) -> bool {
    if fd != 1 && fd != 2 {
        r == SyscallOutcome::Return(spec_linux_error(EBADF)) && f == o
    } else {
        exists|c: Result<(), usize>|
            #[trigger] ensure_post(o, f, buf, len, false, c) && match c {
                Ok(_) => r == SyscallOutcome::WriteConsole { buf, len },
                Err(e) => r == SyscallOutcome::Return(e),
            }
    }
}

/// What `getcwd(buf, size)` does: the working directory is always `/`.
pub open spec fn getcwd_post(o: Kernel, f: Kernel, buf: usize, size: usize, r: SyscallOutcome) -> bool {
    if size < 2 {
        r == SyscallOutcome::Return(spec_linux_error(ERANGE)) && f == o
    } else {
        exists|c: Result<(), usize>|
            #[trigger] ensure_post(o, f, buf, 2, true, c) && match c {
                Ok(_) => copies_out(r, buf, seq![47u8, 0u8], 2),
                Err(e) => r == SyscallOutcome::Return(e),
            }
    }
}

/// What `uname(buf)` does.
pub open spec fn uname_post(o: Kernel, f: Kernel, buf: usize, r: SyscallOutcome) -> bool {
    exists|c: Result<(), usize>|
        #[trigger] ensure_post(o, f, buf, UTS_SIZE, true, c) && match c {
            Ok(_) => copies_out(r, buf, uts_image(uts_fields()), 0),
            Err(e) => r == SyscallOutcome::Return(e),
        }
}

/// What the `exec` placeholder does: the running process restarts at the
/// user code base with the initial stack, an empty heap and no mappings.
pub open spec fn exec_post(o: Kernel, f: Kernel) -> bool {
    let p = o.sched.cur();
    let np = f.sched.cur();
    &&& f.ram == o.ram
    &&& f.cur_became(o, np)
    &&& np.trap_frame.regs@ == p.trap_frame.regs@.update(REG_SP as int, EXEC_USER_SP)
    &&& np.trap_frame.sepc == EXEC_ENTRY
    &&& np.trap_frame.sstatus == p.trap_frame.sstatus
    &&& np.trap_frame.scause == p.trap_frame.scause
    &&& np.trap_frame.stval == p.trap_frame.stval
    &&& np.heap_end == p.heap_start
    &&& forall|i: int|
        0 <= i < MAX_MMAP_AREAS ==> #[trigger] np.mmap_areas@[i] == (MmapArea {
            start: 0,
            len: 0,
            prot: 0,
            flags: 0,
            used: false,
        })
    &&& np == (Process {
        trap_frame: np.trap_frame,
        heap_end: np.heap_end,
        mmap_areas: np.mmap_areas,
        ..p
    })
}

/// Entry point of the user program.
pub const EXEC_ENTRY: usize = 0x1_0000;

/// Initial user stack pointer (the top of the user stack page).
pub const EXEC_USER_SP: usize = 0x3F00_1000;

/// What `wait` leaves to the caller, as a system-call outcome: the exit
/// code goes to the pointer when it is not null, and the pid is returned.
pub open spec fn wait_outcome(w: WaitResult, ptr: usize, r: SyscallOutcome) -> bool {
    match w {
        WaitResult::Reaped { pid, code } => if ptr != 0 {
            copies_out(r, ptr, le_bytes(code as u64), pid)
        } else {
            r == SyscallOutcome::Return(pid)
        },
        WaitResult::Blocked => r == SyscallOutcome::Reschedule,
        WaitResult::NoChild => r == SyscallOutcome::Return(spec_linux_error(ECHILD)),
    }
}

/// What each system call needs of the kernel state.
pub open spec fn dispatch_ready(k: Kernel, no: usize, a: Seq<usize>) -> bool {
    if no == SYS_GETCWD {
        a[1] >= 2 ==> range_resolvable(k, a[0], 2)
    } else if no == SYS_READ {
        a[0] == 0 ==> range_resolvable(k, a[1], a[2])
    } else if no == SYS_UNAME {
        range_resolvable(k, a[0], UTS_SIZE)
    } else if no == SYS_EXIT || no == SYS_EXIT_GROUP || no == SYS_BRK || no == SYS_MUNMAP {
        k.user_counted()
    } else if no == SYS_FORK {
        has_reusable_slot(k.sched.procs@) ==> fork_ready(k)
    } else if no == SYS_MMAP {
        a[0] <= usize::MAX - 4095
    } else if no == SYS_WAIT {
        reap_ready(k, a[0])
    } else {
        true
    }
}

/// What each system call does.
pub open spec fn dispatch_post(o: Kernel, f: Kernel, no: usize, a: Seq<usize>, r: SyscallOutcome) -> bool {
    if no == SYS_GETCWD {
        getcwd_post(o, f, a[0], a[1], r)
    } else if no == SYS_READ {
        read_post(o, f, a[0], a[1], a[2], r)
    } else if no == SYS_WRITE {
        write_post(o, f, a[0], a[1], a[2], r)
    } else if no == SYS_EXIT || no == SYS_EXIT_GROUP {
        r == SyscallOutcome::Reschedule && exit_post(o, f, a[0])
    } else if no == SYS_UNAME {
        uname_post(o, f, a[0], r)
    } else if no == SYS_MUNMAP {
        r matches SyscallOutcome::Return(v) && munmap_post(o, f, a[0], a[1], v)
    } else if no == SYS_GETPID || no == SYS_GETTID {
        r == SyscallOutcome::Return(o.sched.cur().pid) && f == o
    } else if no == SYS_GETPPID {
        r == SyscallOutcome::Return(o.sched.cur().parent_pid) && f == o
    } else if no == SYS_GETUID || no == SYS_GETEUID || no == SYS_GETGID || no == SYS_GETEGID {
        r == SyscallOutcome::Return(0) && f == o
    } else if no == SYS_BRK {
        r matches SyscallOutcome::Return(v) && brk_post(o, f, a[0], v)
    } else if no == SYS_FORK {
        r matches SyscallOutcome::Return(v) && fork_post(o, f, v)
    } else if no == SYS_EXEC {
        r == SyscallOutcome::Return(0) && exec_post(o, f)
    } else if no == SYS_MMAP {
        r matches SyscallOutcome::Return(v) && mmap_post(o, f, a[0], a[1], a[2], a[3], a[5], v)
    } else if no == SYS_WAIT {
        exists|w: WaitResult| #[trigger] wait_post(o, f, a[0], w) && wait_outcome(w, a[0], r)
    } else {
        r == SyscallOutcome::Return(spec_linux_error(ENOSYS)) && f == o
    }
}

impl Kernel {
    /// `read`: only the console (fd 0) can be read; the buffer must be
    /// writable user memory.
    pub fn sys_read(&mut self, fd: usize, buf: usize, len: usize) -> (r: SyscallOutcome)
        requires
            old(self).wf(),
            fd == 0 ==> range_resolvable(*old(self), buf, len),
        ensures
            final(self).wf(),
            old(self).user_counted() ==> final(self).user_counted(),
            read_post(*old(self), *final(self), fd, buf, len, r),
    {
        if fd != 0 {
            return SyscallOutcome::Return(linux_error(EBADF));
        }
        match self.ensure_user_range(buf, len, true) {
            Ok(()) => SyscallOutcome::ReadConsole { buf, len },
            Err(e) => SyscallOutcome::Return(e),
        }
    }

    /// `write`: only the console (fd 1 or 2) can be written; the buffer
    /// must be readable user memory.
    pub fn sys_write(&mut self, fd: usize, buf: usize, len: usize) -> (r: SyscallOutcome)
        requires
            old(self).wf(),
        ensures
            final(self).wf(),
            old(self).user_counted() ==> final(self).user_counted(),
            write_post(*old(self), *final(self), fd, buf, len, r),
    {
        if fd != 1 && fd != 2 {
            return SyscallOutcome::Return(linux_error(EBADF));
        }
        match self.ensure_user_range(buf, len, false) {
            Ok(()) => SyscallOutcome::WriteConsole { buf, len },
            Err(e) => SyscallOutcome::Return(e),
        }
    }

    /// `getcwd`: the working directory is always the root, `/`.
    pub fn sys_getcwd(&mut self, buf: usize, size: usize) -> (r: SyscallOutcome)
        requires
            old(self).wf(),
            size >= 2 ==> range_resolvable(*old(self), buf, 2),
        ensures
            final(self).wf(),
            old(self).user_counted() ==> final(self).user_counted(),
            getcwd_post(*old(self), *final(self), buf, size, r),
    {
        if size < 2 {
            return SyscallOutcome::Return(linux_error(ERANGE));
        }
        match self.ensure_user_range(buf, 2, true) {
            Ok(()) => {
                let data = vec![47u8, 0u8];
                assert(data@ =~= seq![47u8, 0u8]);
                SyscallOutcome::CopyOut { dst: buf, data, ret: 2 }
            },
            Err(e) => SyscallOutcome::Return(e),
        }
    }

    /// `uname`: fills a `struct utsname` with this kernel's names.
    pub fn sys_uname(&mut self, buf: usize) -> (r: SyscallOutcome)
        requires
            old(self).wf(),
            range_resolvable(*old(self), buf, UTS_SIZE),
        ensures
            final(self).wf(),
            old(self).user_counted() ==> final(self).user_counted(),
            uname_post(*old(self), *final(self), buf, r),
    {
        match self.ensure_user_range(buf, UTS_SIZE, true) {
            Ok(()) => SyscallOutcome::CopyOut { dst: buf, data: uname_image(), ret: 0 },
            Err(e) => SyscallOutcome::Return(e),
        }
    }

    /// The `exec` placeholder until programs can be loaded: the running
    /// process restarts its program with a fresh stack pointer, an empty
    /// heap and no mappings.
    pub fn sys_exec(&mut self) -> (r: usize)
        requires
            old(self).wf(),
        ensures
            final(self).wf(),
            old(self).user_counted() ==> final(self).user_counted(),
            r == 0,
            exec_post(*old(self), *final(self)),
    {
        let mut p = *self.sched.current();
        p.trap_frame.sepc = EXEC_ENTRY;
        p.trap_frame.set_sp(EXEC_USER_SP);
        p.heap_end = p.heap_start;
        let ghost p0 = p;
        let mut i: usize = 0;
        while i < MAX_MMAP_AREAS
            invariant
                i <= MAX_MMAP_AREAS,
                p == (Process { mmap_areas: p.mmap_areas, ..p0 }),
                forall|j: int| 0 <= j < i ==> !(#[trigger] p.mmap_areas@[j]).used,
                forall|j: int|
                    0 <= j < i ==> #[trigger] p.mmap_areas@[j] == (MmapArea {
                        start: 0,
                        len: 0,
                        prot: 0,
                        flags: 0,
                        used: false,
                    }),
            decreases MAX_MMAP_AREAS - i,
        {
            p.mmap_areas[i] = MmapArea::empty();
            i = i + 1;
        }
        proof {
            assert(areas_wf(p.mmap_areas@)) by {
                assert forall|j: int| 0 <= j < MAX_MMAP_AREAS implies #[trigger] p.mmap_areas@[j]
                    == (MmapArea { start: 0, len: 0, prot: 0, flags: 0, used: false }) by {}
            }
        }
        self.sched.set_current(p);
        proof {
            old(self).lemma_user_counted();
            self.lemma_user_counted();
        }
        0
    }

    /// Runs system call `syscall_no` with arguments `args` for the running
    /// process.
    pub fn dispatch(&mut self, syscall_no: usize, args: [usize; 6]) -> (r: SyscallOutcome)
        requires
            old(self).wf(),
            dispatch_ready(*old(self), syscall_no, args@),
        ensures
            final(self).wf(),
            syscall_no != SYS_FORK && syscall_no != SYS_EXIT && syscall_no != SYS_EXIT_GROUP
                && syscall_no != SYS_WAIT && old(self).user_counted() ==> final(self).user_counted(),
            dispatch_post(*old(self), *final(self), syscall_no, args@, r),
    {
        let a0 = args[0];
        let a1 = args[1];
        let a2 = args[2];
        let a3 = args[3];
        let a4 = args[4];
        let a5 = args[5];
        if syscall_no == SYS_GETCWD {
            self.sys_getcwd(a0, a1)
        } else if syscall_no == SYS_READ {
            self.sys_read(a0, a1, a2)
        } else if syscall_no == SYS_WRITE {
            self.sys_write(a0, a1, a2)
        } else if syscall_no == SYS_EXIT || syscall_no == SYS_EXIT_GROUP {
            self.sys_exit(a0);
            SyscallOutcome::Reschedule
        } else if syscall_no == SYS_UNAME {
            self.sys_uname(a0)
        } else if syscall_no == SYS_MUNMAP {
            SyscallOutcome::Return(self.sys_munmap(a0, a1))
        } else if syscall_no == SYS_GETPID || syscall_no == SYS_GETTID {
            SyscallOutcome::Return(self.sched.current().pid)
        } else if syscall_no == SYS_GETPPID {
            SyscallOutcome::Return(self.sched.current().parent_pid)
        } else if syscall_no == SYS_GETUID || syscall_no == SYS_GETEUID || syscall_no == SYS_GETGID
            || syscall_no == SYS_GETEGID {
            SyscallOutcome::Return(0)
        } else if syscall_no == SYS_BRK {
            SyscallOutcome::Return(self.sys_brk(a0))
        } else if syscall_no == SYS_FORK {
            SyscallOutcome::Return(self.sys_fork())
        } else if syscall_no == SYS_EXEC {
            SyscallOutcome::Return(self.sys_exec())
        } else if syscall_no == SYS_MMAP {
            SyscallOutcome::Return(self.sys_mmap(a0, a1, a2, a3, a4, a5))
        } else if syscall_no == SYS_WAIT {
            let w = self.sys_wait(a0);
            let r = match w {
                WaitResult::Reaped { pid, code } => if a0 != 0 {
                    SyscallOutcome::CopyOut { dst: a0, data: word_bytes(code as u64), ret: pid }
                } else {
                    SyscallOutcome::Return(pid)
                },
                WaitResult::Blocked => SyscallOutcome::Reschedule,
                WaitResult::NoChild => SyscallOutcome::Return(linux_error(ECHILD)),
            };
            assert(wait_outcome(w, a0, r));
            r
        } else {
            SyscallOutcome::Return(linux_error(ENOSYS))
        }
    }
}

} // verus!
