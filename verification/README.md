# Unit00 kernel logic, verified

A small RISC-V Sv39 teaching kernel whose decisions are written and proved
in Verus: the frame allocator with reference counts, three-level page tables,
the process table and its round-robin scheduler, copy-on-write faults, and the
system calls (`read`, `write`, `getcwd`, `uname`, `brk`, `mmap`, `munmap`,
`fork`, `exec`, `wait`, `exit`, the identity calls).

The library models RAM as frames with reference counts and, for each frame
the kernel has zero-filled (page tables and fresh user pages), its content as
512 words. What user code and the console later write into user pages, the
kernel stacks, the UART, SBI and the control registers are left to the
caller, which performs what each call hands back (a `SyscallOutcome`, a
`CowResult` whose pages it copies, a `Switch`) and counts timer ticks with
`timer_tick`.

Layout:

- `src/mm/` — frames (`frame.rs`), page tables (`page_table.rs`), and the
  boot sequence (`boot.rs`).
- `src/task/` — processes, trap frames, the scheduler.
- `src/syscall/` — the system calls: mmap areas (`areas.rs`), heap and
  mappings (`kernel.rs`, `user_mem.rs`), user buffers (`uaccess.rs`),
  `fork.rs`, `wait.rs`, and the dispatcher (`dispatch.rs`).
- `src/trap.rs` — trap causes, page faults and copy-on-write resolution.
- `src/console.rs` — console output and input as byte queues.
- `app/` — a hosted driver that reads system calls from standard input.
- `tests/` — tests on concrete states.
