//! The user register snapshot that the trap entry saves on the kernel stack.
use vstd::prelude::*;

verus! {

/// Index of `sp` in `regs`.
pub const REG_SP: usize = 2;

/// Index of `a0` in `regs`.
pub const REG_A0: usize = 10;

/// `sstatus.SPIE`.
pub const SSTATUS_SPIE: usize = 32;

/// Full user register snapshot saved by the trap entry: `regs[0..32]`
/// (`regs[0]` kept zero, `regs[2]` the user sp), then `sstatus`, `sepc`,
/// `scause`, `stval`.
#[derive(Clone, Copy, Debug)]
pub struct TrapFrame {
    pub regs: [usize; 32],
    pub sstatus: usize,
    pub sepc: usize,
    pub scause: usize,
    pub stval: usize,
}

/// Registers of a fresh user context: all zero but `sp`.
pub open spec fn initial_regs(user_sp: usize) -> Seq<usize> {
    Seq::new(32, |i: int| if i == REG_SP { user_sp } else { 0usize })
}

impl TrapFrame {
    /// Size of the stack image in bytes.
    pub const SIZE: usize = 288;

    /// The frame that enters user mode at `entry` with stack pointer
    /// `user_sp`: SPP = 0 returns to U-mode, SPIE = 1 enables interrupts
    /// after `sret`, `scause` reads as a system call.
    pub fn new_user(entry: usize, user_sp: usize) -> (r: Self)
        ensures
            r.regs@ == initial_regs(user_sp),
            r.sstatus == SSTATUS_SPIE,
            r.sepc == entry,
            r.scause == 8,
            r.stval == 0,
    {
        let mut regs = [0usize; 32];
        regs[REG_SP] = user_sp;
        assert(regs@ =~= initial_regs(user_sp));
        TrapFrame { regs, sstatus: SSTATUS_SPIE, sepc: entry, scause: 8, stval: 0 }
    }

    /// Sets the saved `a0` (the value a system call returns).
    pub fn set_a0(&mut self, value: usize)
        ensures
            final(self).regs@ == old(self).regs@.update(REG_A0 as int, value),
            final(self).sstatus == old(self).sstatus,
            final(self).sepc == old(self).sepc,
            final(self).scause == old(self).scause,
            final(self).stval == old(self).stval,
    {
        self.regs[REG_A0] = value;
    }

    /// Completes a system call: `a0` gets its result and `sepc` moves past
    /// the `ecall` instruction.
    pub fn finish_syscall(&mut self, value: usize)
        requires
            old(self).sepc <= usize::MAX - 4,
        ensures
            final(self).regs@ == old(self).regs@.update(REG_A0 as int, value),
            final(self).sstatus == old(self).sstatus,
            final(self).sepc == old(self).sepc + 4,
            final(self).scause == old(self).scause,
            final(self).stval == old(self).stval,
    {
        self.set_a0(value);
        self.sepc = self.sepc + 4;
    }

    /// Sets the saved user stack pointer.
    pub fn set_sp(&mut self, value: usize)
        ensures
            final(self).regs@ == old(self).regs@.update(REG_SP as int, value),
            final(self).sstatus == old(self).sstatus,
            final(self).sepc == old(self).sepc,
            final(self).scause == old(self).scause,
            final(self).stval == old(self).stval,
    {
        self.regs[REG_SP] = value;
    }
}

} // verus!
