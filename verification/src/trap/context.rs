//! The register state that is saved when a task traps into the kernel.

use vstd::prelude::*;
use crate::mm::address::PhysPageNum;
use crate::mm::frame_allocator::FrameArena;

verus! {

/// Word index of the saved status register.
pub const CTX_SSTATUS: usize = 32;

/// Word index of the saved program counter.
pub const CTX_SEPC: usize = 33;

/// Word index of the token of the kernel address space.
pub const CTX_KERNEL_SATP: usize = 34;

/// Word index of the top of the task's kernel stack.
pub const CTX_KERNEL_SP: usize = 35;

/// Word index of the address of the trap handler.
pub const CTX_TRAP_HANDLER: usize = 36;

/// The bit of the status register that records the privilege level a trap
/// came from; clear means user mode.
pub const SSTATUS_SPP: u64 = 0x100;

/// The state of a task saved at a trap: the 32 general registers, the status
/// register, the program counter to resume at, and what the trap entry code
/// needs to get into the kernel. In memory it is 37 consecutive words in this
/// order, at the start of the task's trap-context page.
#[derive(Clone, Copy, Debug)]
pub struct TrapContext {
    pub x: [u64; 32],
    pub sstatus: u64,
    pub sepc: u64,
    pub kernel_satp: u64,
    pub kernel_sp: u64,
    pub trap_handler: u64,
}

impl TrapContext {
    /// The `i`-th word of the context as it lies in memory.
    pub open spec fn spec_word(&self, i: int) -> u64 {
        if 0 <= i < 32 {
            self.x@[i]
        } else if i == 32 {
            self.sstatus
        } else if i == 33 {
            self.sepc
        } else if i == 34 {
            self.kernel_satp
        } else if i == 35 {
            self.kernel_sp
        } else {
            self.trap_handler
        }
    }

    /// Whether the first 37 words of frame `ppn` of arena `a` hold this context.
    pub open spec fn stored_at(&self, a: FrameArena, ppn: int) -> bool {
        forall|i: int| 0 <= i < 37 ==> #[trigger] a.word(ppn, i) == self.spec_word(i)
    }

    /// The `i`-th word of the context as it lies in memory.
    pub fn word(&self, i: usize) -> (r: u64)
        requires
            i < 37,
        ensures
            r == self.spec_word(i as int),
    {
        if i < 32 {
            self.x[i]
        } else if i == 32 {
            self.sstatus
        } else if i == 33 {
            self.sepc
        } else if i == 34 {
            self.kernel_satp
        } else if i == 35 {
            self.kernel_sp
        } else {
            self.trap_handler
        }
    }

    /// Reads the context that the first 37 words of frame `ppn` hold.
    pub fn load(arena: &FrameArena, ppn: PhysPageNum) -> (r: Self)
        requires
            arena.wf(),
            arena.contains(ppn.0 as int),
        ensures
            r.stored_at(*arena, ppn.0 as int),
    {
        let mut x = [0u64; 32];
        let mut i: usize = 0;
        while i < 32
            invariant
                i <= 32,
                arena.wf(),
                arena.contains(ppn.0 as int),
                forall|j: int| 0 <= j < i ==> #[trigger] x@[j] == arena.word(ppn.0 as int, j),
            decreases 32 - i,
        {
            x[i] = arena.read_word(ppn, i);
            i = i + 1;
        }
        TrapContext {
            x,
            sstatus: arena.read_word(ppn, CTX_SSTATUS),
            sepc: arena.read_word(ppn, CTX_SEPC),
            kernel_satp: arena.read_word(ppn, CTX_KERNEL_SATP),
            kernel_sp: arena.read_word(ppn, CTX_KERNEL_SP),
            trap_handler: arena.read_word(ppn, CTX_TRAP_HANDLER),
        }
    }

    /// Writes the context to the first 37 words of frame `ppn`.
    pub fn store(&self, arena: &mut FrameArena, ppn: PhysPageNum)
        requires
            old(arena).wf(),
            old(arena).contains(ppn.0 as int),
        ensures
            final(arena).wf(),
            final(arena).allocation() == old(arena).allocation(),
            self.stored_at(*final(arena), ppn.0 as int),
            forall|j: int|
                37 <= j < 512 ==> #[trigger] final(arena).word(ppn.0 as int, j) == old(arena).word(
                    ppn.0 as int,
                    j,
                ),
            forall|q: int| q != ppn.0 ==> #[trigger] final(arena).frame(q) == old(arena).frame(q),
    {
        let mut i: usize = 0;
        while i < 37
            invariant
                i <= 37,
                arena.wf(),
                arena.allocation() == old(arena).allocation(),
                arena.contains(ppn.0 as int),
                forall|j: int|
                    0 <= j < i ==> #[trigger] arena.word(ppn.0 as int, j) == self.spec_word(j),
                forall|j: int|
                    i <= j < 512 ==> #[trigger] arena.word(ppn.0 as int, j) == old(arena).word(
                        ppn.0 as int,
                        j,
                    ),
                forall|q: int| q != ppn.0 ==> #[trigger] arena.frame(q) == old(arena).frame(q),
            decreases 37 - i,
        {
            let w = self.word(i);
            arena.write_word(ppn, i, w);
            i = i + 1;
        }
    }

    /// Sets the stack pointer register.
    pub fn set_sp(&mut self, sp: u64)
        ensures
            final(self).x@ == old(self).x@.update(2, sp),
            final(self).sstatus == old(self).sstatus,
            final(self).sepc == old(self).sepc,
            final(self).kernel_satp == old(self).kernel_satp,
            final(self).kernel_sp == old(self).kernel_sp,
            final(self).trap_handler == old(self).trap_handler,
    {
        self.x[2] = sp;
    }

    /// The context a task starts with: all registers zero but the stack
    /// pointer, the status register `sstatus` with the previous privilege
    /// set to user mode, and execution resuming at `entry`.
    pub fn app_init_context(
        entry: u64,
        sp: u64,
        sstatus: u64,
        kernel_satp: u64,
        kernel_sp: u64,
        trap_handler: u64,
    ) -> (r: Self)
        ensures
            r.x@ == init_registers(sp),
            r.sstatus == sstatus & !SSTATUS_SPP,
            r.sepc == entry,
            r.kernel_satp == kernel_satp,
            r.kernel_sp == kernel_sp,
            r.trap_handler == trap_handler,
            forall|i: int|
                0 <= i < 37 ==> #[trigger] r.spec_word(i) == init_context_word(
                    entry,
                    sp,
                    sstatus,
                    kernel_satp,
                    kernel_sp,
                    trap_handler,
                    i,
                ),
    {
        let mut ctx = TrapContext {
            x: [0u64; 32],
            sstatus: sstatus & !SSTATUS_SPP,
            sepc: entry,
            kernel_satp,
            kernel_sp,
            trap_handler,
        };
        ctx.set_sp(sp);
        assert(ctx.x@ =~= init_registers(sp));
        ctx
    }
}

/// The `i`-th word of the context that a task starts with.
pub open spec fn init_context_word(
    entry: u64,
    sp: u64,
    sstatus: u64,
    kernel_satp: u64,
    kernel_sp: u64,
    trap_handler: u64,
    i: int,
) -> u64 {
    if i == 2 {
        sp
    } else if 0 <= i < 32 {
        0
    } else if i == 32 {
        sstatus & !SSTATUS_SPP
    } else if i == 33 {
        entry
    } else if i == 34 {
        kernel_satp
    } else if i == 35 {
        kernel_sp
    } else {
        trap_handler
    }
}

/// The registers a task starts with: all zero but the stack pointer,
/// register 2, which holds `sp`.
pub open spec fn init_registers(sp: u64) -> Seq<u64> {
    Seq::new(
        32,
        |i: int|
            if i == 2 {
                sp
            } else {
                0u64
            },
    )
}

} // verus!
