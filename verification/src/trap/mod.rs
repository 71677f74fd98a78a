//! Traps: the saved user state and the dispatcher.

pub mod context;

use vstd::prelude::*;
use riscv::interrupt::supervisor::{Exception, Interrupt};
use riscv::interrupt::Trap;
use riscv::register::scause::Scause;
use riscv::register::stvec::{Stvec, TrapMode};
use crate::config::{PAGE_SIZE, TRAMPOLINE, TRAP_CONTEXT};
use crate::mm::frame_allocator::FrameArena;
use crate::syscall::{
    call_done, syscall, syscall_done, KernelPanic, SyscallOutcome, SYSCALL_MMAP, SYSCALL_MUNMAP,
};
use crate::task::{
    current_user_satp, exit_current_and_run_next, has_other_ready, lemma_data_write_keeps_wf,
    lemma_free_write_keeps_wf,
    counted, lemma_same_memory_keeps_wf, none_ready, statuses_of, suspend_current_and_run_next, switched,
    with_status, ContextSwitch, TaskManager, TaskStatus,
};
use crate::trap::context::CTX_SEPC;

verus! {

/// What the cause register says before its code is looked up: whether the
/// trap is an interrupt, and its code.
#[derive(Clone, Copy, Debug, PartialEq, Eq, Structural)]
pub enum RawCause {
    Interrupt(u64),
    Exception(u64),
}

/// The causes of a trap that the kernel tells apart.
#[derive(Clone, Copy, Debug, PartialEq, Eq, Structural)]
pub enum TrapCause {
    /// A system call from user mode.
    UserEnvCall,
    StoreFault,
    StorePageFault,
    LoadPageFault,
    IllegalInstruction,
    /// The timer of supervisor mode has fired.
    SupervisorTimer,
    /// Any other cause.
    Other,
}

/// What the kernel does after a trap has been handled.
#[derive(Clone, Copy, Debug, PartialEq, Eq, Structural)]
pub enum TrapOutcome {
    /// Return to the task that trapped.
    Resume,
    /// Switch tasks as `plan` says, after arming the timer for the next tick
    /// if `arm_timer` is set; the task that is resumed returns to user mode.
    Switch { plan: ContextSwitch, arm_timer: bool },
    /// Halt: the kernel cannot go on.
    Panic(KernelPanic),
}

/// What the trap entry code needs to return to user mode.
#[derive(Clone, Copy, Debug, PartialEq, Eq, Structural)]
pub struct UserReturn {
    /// The value for the trap vector register while in user mode.
    pub stvec: u64,
    /// The virtual address of the trap context, in the address space of the task.
    pub trap_ctx_ptr: u64,
    /// The token of the address space of the task.
    pub user_satp: u64,
    /// The virtual address of the code that restores the user registers.
    pub restore_va: u64,
}

/// The interrupt bit and the code of a value of the cause register of a
/// 64-bit machine: bit 63, and the bits below it.
pub open spec fn spec_raw_cause(scause: u64) -> RawCause {
    if scause >= 0x8000_0000_0000_0000 {
        RawCause::Interrupt((scause - 0x8000_0000_0000_0000) as u64)
    } else {
        RawCause::Exception(scause)
    }
}

/// The cause that the standard assigns to a code.
pub open spec fn spec_standard_cause(raw: RawCause) -> TrapCause {
    match raw {
        RawCause::Exception(code) => if code == 2 {
            TrapCause::IllegalInstruction
        } else if code == 7 {
            TrapCause::StoreFault
        } else if code == 8 {
            TrapCause::UserEnvCall
        } else if code == 13 {
            TrapCause::LoadPageFault
        } else if code == 15 {
            TrapCause::StorePageFault
        } else {
            TrapCause::Other
        },
        RawCause::Interrupt(code) => if code == 5 {
            TrapCause::SupervisorTimer
        } else {
            TrapCause::Other
        },
    }
}

/// Splits a value of the cause register into interrupt bit and code, with
/// `riscv::register::scause::Scause::cause`. The contract says what that
/// function does on a 64-bit machine: the trap is an interrupt if bit 63 is
/// set, and the code is the value of the bits below it.
#[verifier::external_body]
fn raw_cause(scause: u64) -> (r: RawCause)
    ensures
        r == spec_raw_cause(scause),
{
    match Scause::from_bits(scause as usize).cause() {
        Trap::Interrupt(code) => RawCause::Interrupt(code as u64),
        Trap::Exception(code) => RawCause::Exception(code as u64),
    }
}

/// Looks the code of a trap up among the standard causes of supervisor
/// mode, with `riscv::interrupt::Trap::try_into`. The contract names the
/// codes of the six causes that the kernel tells apart; every other code,
/// known to the standard or not, gives `Other`. It holds where `usize` has
/// 64 bits, so that no code is cut short.
#[verifier::external_body]
fn standard_cause(raw: RawCause) -> (r: TrapCause)
    ensures
        r == spec_standard_cause(raw),
{
    let trap = match raw {
        RawCause::Interrupt(code) => Trap::Interrupt(code as usize),
        RawCause::Exception(code) => Trap::Exception(code as usize),
    };
    match trap.try_into::<Interrupt, Exception>() {
        Ok(Trap::Exception(Exception::UserEnvCall)) => TrapCause::UserEnvCall,
        Ok(Trap::Exception(Exception::StoreFault)) => TrapCause::StoreFault,
        Ok(Trap::Exception(Exception::StorePageFault)) => TrapCause::StorePageFault,
        Ok(Trap::Exception(Exception::LoadPageFault)) => TrapCause::LoadPageFault,
        Ok(Trap::Exception(Exception::IllegalInstruction)) => TrapCause::IllegalInstruction,
        Ok(Trap::Interrupt(Interrupt::SupervisorTimer)) => TrapCause::SupervisorTimer,
        _ => TrapCause::Other,
    }
}

/// The value of the trap vector register that sends every trap to the code
/// at `address`, made with `riscv::register::stvec::Stvec::new` in direct
/// mode. The contract says that for an address that is a multiple of 4,
/// which that function asks for, the value is the address itself. It holds
/// where `usize` has 64 bits, so that no address is cut short.
#[verifier::external_body]
fn direct_vector(address: u64) -> (r: u64)
    requires
        address % 4 == 0,
    ensures
        r == address,
{
    Stvec::new(address as usize, TrapMode::Direct).bits() as u64
}

/// The cause of a trap, from the value of the cause register.
pub fn trap_cause(scause: u64) -> (r: TrapCause)
    ensures
        r == spec_standard_cause(spec_raw_cause(scause)),
{
    standard_cause(raw_cause(scause))
}

/// The value to put into the trap vector register at boot: while the
/// kernel runs, every trap goes to `trap_from_kernel`, the address of the
/// code that halts the kernel.
pub fn init(trap_from_kernel: u64) -> (r: u64)
    requires
        trap_from_kernel % 4 == 0,
    ensures
        r == trap_from_kernel,
{
    set_kernel_trap_entry(trap_from_kernel)
}

/// The value of the trap vector register while the kernel runs.
pub fn set_kernel_trap_entry(trap_from_kernel: u64) -> (r: u64)
    requires
        trap_from_kernel % 4 == 0,
    ensures
        r == trap_from_kernel,
{
    direct_vector(trap_from_kernel)
}

/// The value of the trap vector register while a task runs in user mode:
/// every trap goes to the trampoline.
pub fn set_user_trap_entry() -> (r: u64)
    ensures
        r == TRAMPOLINE,
{
    direct_vector(TRAMPOLINE)
}

/// What a trap taken while the kernel itself was running leads to: the
/// kernel halts.
pub fn trap_from_kernel() -> (r: KernelPanic)
    ensures
        r == KernelPanic::TrapFromKernel,
{
    KernelPanic::TrapFromKernel
}

/// The register value that a task sees for the result `ret` of a system
/// call: the same 64 bits, read as an unsigned number.
pub open spec fn as_register(ret: isize) -> u64 {
    if ret >= 0 {
        ret as u64
    } else {
        (ret + 0x1_0000_0000_0000_0000) as u64
    }
}

/// The register value that a task sees for the result `ret` of a system call.
pub fn to_register(ret: isize) -> (r: u64)
    ensures
        r == as_register(ret),
{
    if ret >= 0 {
        ret as u64
    } else {
        u64::MAX - ((-(ret + 1)) as u64)
    }
}

/// What overwriting word `i` of frame `p` with `v` does to the arena: `a`
/// before, `b` after.
pub open spec fn word_written(a: FrameArena, b: FrameArena, p: int, i: int, v: u64) -> bool {
    &&& b.wf()
    &&& b.allocation() == a.allocation()
    &&& b.word(p, i) == v
    &&& forall|j: int| 0 <= j < 512 && j != i ==> #[trigger] b.word(p, j) == a.word(p, j)
    &&& forall|q: int| q != p ==> #[trigger] b.frame(q) == a.frame(q)
}

/// What handling a system call trap does: tasks `tm0` over arena `m0`
/// before, `tm1` over `m1` after, with outcome `r`. The saved program
/// counter of the current task is moved past the call instruction, the call
/// whose number is in register 17 is carried out with the arguments in
/// registers 10 to 12, and its result is put into register 10. The trap
/// context is read and written in the frame in which it was put when the
/// task was made; a call from a task that no longer owns that frame halts
/// the kernel. After a panic the tasks are as the call left them.
pub open spec fn syscall_handled(
    tm0: TaskManager,
    m0: FrameArena,
    now_ms: u64,
    now_us: u64,
    tm1: TaskManager,
    m1: FrameArena,
    r: TrapOutcome,
) -> bool {
    let p = tm0.tasks()[tm0.current()].trap_ctx_ppn.0 as int;
    if !tm0.tasks()[tm0.current()].owns_trap_ctx() {
        r == TrapOutcome::Panic(KernelPanic::TrapContextUnmapped) && tm1 == tm0 && m1 == m0
    } else if m0.word(p, CTX_SEPC as int) > u64::MAX - 4 {
        r == TrapOutcome::Panic(KernelPanic::Overflow) && tm1 == tm0 && m1 == m0
    } else {
        exists|m_in: FrameArena, m_out: FrameArena, out: SyscallOutcome|
            {
                &&& word_written(m0, m_in, p, CTX_SEPC as int, (m0.word(p, CTX_SEPC as int) + 4) as u64)
                &&& #[trigger] syscall_done(
                    tm0,
                    m_in,
                    m0.word(p, 17),
                    m0.word(p, 10),
                    m0.word(p, 11),
                    m0.word(p, 12),
                    now_ms,
                    now_us,
                    tm1,
                    m_out,
                    out,
                )
                &&& match out {
                    SyscallOutcome::Return(ret) => word_written(m_out, m1, p, 10, as_register(ret))
                        && r == TrapOutcome::Resume,
                    SyscallOutcome::Yield { ret, plan } => word_written(
                        m_out,
                        m1,
                        p,
                        10,
                        as_register(ret),
                    ) && r == (TrapOutcome::Switch { plan, arm_timer: false }),
                    SyscallOutcome::Exit { plan } => m1 == m_out && r == (TrapOutcome::Switch {
                        plan,
                        arm_timer: false,
                    }),
                    SyscallOutcome::Panic(reason) => m1 == m_out && r == TrapOutcome::Panic(reason),
                }
            }
    }
}

/// What handling a trap with cause `cause` does: tasks `tm0` over arena
/// `m0` before, `tm1` over `m1` after, with outcome `r`. A task that ends
/// when no other is ready is marked as exited before the kernel halts.
pub open spec fn trap_handled(
    tm0: TaskManager,
    m0: FrameArena,
    cause: TrapCause,
    now_ms: u64,
    now_us: u64,
    tm1: TaskManager,
    m1: FrameArena,
    r: TrapOutcome,
) -> bool {
    match cause {
        TrapCause::UserEnvCall => syscall_handled(tm0, m0, now_ms, now_us, tm1, m1, r),
        TrapCause::SupervisorTimer => {
            &&& r matches TrapOutcome::Switch { plan, arm_timer }
            &&& arm_timer
            &&& switched(tm0, tm1, TaskStatus::Ready, now_ms, plan)
            &&& m1 == m0
        },
        TrapCause::Other => r == TrapOutcome::Panic(KernelPanic::UnsupportedTrap) && tm1 == tm0
            && m1 == m0,
        _ => if none_ready(
            statuses_of(with_status(tm0.tasks(), tm0.current(), TaskStatus::Exited)),
        ) {
            &&& r == TrapOutcome::Panic(KernelPanic::AllTasksCompleted)
            &&& tm1.current() == tm0.current()
            &&& tm1.tasks() == with_status(tm0.tasks(), tm0.current(), TaskStatus::Exited)
            &&& m1 == m0
        } else {
            &&& r matches TrapOutcome::Switch { plan, arm_timer }
            &&& !arm_timer
            &&& switched(tm0, tm1, TaskStatus::Exited, now_ms, plan)
            &&& m1 == m0
        },
    }
}

/// Handles a trap from user mode: a system call is carried out, a fault or
/// an illegal instruction ends the current task, the timer makes the
/// current task give up the processor, and any other cause halts the
/// kernel. `scause` is the value of the cause register and `stval` that of
/// the trap value register; `now_ms` and `now_us` are the time in
/// milliseconds and microseconds.
pub fn trap_handler(
    tm: &mut TaskManager,
    arena: &mut FrameArena,
    scause: u64,
    stval: u64,
    now_ms: u64,
    now_us: u64,
) -> (r: TrapOutcome)
    requires
        old(tm).mem_wf(*old(arena)),
    ensures
        trap_handled(
            *old(tm),
            *old(arena),
            spec_standard_cause(spec_raw_cause(scause)),
            now_ms,
            now_us,
            *final(tm),
            *final(arena),
            r,
        ),
        !(r is Panic) ==> final(tm).mem_wf(*final(arena)),
{
    let cause = trap_cause(scause);
    handle_trap(tm, arena, cause, now_ms, now_us)
}

/// Handles a trap from user mode whose cause is `cause`.
pub fn handle_trap(
    tm: &mut TaskManager,
    arena: &mut FrameArena,
    cause: TrapCause,
    now_ms: u64,
    now_us: u64,
) -> (r: TrapOutcome)
    requires
        old(tm).mem_wf(*old(arena)),
    ensures
        trap_handled(*old(tm), *old(arena), cause, now_ms, now_us, *final(tm), *final(arena), r),
        !(r is Panic) ==> final(tm).mem_wf(*final(arena)),
{
    let ghost tm0 = *tm;
    let ghost m0 = *arena;
    match cause {
        TrapCause::UserEnvCall => handle_syscall(tm, arena, now_ms, now_us),
        TrapCause::StoreFault
        | TrapCause::StorePageFault
        | TrapCause::LoadPageFault
        | TrapCause::IllegalInstruction => {
            if !has_other_ready(tm) {
                tm.mark_current(TaskStatus::Exited);
                return TrapOutcome::Panic(KernelPanic::AllTasksCompleted);
            }
            let plan = exit_current_and_run_next(tm, now_ms);
            proof {
                lemma_same_memory_keeps_wf(tm0, *tm, m0);
            }
            TrapOutcome::Switch { plan, arm_timer: false }
        },
        TrapCause::SupervisorTimer => {
            let plan = suspend_current_and_run_next(tm, now_ms);
            proof {
                lemma_same_memory_keeps_wf(tm0, *tm, m0);
            }
            TrapOutcome::Switch { plan, arm_timer: true }
        },
        TrapCause::Other => TrapOutcome::Panic(KernelPanic::UnsupportedTrap),
    }
}

/// Handles a system call trap of the current task.
fn handle_syscall(tm: &mut TaskManager, arena: &mut FrameArena, now_ms: u64, now_us: u64) -> (r:
    TrapOutcome)
    requires
        old(tm).mem_wf(*old(arena)),
    ensures
        syscall_handled(*old(tm), *old(arena), now_ms, now_us, *final(tm), *final(arena), r),
        !(r is Panic) ==> final(tm).mem_wf(*final(arena)),
{
    let ghost tm0 = *tm;
    let ghost m0 = *arena;
    let current = tm.current_task();
    let ppn = tm.task(current).trap_ctx_ppn;
    let ghost p = ppn.0 as int;
    proof {
        assert(tm0.tasks()[current as int].wf(m0));
    }
    if !tm.task(current).has_trap_ctx() {
        return TrapOutcome::Panic(KernelPanic::TrapContextUnmapped);
    }
    let sepc = arena.read_word(ppn, CTX_SEPC);
    if sepc > u64::MAX - 4 {
        return TrapOutcome::Panic(KernelPanic::Overflow);
    }
    let id = arena.read_word(ppn, 17);
    let args = [arena.read_word(ppn, 10), arena.read_word(ppn, 11), arena.read_word(ppn, 12)];
    arena.write_word(ppn, CTX_SEPC, sepc + 4);
    let ghost m_in = *arena;
    proof {
        lemma_data_write_keeps_wf(tm0, m0, m_in, current as int, p);
    }
    let out = syscall(tm, arena, id, args, now_ms, now_us);
    let ghost m_out = *arena;
    let ghost tm1 = *tm;
    let r = match out {
        SyscallOutcome::Return(ret) => {
            proof {
                lemma_trap_ctx_kept(
                    tm0,
                    m_in,
                    id,
                    args@[0],
                    args@[1],
                    args@[2],
                    now_ms,
                    now_us,
                    tm1,
                    m_out,
                    out,
                );
                assert(tm1.tasks()[current as int].wf(m_out));
            }
            arena.write_word(ppn, 10, to_register(ret));
            proof {
                if tm1.tasks()[current as int].owns_trap_ctx() {
                    lemma_data_write_keeps_wf(tm1, m_out, *arena, current as int, p);
                } else {
                    lemma_free_write_keeps_wf(tm1, m_out, *arena, p);
                }
            }
            TrapOutcome::Resume
        },
        SyscallOutcome::Yield { ret, plan } => {
            proof {
                lemma_trap_ctx_kept(
                    tm0,
                    m_in,
                    id,
                    args@[0],
                    args@[1],
                    args@[2],
                    now_ms,
                    now_us,
                    tm1,
                    m_out,
                    out,
                );
                assert(tm1.tasks()[current as int].wf(m_out));
            }
            arena.write_word(ppn, 10, to_register(ret));
            proof {
                if tm1.tasks()[current as int].owns_trap_ctx() {
                    lemma_data_write_keeps_wf(tm1, m_out, *arena, current as int, p);
                } else {
                    lemma_free_write_keeps_wf(tm1, m_out, *arena, p);
                }
            }
            TrapOutcome::Switch { plan, arm_timer: false }
        },
        SyscallOutcome::Exit { plan } => TrapOutcome::Switch { plan, arm_timer: false },
        SyscallOutcome::Panic(reason) => TrapOutcome::Panic(reason),
    };
    proof {
        assert(word_written(m0, m_in, p, CTX_SEPC as int, (sepc + 4) as u64));
        assert(syscall_done(
            tm0,
            m_in,
            m0.word(p, 17),
            m0.word(p, 10),
            m0.word(p, 11),
            m0.word(p, 12),
            now_ms,
            now_us,
            tm1,
            m_out,
            out,
        ));
    }
    r
}

/// A system call that does not halt the kernel leaves every task the frame
/// in which its trap context was put; and if the calling task owned that
/// frame before, it owns it afterwards, or else the frame has gone back to
/// the arena.
proof fn lemma_trap_ctx_kept(
    tm0: TaskManager,
    m0: FrameArena,
    id: u64,
    a0: u64,
    a1: u64,
    a2: u64,
    now_ms: u64,
    now_us: u64,
    tm1: TaskManager,
    m1: FrameArena,
    out: SyscallOutcome,
)
    requires
        tm0.mem_wf(m0),
        tm0.tasks()[tm0.current()].owns_trap_ctx(),
        syscall_done(tm0, m0, id, a0, a1, a2, now_ms, now_us, tm1, m1, out),
        !(out is Panic),
    ensures
        tm1.tasks().len() == tm0.tasks().len(),
        forall|i: int|
            0 <= i < tm0.tasks().len() ==> (#[trigger] tm1.tasks()[i]).trap_ctx_ppn
                == tm0.tasks()[i].trap_ctx_ppn,
        tm1.tasks()[tm0.current()].owns_trap_ctx() || !m1.allocated().contains(
            tm0.tasks()[tm0.current()].trap_ctx_ppn.0 as int,
        ),
{
    let cur = tm0.current();
    let p = tm0.tasks()[cur].trap_ctx_ppn.0 as int;
    let tc = choose|tc: TaskManager| #[trigger]
        counted(tm0, tc, id as int) && call_done(tc, m0, id, a0, a1, a2, now_ms, now_us, tm1, m1, out);
    assert(tc.tasks().len() == tm0.tasks().len());
    assert forall|i: int| 0 <= i < tm0.tasks().len() implies (#[trigger] tc.tasks()[i]).trap_ctx_ppn
        == tm0.tasks()[i].trap_ctx_ppn by {}
    assert forall|i: int| 0 <= i < tm0.tasks().len() implies (#[trigger] tm1.tasks()[i]).trap_ctx_ppn
        == tc.tasks()[i].trap_ctx_ppn by {}
    let ms0 = tc.tasks()[cur].memory_set;
    let ms1 = tm1.tasks()[cur].memory_set;
    assert(ms0 == tm0.tasks()[cur].memory_set);
    assert(tm0.tasks()[cur].wf(m0));
    ms0.lemma_data_frame_not_table(m0, p);
    assert(ms0.owned().contains(p));
    ms0.lemma_owned_allocated(m0, p);
    if id == SYSCALL_MUNMAP && a0 % PAGE_SIZE == 0 {
        if !ms1.data_frames().contains(p) {
            assert(!ms1.owned().contains(p));
            assert(ms0.owned().difference(ms1.owned()).contains(p));
        }
    } else if id == SYSCALL_MMAP {
        assert(ms0.data_frames().subset_of(ms1.data_frames()));
    } else {
        assert(ms1 == ms0);
    }
}

/// What is needed to return to user mode into the current task. `alltraps`
/// and `restore` are the addresses at which the trap entry code and its
/// part that restores the user registers are linked; both lie in one page,
/// which every address space maps at the trampoline.
pub fn trap_return(tm: &TaskManager, alltraps: u64, restore: u64) -> (r: UserReturn)
    requires
        tm.wf(),
        alltraps <= restore,
        restore - alltraps < PAGE_SIZE,
    ensures
        r.stvec == TRAMPOLINE,
        r.trap_ctx_ptr == TRAP_CONTEXT,
        r.user_satp == tm.tasks()[tm.current()].memory_set.table().spec_satp(),
        r.restore_va == restore - alltraps + TRAMPOLINE,
{
    let stvec = set_user_trap_entry();
    let trap_ctx_ptr = TRAP_CONTEXT;
    let user_satp = current_user_satp(tm);
    let restore_va = restore - alltraps + TRAMPOLINE;
    UserReturn { stvec, trap_ctx_ptr, user_satp, restore_va }
}

} // verus!
