//! System calls: their numbers and the table that dispatches them.

pub mod memory;
pub mod process;

use vstd::prelude::*;
use crate::config::PAGE_SIZE;
use crate::mm::address::{VirtAddr, VirtPageNum, VPN_SPACE};
use crate::mm::frame_allocator::{FrameArena, OutOfFrames};
use crate::mm::memory_set::{frames_missing, MapType, VpnRange};
use crate::syscall::memory::{mmap_args_ok, mmap_done, munmap_done, sys_mmap, sys_munmap};
use crate::syscall::process::{
    check_user_buffer, info_written, sys_exit, sys_get_time, sys_task_info, sys_yield,
    time_written, user_buffer_ok, TASK_INFO_SIZE, TIME_VAL_SIZE,
};
use crate::task::{
    byte_range, counted, has_other_ready, incr_syscall_times, none_ready, overlaps_any, range_clear,
    range_overlaps, start_time, statuses_of, switched, with_status, ContextSwitch, TaskManager,
    TaskStatus,
};

verus! {

/// Number of the system call that ends the task.
pub const SYSCALL_EXIT: u64 = 93;

/// Number of the system call that gives up the processor.
pub const SYSCALL_YIELD: u64 = 124;

/// Number of the system call that asks for the time.
pub const SYSCALL_GET_TIME: u64 = 169;

/// Number of the system call that unmaps memory.
pub const SYSCALL_MUNMAP: u64 = 215;

/// Number of the system call that maps memory.
pub const SYSCALL_MMAP: u64 = 222;

/// Number of the system call that asks for the task's statistics.
pub const SYSCALL_TASK_INFO: u64 = 410;

/// Why the kernel cannot go on.
#[derive(Clone, Copy, Debug, PartialEq, Eq, Structural)]
pub enum KernelPanic {
    /// A trap of a kind the kernel does not handle.
    UnsupportedTrap,
    /// A trap taken while the kernel itself was running.
    TrapFromKernel,
    /// A system call number that is not in the table.
    UnsupportedSyscall,
    /// No task is ready any more: all applications have completed.
    AllTasksCompleted,
    /// A user address that the kernel cannot write through.
    BadUserPointer,
    /// The arena ran out of frames.
    OutOfFrames,
    /// A page that was to be mapped is mapped already.
    PageAlreadyMapped,
    /// A system call came from a task that has unmapped the page of its
    /// trap context, so that the frame of the trap context is no longer its
    /// own. A machine cannot deliver such a trap to the handler.
    TrapContextUnmapped,
    /// A number left the range of its type.
    Overflow,
}

/// How a system call ended.
#[derive(Clone, Copy, Debug, PartialEq, Eq, Structural)]
pub enum SyscallOutcome {
    /// The call is done, and the task goes on with this result.
    Return(isize),
    /// The task gave up the processor; `ret` is the result it sees when it
    /// runs again.
    Yield { ret: isize, plan: ContextSwitch },
    /// The task has ended.
    Exit { plan: ContextSwitch },
    /// The kernel cannot go on.
    Panic(KernelPanic),
}

/// Whether `id` is the number of a system call in the table.
pub open spec fn supported(id: u64) -> bool {
    id == SYSCALL_EXIT || id == SYSCALL_YIELD || id == SYSCALL_GET_TIME || id == SYSCALL_MUNMAP
        || id == SYSCALL_MMAP || id == SYSCALL_TASK_INFO
}

/// What the call with number `id` and arguments `a0`, `a1`, `a2` does once
/// it has been counted: tasks `tc` over arena `m0` before, `tm1` over `m1`
/// after, with outcome `out`. Where the kernel halts, nothing has changed,
/// but for two cases: a task that ends when no other is ready is marked as
/// exited first, and when the frames run out nothing is said of the state.
pub open spec fn call_done(
    tc: TaskManager,
    m0: FrameArena,
    id: u64,
    a0: u64,
    a1: u64,
    a2: u64,
    now_ms: u64,
    now_us: u64,
    tm1: TaskManager,
    m1: FrameArena,
    out: SyscallOutcome,
) -> bool {
    if id == SYSCALL_YIELD {
        &&& out matches SyscallOutcome::Yield { ret, plan }
        &&& ret == 0
        &&& switched(tc, tm1, TaskStatus::Ready, now_ms, plan)
        &&& m1 == m0
    } else if id == SYSCALL_EXIT {
        if none_ready(statuses_of(with_status(tc.tasks(), tc.current(), TaskStatus::Exited))) {
            &&& out == SyscallOutcome::Panic(KernelPanic::AllTasksCompleted)
            &&& tm1.current() == tc.current()
            &&& tm1.tasks() == with_status(tc.tasks(), tc.current(), TaskStatus::Exited)
            &&& m1 == m0
        } else {
            &&& out matches SyscallOutcome::Exit { plan }
            &&& switched(tc, tm1, TaskStatus::Exited, now_ms, plan)
            &&& m1 == m0
        }
    } else if id == SYSCALL_GET_TIME {
        if !user_buffer_ok(tc, m0, a0, TIME_VAL_SIZE as int) {
            out == SyscallOutcome::Panic(KernelPanic::BadUserPointer) && tm1 == tc && m1 == m0
        } else {
            &&& out == SyscallOutcome::Return(0)
            &&& tm1 == tc
            &&& time_written(tc, m0, a0, now_us, m1)
        }
    } else if id == SYSCALL_TASK_INFO {
        if !user_buffer_ok(tc, m0, a0, TASK_INFO_SIZE as int) {
            out == SyscallOutcome::Panic(KernelPanic::BadUserPointer) && tm1 == tc && m1 == m0
        } else if now_ms < tc.tasks()[tc.current()].start_time {
            out == SyscallOutcome::Panic(KernelPanic::Overflow) && tm1 == tc && m1 == m0
        } else {
            &&& out == SyscallOutcome::Return(0)
            &&& tm1 == tc
            &&& info_written(tc, m0, a0, now_ms, m1)
        }
    } else if id == SYSCALL_MMAP {
        mmap_call_done(tc, m0, a0, a1, a2, tm1, m1, out)
    } else {
        munmap_call_done(tc, m0, a0, a1, tm1, m1, out)
    }
}

/// What the call that maps memory does, as `call_done` says it of every call.
pub open spec fn mmap_call_done(
    tc: TaskManager,
    m0: FrameArena,
    start: u64,
    len: u64,
    port: u64,
    tm1: TaskManager,
    m1: FrameArena,
    out: SyscallOutcome,
) -> bool {
    if !mmap_args_ok(start, port) {
        out == SyscallOutcome::Return(-1isize) && tm1 == tc && m1 == m0
    } else if start + len > u64::MAX {
        out == SyscallOutcome::Panic(KernelPanic::Overflow) && tm1 == tc && m1 == m0
    } else if overlaps_any(tc.tasks()[tc.current()].memory_set.regions(), byte_range(start, len)) {
        out == SyscallOutcome::Return(-1isize) && tm1 == tc && m1 == m0
    } else if !clear(tc, m0, byte_range(start, len)) {
        out == SyscallOutcome::Panic(KernelPanic::PageAlreadyMapped) && tm1 == tc && m1 == m0
    } else {
        ||| out == SyscallOutcome::Return(0) && mmap_done(
            tc,
            m0,
            start,
            len,
            port,
            tm1,
            m1,
            Ok(0),
        )
        ||| out == SyscallOutcome::Panic(KernelPanic::OutOfFrames) && m0.free_count()
            < frames_missing(
            m0,
            tc.tasks()[tc.current()].memory_set.table().root(),
            byte_range(start, len),
            MapType::Framed,
        )
    }
}

/// What the call that unmaps memory does, as `call_done` says it of every call.
pub open spec fn munmap_call_done(
    tc: TaskManager,
    m0: FrameArena,
    start: u64,
    len: u64,
    tm1: TaskManager,
    m1: FrameArena,
    out: SyscallOutcome,
) -> bool {
    if start % PAGE_SIZE != 0 {
        out == SyscallOutcome::Return(-1isize) && tm1 == tc && m1 == m0
    } else if start + len > u64::MAX {
        out == SyscallOutcome::Panic(KernelPanic::Overflow) && tm1 == tc && m1 == m0
    } else {
        &&& out matches SyscallOutcome::Return(r)
        &&& munmap_done(tc, m0, start, len, tm1, m1, r)
    }
}

/// Whether `range` has at most 2^27 pages and none of them is mapped in the
/// address space of the current task.
pub open spec fn clear(tm: TaskManager, a: FrameArena, range: VpnRange) -> bool {
    range.spec_len() <= VPN_SPACE && forall|v: int| #[trigger]
        range.spec_contains(v) ==> tm.tasks()[tm.current()].memory_set.translation(
            a,
            VirtPageNum(v as u64),
        ) is None
}

/// What the system call with number `id` and arguments `a0`, `a1`, `a2`
/// does: tasks `tm0` over arena `m0` before, `tm1` over `m1` after, with
/// outcome `out`. A call that is in the table is counted first, and then
/// carried out.
pub open spec fn syscall_done(
    tm0: TaskManager,
    m0: FrameArena,
    id: u64,
    a0: u64,
    a1: u64,
    a2: u64,
    now_ms: u64,
    now_us: u64,
    tm1: TaskManager,
    m1: FrameArena,
    out: SyscallOutcome,
) -> bool {
    if !supported(id) {
        out == SyscallOutcome::Panic(KernelPanic::UnsupportedSyscall) && tm1 == tm0 && m1 == m0
    } else if tm0.tasks()[tm0.current()].syscall_count@[id as int] == u32::MAX {
        out == SyscallOutcome::Panic(KernelPanic::Overflow) && tm1 == tm0 && m1 == m0
    } else {
        exists|tc: TaskManager| #[trigger]
            counted(tm0, tc, id as int) && call_done(
                tc,
                m0,
                id,
                a0,
                a1,
                a2,
                now_ms,
                now_us,
                tm1,
                m1,
                out,
            )
    }
}

/// Carries out the system call with number `syscall_id` and arguments
/// `args` for the current task, at the time `now_ms` in milliseconds and
/// `now_us` in microseconds.
pub fn syscall(
    tm: &mut TaskManager,
    arena: &mut FrameArena,
    syscall_id: u64,
    args: [u64; 3],
    now_ms: u64,
    now_us: u64,
) -> (out: SyscallOutcome)
    requires
        old(tm).mem_wf(*old(arena)),
    ensures
        syscall_done(
            *old(tm),
            *old(arena),
            syscall_id,
            args@[0],
            args@[1],
            args@[2],
            now_ms,
            now_us,
            *final(tm),
            *final(arena),
            out,
        ),
        !(out is Panic) ==> final(tm).mem_wf(*final(arena)),
{
    if !(syscall_id == SYSCALL_EXIT || syscall_id == SYSCALL_YIELD || syscall_id
        == SYSCALL_GET_TIME || syscall_id == SYSCALL_MUNMAP || syscall_id == SYSCALL_MMAP
        || syscall_id == SYSCALL_TASK_INFO) {
        return SyscallOutcome::Panic(KernelPanic::UnsupportedSyscall);
    }
    let id: usize = syscall_id as usize;
    if tm.task(tm.current_task()).syscall_count[id] == u32::MAX {
        return SyscallOutcome::Panic(KernelPanic::Overflow);
    }
    let ghost tm0 = *tm;
    let ghost m0 = *arena;
    incr_syscall_times(tm, id);
    let ghost tc = *tm;
    proof {
        crate::task::lemma_same_memory_keeps_wf(tm0, tc, m0);
    }
    let out = carry_out(tm, arena, syscall_id, args[0], args[1], args[2], now_ms, now_us);
    proof {
        assert(counted(tm0, tc, syscall_id as int));
    }
    out
}

/// Carries out a system call that has been counted.
fn carry_out(
    tm: &mut TaskManager,
    arena: &mut FrameArena,
    id: u64,
    a0: u64,
    a1: u64,
    a2: u64,
    now_ms: u64,
    now_us: u64,
) -> (out: SyscallOutcome)
    requires
        old(tm).mem_wf(*old(arena)),
        supported(id),
    ensures
        call_done(*old(tm), *old(arena), id, a0, a1, a2, now_ms, now_us, *final(tm), *final(arena), out),
        !(out is Panic) ==> final(tm).mem_wf(*final(arena)),
{
    let ghost tc = *tm;
    let ghost m0 = *arena;
    if id == SYSCALL_YIELD {
        let (ret, plan) = sys_yield(tm, now_ms);
        proof {
            crate::task::lemma_same_memory_keeps_wf(tc, *tm, m0);
        }
        SyscallOutcome::Yield { ret, plan }
    } else if id == SYSCALL_EXIT {
        if !has_other_ready(tm) {
            tm.mark_current(TaskStatus::Exited);
            return SyscallOutcome::Panic(KernelPanic::AllTasksCompleted);
        }
        let plan = sys_exit(tm, a0 as i32, now_ms);
        proof {
            crate::task::lemma_same_memory_keeps_wf(tc, *tm, m0);
        }
        SyscallOutcome::Exit { plan }
    } else if id == SYSCALL_GET_TIME {
        if !check_user_buffer(tm, arena, a0, TIME_VAL_SIZE) {
            return SyscallOutcome::Panic(KernelPanic::BadUserPointer);
        }
        SyscallOutcome::Return(sys_get_time(tm, arena, a0, a1, now_us))
    } else if id == SYSCALL_TASK_INFO {
        if !check_user_buffer(tm, arena, a0, TASK_INFO_SIZE) {
            return SyscallOutcome::Panic(KernelPanic::BadUserPointer);
        }
        if now_ms < start_time(tm) {
            return SyscallOutcome::Panic(KernelPanic::Overflow);
        }
        SyscallOutcome::Return(sys_task_info(tm, arena, a0, now_ms))
    } else if id == SYSCALL_MMAP {
        carry_out_mmap(tm, arena, a0, a1, a2)
    } else {
        carry_out_munmap(tm, arena, a0, a1)
    }
}

/// Carries out the call that maps memory.
fn carry_out_mmap(tm: &mut TaskManager, arena: &mut FrameArena, start: u64, len: u64, port: u64) -> (out:
    SyscallOutcome)
    requires
        old(tm).mem_wf(*old(arena)),
    ensures
        mmap_call_done(*old(tm), *old(arena), start, len, port, *final(tm), *final(arena), out),
        !(out is Panic) ==> final(tm).mem_wf(*final(arena)),
{
    if start % PAGE_SIZE != 0 || port & !0x7 != 0 || port & 0x7 == 0 {
        return SyscallOutcome::Return(-1);
    }
    if len > u64::MAX - start {
        return SyscallOutcome::Panic(KernelPanic::Overflow);
    }
    let range = VpnRange { start: VirtAddr(start).floor(), end: VirtAddr(start + len).ceil() };
    assert(range == byte_range(start, len));
    if range_overlaps(tm, &range) {
        return SyscallOutcome::Return(-1);
    }
    if !range_clear(tm, arena, &range) {
        return SyscallOutcome::Panic(KernelPanic::PageAlreadyMapped);
    }
    match sys_mmap(tm, arena, start, len, port) {
        Ok(ret) => SyscallOutcome::Return(ret),
        Err(OutOfFrames) => SyscallOutcome::Panic(KernelPanic::OutOfFrames),
    }
}

/// Carries out the call that unmaps memory.
fn carry_out_munmap(tm: &mut TaskManager, arena: &mut FrameArena, start: u64, len: u64) -> (out:
    SyscallOutcome)
    requires
        old(tm).mem_wf(*old(arena)),
    ensures
        munmap_call_done(*old(tm), *old(arena), start, len, *final(tm), *final(arena), out),
        !(out is Panic) ==> final(tm).mem_wf(*final(arena)),
{
    if start % PAGE_SIZE != 0 {
        return SyscallOutcome::Return(-1);
    }
    if len > u64::MAX - start {
        return SyscallOutcome::Panic(KernelPanic::Overflow);
    }
    SyscallOutcome::Return(sys_munmap(tm, arena, start, len))
}

} // verus!
