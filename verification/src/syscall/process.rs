//! The system calls that concern the running task: giving up the processor,
//! ending, and asking for the time or for the task's own statistics.

use vstd::prelude::*;
use vstd::bytes::{
    lemma_auto_spec_u64_to_from_le_bytes, spec_u32_to_le_bytes, spec_u64_from_le_bytes,
    spec_u64_to_le_bytes, u32_to_le_bytes, u64_to_le_bytes,
};
use crate::config::{MAX_SYSCALL_NUM, MICRO_PER_SEC, PAGE_SIZE};
use crate::mm::address::{PhysPageNum, VirtAddr, VirtPageNum};
use crate::mm::frame_allocator::FrameArena;
use crate::mm::page_table::{lemma_satp_names_root, PageTable};
use crate::task::{
    current_user_satp, exit_current_and_run_next, lemma_data_write_keeps_wf, none_ready,
    set_syscall_times, start_time, statuses_of, suspend_current_and_run_next, switched,
    with_status, ContextSwitch, TaskManager, TaskStatus,
};

verus! {

/// A point in time: whole seconds and the microseconds beyond them. In user
/// memory it is two 64-bit little-endian words, 16 bytes.
#[derive(Clone, Copy, Debug, PartialEq, Eq, Structural)]
pub struct TimeVal {
    pub sec: u64,
    pub usec: u64,
}

/// Number of bytes a `TimeVal` occupies in user memory.
pub const TIME_VAL_SIZE: usize = 16;

/// Number of bytes a `TaskInfo` occupies in user memory.
pub const TASK_INFO_SIZE: usize = 2016;

/// Offset of the system call counters in a `TaskInfo` in user memory.
pub const TASK_INFO_TIMES: usize = 4;

/// Offset of the running time in a `TaskInfo` in user memory.
pub const TASK_INFO_TIME: usize = 2008;

/// What a task learns about itself: its status, how often it has made each
/// system call, and for how many milliseconds it has been running. In user
/// memory it is laid out as C would: the status in one byte, the 500
/// counters as 32-bit little-endian words from offset 4 on, and the time as
/// a 64-bit little-endian word at offset 2008; 2016 bytes in all.
#[derive(Debug)]
pub struct TaskInfo {
    pub status: TaskStatus,
    pub syscall_times: Vec<u32>,
    pub time: u64,
}

/// The byte that stands for a status in user memory.
pub open spec fn status_byte(status: TaskStatus) -> u8 {
    match status {
        TaskStatus::UnInit => 0,
        TaskStatus::Ready => 1,
        TaskStatus::Running => 2,
        TaskStatus::Exited => 3,
    }
}

/// The little-endian bytes of a sequence of 32-bit words.
pub open spec fn u32s_le(words: Seq<u32>) -> Seq<u8>
    decreases words.len(),
{
    if words.len() == 0 {
        Seq::empty()
    } else {
        u32s_le(words.drop_last()) + spec_u32_to_le_bytes(words.last())
    }
}

/// A sequence of `n` words has `4 * n` bytes.
pub proof fn lemma_u32s_le_len(words: Seq<u32>)
    ensures
        u32s_le(words).len() == 4 * words.len(),
    decreases words.len(),
{
    vstd::bytes::lemma_auto_spec_u32_to_from_le_bytes();
    if words.len() > 0 {
        lemma_u32s_le_len(words.drop_last());
    }
}

impl TimeVal {
    /// The time `us` microseconds after the start of the clock.
    pub open spec fn spec_from_micros(us: u64) -> TimeVal {
        TimeVal { sec: us / MICRO_PER_SEC, usec: us % MICRO_PER_SEC }
    }

    /// The bytes of the value in user memory.
    pub open spec fn spec_bytes(&self) -> Seq<u8> {
        spec_u64_to_le_bytes(self.sec) + spec_u64_to_le_bytes(self.usec)
    }

    /// The time `us` microseconds after the start of the clock.
    pub fn from_micros(us: u64) -> (r: Self)
        ensures
            r == Self::spec_from_micros(us),
            r.usec < MICRO_PER_SEC,
            r.sec * MICRO_PER_SEC + r.usec == us,
    {
        TimeVal { sec: us / MICRO_PER_SEC, usec: us % MICRO_PER_SEC }
    }

    /// The bytes of the value in user memory.
    pub fn to_bytes(&self) -> (r: Vec<u8>)
        ensures
            r@ == self.spec_bytes(),
            r@.len() == TIME_VAL_SIZE,
    {
        let mut out = u64_to_le_bytes(self.sec);
        let low = u64_to_le_bytes(self.usec);
        let mut i: usize = 0;
        while i < 8
            invariant
                i <= 8,
                low@ == spec_u64_to_le_bytes(self.usec),
                low@.len() == 8,
                out@ == spec_u64_to_le_bytes(self.sec) + low@.take(i as int),
            decreases 8 - i,
        {
            out.push(low[i]);
            assert(low@.take(i + 1) =~= low@.take(i as int).push(low@[i as int]));
            i = i + 1;
        }
        assert(low@.take(8) =~= low@);
        out
    }
}

impl TaskInfo {
    /// The bytes of the counters in user memory.
    pub open spec fn spec_times_bytes(&self) -> Seq<u8> {
        u32s_le(self.syscall_times@)
    }

    /// What a page of user memory that held `frame` holds after the value has
    /// been written at offset `off`: the status byte, the counters and the
    /// time are replaced, the bytes between them are as they were.
    pub open spec fn spec_written(&self, frame: Seq<u8>, off: int) -> Seq<u8> {
        frame.subrange(0, off) + seq![status_byte(self.status)] + frame.subrange(off + 1, off + 4)
            + self.spec_times_bytes() + frame.subrange(off + 2004, off + 2008)
            + spec_u64_to_le_bytes(self.time) + frame.subrange(off + 2016, PAGE_SIZE as int)
    }

    /// The bytes of the counters in user memory.
    pub fn times_bytes(&self) -> (r: Vec<u8>)
        requires
            self.syscall_times@.len() == MAX_SYSCALL_NUM,
        ensures
            r@ == self.spec_times_bytes(),
            r@.len() == 4 * MAX_SYSCALL_NUM,
    {
        let mut out: Vec<u8> = Vec::new();
        let mut i: usize = 0;
        assert(self.syscall_times@.take(0) =~= Seq::<u32>::empty());
        while i < MAX_SYSCALL_NUM
            invariant
                i <= MAX_SYSCALL_NUM,
                self.syscall_times@.len() == MAX_SYSCALL_NUM,
                out@ == u32s_le(self.syscall_times@.take(i as int)),
                out@.len() == 4 * i,
            decreases MAX_SYSCALL_NUM - i,
        {
            let le = u32_to_le_bytes(self.syscall_times[i]);
            let ghost before = out@;
            let mut b: usize = 0;
            while b < 4
                invariant
                    b <= 4,
                    le@.len() == 4,
                    out@ == before + le@.take(b as int),
                decreases 4 - b,
            {
                out.push(le[b]);
                assert(le@.take(b + 1) =~= le@.take(b as int).push(le@[b as int]));
                b = b + 1;
            }
            proof {
                assert(le@.take(4) =~= le@);
                let t1 = self.syscall_times@.take(i + 1);
                assert(t1.drop_last() =~= self.syscall_times@.take(i as int));
                assert(t1.last() == self.syscall_times@[i as int]);
            }
            i = i + 1;
        }
        assert(self.syscall_times@.take(MAX_SYSCALL_NUM as int) =~= self.syscall_times@);
        out
    }

    /// The byte that stands for the status in user memory.
    pub fn status_code(&self) -> (r: u8)
        ensures
            r == status_byte(self.status),
    {
        match self.status {
            TaskStatus::UnInit => 0,
            TaskStatus::Ready => 1,
            TaskStatus::Running => 2,
            TaskStatus::Exited => 3,
        }
    }
}

/// Whether the `size` bytes at virtual address `va` of the current task can
/// be written by the kernel: the page is mapped, to a frame that backs a
/// region of the task, and the bytes do not run over the end of the page.
pub open spec fn user_buffer_ok(tm: TaskManager, a: FrameArena, va: u64, size: int) -> bool {
    let ms = tm.tasks()[tm.current()].memory_set;
    &&& ms.translation(a, VirtAddr(va).spec_floor()) is Some
    &&& ms.data_frames().contains(user_frame(tm, a, va))
    &&& va % PAGE_SIZE + size <= PAGE_SIZE
}

/// The frame that the page of virtual address `va` of the current task is
/// mapped to.
pub open spec fn user_frame(tm: TaskManager, a: FrameArena, va: u64) -> int {
    tm.tasks()[tm.current()].memory_set.translation(
        a,
        VirtAddr(va).spec_floor(),
    ).unwrap().spec_ppn().0 as int
}

/// Looks up the frame that the page of user address `va` is mapped to,
/// through the page table that the current task's token names.
fn translate_user(tm: &TaskManager, arena: &FrameArena, va: u64) -> (r: Option<PhysPageNum>)
    requires
        tm.mem_wf(*arena),
    ensures
        r is Some <==> tm.tasks()[tm.current()].memory_set.translation(
            *arena,
            VirtAddr(va).spec_floor(),
        ) is Some,
        r matches Some(ppn) ==> ppn.0 == user_frame(*tm, *arena, va),
{
    proof {
        let ms = tm.tasks()[tm.current()].memory_set;
        assert(tm.tasks()[tm.current()].wf(*arena));
        ms.lemma_arena_wf(*arena);
        let root = ms.table().root();
        ms.table().lemma_owned_allocated(*arena, root);
        arena.lemma_frame_len(root);
        lemma_satp_names_root(root as u64);
    }
    let page_table = PageTable::from_satp(current_user_satp(tm));
    match page_table.translate(arena, VirtAddr(va).floor()) {
        None => None,
        Some(pte) => Some(pte.ppn()),
    }
}

/// Whether the `size` bytes at user address `va` of the current task can be
/// written by the kernel.
pub fn check_user_buffer(tm: &TaskManager, arena: &FrameArena, va: u64, size: usize) -> (r: bool)
    requires
        tm.mem_wf(*arena),
    ensures
        r == user_buffer_ok(*tm, *arena, va, size as int),
{
    if size as u64 > PAGE_SIZE || va % PAGE_SIZE > PAGE_SIZE - size as u64 {
        return false;
    }
    match translate_user(tm, arena, va) {
        None => false,
        Some(ppn) => tm.task(tm.current_task()).memory_set.has_data_frame(ppn),
    }
}

/// The current task ends. Returns the switch to the next ready task, of
/// which there must be one.
pub fn sys_exit(tm: &mut TaskManager, exit_code: i32, now_ms: u64) -> (r: ContextSwitch)
    requires
        old(tm).wf(),
        !none_ready(statuses_of(with_status(old(tm).tasks(), old(tm).current(), TaskStatus::Exited))),
    ensures
        switched(*old(tm), *final(tm), TaskStatus::Exited, now_ms, r),
{
    exit_current_and_run_next(tm, now_ms)
}

/// The current task gives up the processor. Returns 0, the value the task
/// sees when it runs again, and the switch to the next ready task.
pub fn sys_yield(tm: &mut TaskManager, now_ms: u64) -> (r: (isize, ContextSwitch))
    requires
        old(tm).wf(),
    ensures
        r.0 == 0,
        switched(*old(tm), *final(tm), TaskStatus::Ready, now_ms, r.1),
{
    let plan = suspend_current_and_run_next(tm, now_ms);
    (0, plan)
}

/// Writes the time `now_us`, in microseconds, as a `TimeVal` to the user
/// address `ts` of the current task. `_tz` is ignored. Returns 0.
pub fn sys_get_time(tm: &TaskManager, arena: &mut FrameArena, ts: u64, _tz: u64, now_us: u64) -> (r:
    isize)
    requires
        tm.mem_wf(*old(arena)),
        user_buffer_ok(*tm, *old(arena), ts, TIME_VAL_SIZE as int),
    ensures
        r == 0,
        time_written(*tm, *old(arena), ts, now_us, *final(arena)),
{
    let ghost a0 = *arena;
    let ppn = translate_user(tm, arena, ts).unwrap();
    let offset: usize = (ts % PAGE_SIZE) as usize;
    let value = TimeVal::from_micros(now_us);
    let bytes = value.to_bytes();
    proof {
        let ms = tm.tasks()[tm.current()].memory_set;
        assert(tm.tasks()[tm.current()].wf(a0));
        assert(ms.owned().contains(ppn.0 as int));
        ms.lemma_owned_allocated(a0, ppn.0 as int);
    }
    arena.store(ppn, offset, bytes.as_slice());
    proof {
        lemma_data_write_keeps_wf(*tm, a0, *arena, tm.current(), ppn.0 as int);
    }
    0
}

/// Writes what the current task may know about itself as a `TaskInfo` to
/// its user address `ti`: that it is running, its system call counters, and
/// the milliseconds from its first run to `now_ms`. Returns 0.
pub fn sys_task_info(tm: &TaskManager, arena: &mut FrameArena, ti: u64, now_ms: u64) -> (r: isize)
    requires
        tm.mem_wf(*old(arena)),
        user_buffer_ok(*tm, *old(arena), ti, TASK_INFO_SIZE as int),
        tm.tasks()[tm.current()].start_time <= now_ms,
    ensures
        r == 0,
        info_written(*tm, *old(arena), ti, now_ms, *final(arena)),
{
    let ghost a0 = *arena;
    let ppn = translate_user(tm, arena, ti).unwrap();
    let offset: usize = (ti % PAGE_SIZE) as usize;
    let mut times: Vec<u32> = vec![0u32; 500];
    set_syscall_times(tm, &mut times);
    let info = TaskInfo {
        status: TaskStatus::Running,
        syscall_times: times,
        time: now_ms - start_time(tm),
    };
    assert(info.syscall_times@ == task_info_of(*tm, now_ms).syscall_times@);
    proof {
        let ms = tm.tasks()[tm.current()].memory_set;
        assert(tm.tasks()[tm.current()].wf(a0));
        assert(ms.owned().contains(ppn.0 as int));
        ms.lemma_owned_allocated(a0, ppn.0 as int);
        a0.lemma_frame_len(ppn.0 as int);
    }
    let status = [info.status_code()];
    arena.store(ppn, offset, status.as_slice());
    let counters = info.times_bytes();
    arena.store(ppn, offset + TASK_INFO_TIMES, counters.as_slice());
    let time = u64_to_le_bytes(info.time);
    arena.store(ppn, offset + TASK_INFO_TIME, time.as_slice());
    proof {
        let p = ppn.0 as int;
        assert(status@ =~= seq![status_byte(TaskStatus::Running)]);
        assert(arena.frame(p) =~= task_info_of(*tm, now_ms).spec_written(a0.frame(p), offset as int));
        lemma_data_write_keeps_wf(*tm, a0, *arena, tm.current(), p);
    }
    0
}

/// What writing into the frame `p` that backs a page of a task does to the
/// arena: `a0` before, `a1` after. Frame `p` holds `bytes`; nothing else has
/// changed, so every task is as consistent as before and every address
/// space holds what it held.
pub open spec fn frame_written(
    tm: TaskManager,
    a0: FrameArena,
    a1: FrameArena,
    p: int,
    bytes: Seq<u8>,
) -> bool {
    &&& tm.mem_wf(a1)
    &&& a1.allocation() == a0.allocation()
    &&& a1.frame(p) == bytes
    &&& forall|q: int| q != p ==> #[trigger] a1.frame(q) == a0.frame(q)
    &&& forall|j: int, v: VirtPageNum|
        0 <= j < tm.tasks().len() ==> #[trigger] tm.tasks()[j].memory_set.translation(a1, v)
            == tm.tasks()[j].memory_set.translation(a0, v)
}

/// What `sys_get_time` does to the arena: the 16 bytes at user address `ts`
/// of the current task hold the time `now_us`.
pub open spec fn time_written(
    tm: TaskManager,
    a0: FrameArena,
    ts: u64,
    now_us: u64,
    a1: FrameArena,
) -> bool {
    frame_written(
        tm,
        a0,
        a1,
        user_frame(tm, a0, ts),
        a0.frame(user_frame(tm, a0, ts)).subrange(0, (ts % PAGE_SIZE) as int)
            + TimeVal::spec_from_micros(now_us).spec_bytes() + a0.frame(
            user_frame(tm, a0, ts),
        ).subrange(ts % PAGE_SIZE + TIME_VAL_SIZE, PAGE_SIZE as int),
    )
}

/// What `sys_task_info` does to the arena: the 2016 bytes at user address
/// `ti` of the current task hold what the task may know about itself.
pub open spec fn info_written(
    tm: TaskManager,
    a0: FrameArena,
    ti: u64,
    now_ms: u64,
    a1: FrameArena,
) -> bool {
    frame_written(
        tm,
        a0,
        a1,
        user_frame(tm, a0, ti),
        task_info_of(tm, now_ms).spec_written(
            a0.frame(user_frame(tm, a0, ti)),
            (ti % PAGE_SIZE) as int,
        ),
    )
}

/// What the current task may know about itself at time `now_ms`.
pub open spec fn task_info_of(tm: TaskManager, now_ms: u64) -> TaskInfo {
    TaskInfo {
        status: TaskStatus::Running,
        syscall_times: tm.tasks()[tm.current()].syscall_count,
        time: (now_ms - tm.tasks()[tm.current()].start_time) as u64,
    }
}


/// The times that `sys_get_time` writes do not go back while the clock
/// does not: of two readings of the clock, the later gives a pair of
/// seconds and microseconds that is not before the pair of the earlier.
pub proof fn law_time_does_not_go_back(earlier_us: u64, later_us: u64)
    requires
        earlier_us <= later_us,
    ensures
        TimeVal::spec_from_micros(earlier_us).sec < TimeVal::spec_from_micros(later_us).sec || (
        TimeVal::spec_from_micros(earlier_us).sec == TimeVal::spec_from_micros(later_us).sec
            && TimeVal::spec_from_micros(earlier_us).usec <= TimeVal::spec_from_micros(
            later_us,
        ).usec),
{
}


/// The time that the 16 bytes at offset `off` of `frame` hold.
pub open spec fn time_at(frame: Seq<u8>, off: int) -> TimeVal {
    TimeVal {
        sec: spec_u64_from_le_bytes(frame.subrange(off, off + 8)),
        usec: spec_u64_from_le_bytes(frame.subrange(off + 8, off + 16)),
    }
}

/// A time can be read back from the bytes it was written as, whatever
/// stands before and after them.
pub proof fn lemma_time_within(before: Seq<u8>, value: TimeVal, after: Seq<u8>)
    ensures
        time_at(before + value.spec_bytes() + after, before.len() as int) == value,
{
    lemma_auto_spec_u64_to_from_le_bytes();
    let whole = before + value.spec_bytes() + after;
    let off = before.len() as int;
    assert(whole.subrange(off, off + 8) =~= spec_u64_to_le_bytes(value.sec));
    assert(whole.subrange(off + 8, off + 16) =~= spec_u64_to_le_bytes(value.usec));
}

/// What `sys_get_time` has written can be read back: if the call wrote the
/// time `now_us` to user address `ts`, taking arena `a0` to `a1`, then the
/// 16 bytes at `ts` hold the seconds and microseconds of `now_us`.
pub proof fn lemma_time_read_back(tm: TaskManager, a0: FrameArena, ts: u64, now_us: u64, a1: FrameArena)
    requires
        tm.mem_wf(a0),
        user_buffer_ok(tm, a0, ts, TIME_VAL_SIZE as int),
        time_written(tm, a0, ts, now_us, a1),
    ensures
        time_at(a1.frame(user_frame(tm, a0, ts)), (ts % PAGE_SIZE) as int)
            == TimeVal::spec_from_micros(now_us),
{
    let p = user_frame(tm, a0, ts);
    let off = (ts % PAGE_SIZE) as int;
    let value = TimeVal::spec_from_micros(now_us);
    let ms = tm.tasks()[tm.current()].memory_set;
    assert(tm.tasks()[tm.current()].wf(a0));
    assert(a0.frame(p).len() == PAGE_SIZE) by {
        ms.lemma_owned_allocated(a0, p);
        a0.lemma_allocated_contained(p);
        a0.lemma_frame_len(p);
    }
    assert(0 <= off && off + TIME_VAL_SIZE <= PAGE_SIZE);
    assert(a0.frame(p).subrange(0, off).len() == off);
    lemma_time_within(
        a0.frame(p).subrange(0, off),
        value,
        a0.frame(p).subrange(off + TIME_VAL_SIZE, PAGE_SIZE as int),
    );
}

/// A later call of `sys_get_time` leaves a time that is not earlier: if one
/// call wrote the time `us1` to user address `ts`, taking arena `a0` to
/// `a1`, and another, with tasks `tm2` over arena `a2`, wrote `us2`, which
/// is not before `us1`, taking `a2` to `a3`, then the seconds and
/// microseconds that the second left at `ts` are not before those that the
/// first left.
pub proof fn law_later_call_leaves_later_time(
    tm: TaskManager,
    a0: FrameArena,
    ts: u64,
    us1: u64,
    a1: FrameArena,
    tm2: TaskManager,
    a2: FrameArena,
    us2: u64,
    a3: FrameArena,
)
    requires
        tm.mem_wf(a0),
        user_buffer_ok(tm, a0, ts, TIME_VAL_SIZE as int),
        time_written(tm, a0, ts, us1, a1),
        tm2.mem_wf(a2),
        user_buffer_ok(tm2, a2, ts, TIME_VAL_SIZE as int),
        time_written(tm2, a2, ts, us2, a3),
        us1 <= us2,
    ensures
        ({
            let first = time_at(a1.frame(user_frame(tm, a0, ts)), (ts % PAGE_SIZE) as int);
            let second = time_at(a3.frame(user_frame(tm2, a2, ts)), (ts % PAGE_SIZE) as int);
            first.sec < second.sec || (first.sec == second.sec && first.usec <= second.usec)
        }),
{
    lemma_time_read_back(tm, a0, ts, us1, a1);
    lemma_time_read_back(tm2, a2, ts, us2, a3);
    law_time_does_not_go_back(us1, us2);
}


/// A task that is alone runs on when it yields, and when it ends all tasks
/// have completed: if the manager `tm0` has one task, and a yield at time
/// `now_ms` took it to `tm1` with the switch `plan`, then the switch goes
/// from the task to itself, the task is running again, and once it has
/// ended no task is ready.
pub proof fn law_lone_task_runs_to_its_end(
    tm0: TaskManager,
    tm1: TaskManager,
    now_ms: u64,
    plan: ContextSwitch,
)
    requires
        tm0.wf(),
        tm0.count() == 1,
        switched(tm0, tm1, TaskStatus::Ready, now_ms, plan),
    ensures
        plan == (ContextSwitch { from: Some(0), to: 0 }),
        tm1.current() == 0,
        tm1.tasks()[0].task_status == TaskStatus::Running,
        none_ready(statuses_of(with_status(tm1.tasks(), tm1.current(), TaskStatus::Exited))),
{
}

} // verus!
