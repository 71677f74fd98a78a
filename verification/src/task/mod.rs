//! Tasks and their round-robin scheduling.

pub mod context;
pub mod tcb;

use vstd::prelude::*;
use crate::config::{MAX_APP_NUM, MAX_SYSCALL_NUM};
use crate::mm::address::{VirtAddr, VirtPageNum, VPN_SPACE};
use crate::mm::frame_allocator::{FrameArena, OutOfFrames};
use crate::config::spec_kernel_stack_position;
use crate::mm::elf::spec_header;
use crate::mm::image::{
    elf_valid, frames_for, image_fits, image_mapped, key_taken, lemma_added_nothing_stray,
    lemma_placed_untouched, nothing_stray, segments_of, segments_placed, stack_top,
};
use crate::mm::memory_set::{trampoline_entry, trampoline_vpn};
use crate::trap::context::init_context_word;
use crate::mm::memory_set::{
    frame_set, frames_missing, frames_needed, lemma_near_pages_distinct_keys, lemma_same_key_same_walk, nth_page, region_added,
    va_range, LoadError, MapArea, MapPermission, MapType, MemorySet, VpnRange,
};
use crate::mm::page_table::{same_outside, tables_kept};
use crate::task::tcb::{
    backs_trap_ctx, kernel_stack_range, lemma_backing_frame, task_created, BootInfo,
};
use crate::trap::context::TrapContext;
pub use crate::task::tcb::{TaskControlBlock, TaskStatus};

verus! {

/// What the caller has to do after the scheduler has picked a task: save the
/// running context into the task context of task `from`, or discard it where
/// there is none, and resume the task context of task `to`.
#[derive(Clone, Copy, Debug, PartialEq, Eq, Structural)]
pub struct ContextSwitch {
    pub from: Option<usize>,
    pub to: usize,
}

/// The tasks of the system and which of them is running.
pub struct TaskManager {
    num_app: usize,
    tasks: Vec<TaskControlBlock>,
    current_task: usize,
}

/// Whether `tcb` is a task as it is created from the image `data`: ready,
/// not yet run, with no system call counted, and with the regions of the
/// image in its address space.
pub open spec fn fresh_task(data: Seq<u8>, tcb: TaskControlBlock) -> bool {
    &&& tcb.task_status == TaskStatus::Ready
    &&& tcb.start_time == 0
    &&& tcb.base_size == stack_top(segments_of(data))
    &&& tcb.syscall_count@ == Seq::new(MAX_SYSCALL_NUM as nat, |i: int| 0u32)
    &&& image_mapped(data, tcb.memory_set)
}

/// The number of frames that are enough to create a task from each of the
/// images `apps`: for each those that are enough to load it, and six for its
/// kernel stack.
pub open spec fn load_frames(apps: Seq<Vec<u8>>) -> nat
    decreases apps.len(),
{
    if apps.len() == 0 {
        0
    } else {
        load_frames(apps.drop_last()) + frames_for(apps.last()@) + 6
    }
}

/// Whether the images `apps` are few enough, well formed and laid out in
/// the customary way.
pub open spec fn apps_fit(apps: Seq<Vec<u8>>) -> bool {
    apps.len() <= MAX_APP_NUM && forall|i: int|
        0 <= i < apps.len() ==> elf_valid((#[trigger] apps[i])@) && image_fits(apps[i]@)
}

/// Whether the pages of the kernel stacks of the tasks `from` up to `to`
/// are clear in the kernel address space `ks`.
pub open spec fn stacks_clear(ks: MemorySet, a: FrameArena, from: int, to: int) -> bool {
    forall|j: int| from <= j < to ==> ks.clear(a, #[trigger] kernel_stack_range(j as usize))
}

/// The frames for the first images are among the frames for all of them.
proof fn lemma_load_frames_prefix(apps: Seq<Vec<u8>>, n: int)
    requires
        0 <= n <= apps.len(),
    ensures
        load_frames(apps.take(n)) <= load_frames(apps),
    decreases apps.len() - n,
{
    if n < apps.len() {
        lemma_load_frames_prefix(apps, n + 1);
        assert(apps.take(n + 1).drop_last() =~= apps.take(n));
    } else {
        assert(apps.take(n) =~= apps);
    }
}

/// Creating task `app_id` leaves the pages of the kernel stacks of the
/// tasks after it clear.
proof fn lemma_stacks_stay_clear(
    ks0: MemorySet,
    a0: FrameArena,
    data: Seq<u8>,
    app_id: usize,
    boot: BootInfo,
    tcb: TaskControlBlock,
    ks1: MemorySet,
    a1: FrameArena,
    n: int,
)
    requires
        n <= MAX_APP_NUM,
        app_id < n,
        stacks_clear(ks0, a0, app_id as int, n),
        task_created(data, app_id, boot, ks0, a0, tcb, ks1, a1),
    ensures
        stacks_clear(ks1, a1, app_id + 1, n),
{
    let base = VirtPageNum(0xf_ffff_ffff_cffd);
    let mine = kernel_stack_range(app_id);
    assert forall|j: int| app_id + 1 <= j < n implies ks1.clear(
        a1,
        #[trigger] kernel_stack_range(j as usize),
    ) by {
        let theirs = kernel_stack_range(j as usize);
        assert(ks0.clear(a0, theirs));
        assert forall|v: int| #[trigger] theirs.spec_contains(v) implies ks1.translation(
            a1,
            VirtPageNum(v as u64),
        ) is None by {
            let page = VirtPageNum(v as u64);
            assert forall|k: int| 0 <= k < mine.spec_len() implies (#[trigger] nth_page(
                mine.start,
                k,
            )).key() != page.key() by {
                let m = mine.start.0 + k - base.0;
                let w = v - base.0;
                lemma_near_pages_distinct_keys(base, m, w);
                assert(nth_page(base, m) == nth_page(mine.start, k));
                assert(nth_page(base, w) == page);
            }
            assert(ks1.translation(a1, page) == ks0.translation(a0, page));
        }
    }
}

/// Whether `tcb` is task `app_id` as it is created from the image `data`,
/// as arena `a` stands: a fresh task whose saved kernel context returns to
/// user mode on its own kernel stack, with each segment of the image placed
/// in its region, the trampoline mapped, and the first trap context in the
/// frame of the last region. `kernel_satp` is the token of the kernel
/// address space.
pub open spec fn task_booted(
    data: Seq<u8>,
    app_id: usize,
    boot: BootInfo,
    kernel_satp: u64,
    tcb: TaskControlBlock,
    a: FrameArena,
) -> bool {
    let stack = spec_kernel_stack_position(app_id);
    let ms = tcb.memory_set;
    &&& fresh_task(data, tcb)
    &&& tcb.task_ctx.ra == boot.trap_return
    &&& tcb.task_ctx.sp == stack.1
    &&& tcb.task_ctx.s@ == Seq::new(12, |i: int| 0u64)
    &&& segments_placed(data, segments_of(data), ms, a)
    &&& ms.translation(a, trampoline_vpn()) == Some(trampoline_entry(boot.trampoline))
    &&& backs_trap_ctx(ms.regions(), ms.regions().len() - 1, tcb.trap_ctx_ppn)
    &&& forall|i: int|
        0 <= i < 37 ==> #[trigger] a.word(tcb.trap_ctx_ppn.0 as int, i) == init_context_word(
            spec_header(data).entry,
            stack_top(segments_of(data)) as u64,
            boot.sstatus,
            kernel_satp,
            stack.1,
            boot.trap_handler,
            i,
        )
}

/// A task stays as it was created while the arena changes in none of its
/// frames.
proof fn lemma_booted_untouched(
    data: Seq<u8>,
    app_id: usize,
    boot: BootInfo,
    kernel_satp: u64,
    tcb: TaskControlBlock,
    a: FrameArena,
    a1: FrameArena,
)
    requires
        task_booted(data, app_id, boot, kernel_satp, tcb, a),
        tcb.wf(a),
        forall|q: int| tcb.memory_set.owned().contains(q) ==> #[trigger] a1.frame(q) == a.frame(q),
        forall|v: VirtPageNum| #[trigger]
            tcb.memory_set.translation(a1, v) == tcb.memory_set.translation(a, v),
    ensures
        task_booted(data, app_id, boot, kernel_satp, tcb, a1),
{
    let ms = tcb.memory_set;
    let n = segments_of(data).len() as int;
    lemma_backing_frame(ms, a, ms.regions().len() - 1, tcb.trap_ctx_ppn);
    assert(ms.owned().contains(tcb.trap_ctx_ppn.0 as int));
    assert forall|j: int, m: int|
        0 <= j < n && 0 <= m < ms.regions()[j].data_frames@.len() implies a1.frame(
        (#[trigger] ms.regions()[j].data_frames@[m]).ppn.0 as int,
    ) == a.frame(ms.regions()[j].data_frames@[m].ppn.0 as int) by {
        assert(ms.data_frames().contains(ms.regions()[j].data_frames@[m].ppn.0 as int));
        assert(ms.owned().contains(ms.regions()[j].data_frames@[m].ppn.0 as int));
    }
    assert forall|j: int| 0 <= j < n implies (#[trigger] ms.regions()[j]).map_type
        == MapType::Framed by {}
    lemma_placed_untouched(data, segments_of(data), ms, a, a1);
    let p = tcb.trap_ctx_ppn.0 as int;
    assert(a1.frame(p) == a.frame(p));
    assert forall|i: int| 0 <= i < 37 implies #[trigger] a1.word(p, i) == a.word(p, i) by {}
    assert(ms.translation(a1, trampoline_vpn()) == ms.translation(a, trampoline_vpn()));
}

/// While the tasks are created: the tasks so far and the kernel address
/// space are consistent with the arena, and no frame belongs to two of them.
#[verifier::opaque]
pub open spec fn booting(tasks: Seq<TaskControlBlock>, ks: MemorySet, a: FrameArena) -> bool {
    &&& a.wf()
    &&& ks.wf(a)
    &&& forall|i: int| 0 <= i < tasks.len() ==> (#[trigger] tasks[i]).wf(a)
    &&& forall|i: int|
        0 <= i < tasks.len() ==> (#[trigger] tasks[i]).memory_set.owned().disjoint(ks.owned())
    &&& forall|i: int, j: int|
        0 <= i < tasks.len() && 0 <= j < tasks.len() && i != j ==> (
        #[trigger] tasks[i]).memory_set.owned().disjoint((#[trigger] tasks[j]).memory_set.owned())
}

/// Creating one more task keeps the tasks and the kernel address space
/// consistent and their frames apart.
proof fn lemma_boot_step(
    tasks: Seq<TaskControlBlock>,
    ks0: MemorySet,
    a0: FrameArena,
    data: Seq<u8>,
    app_id: usize,
    boot: BootInfo,
    tcb: TaskControlBlock,
    ks1: MemorySet,
    a1: FrameArena,
)
    requires
        booting(tasks, ks0, a0),
        task_created(data, app_id, boot, ks0, a0, tcb, ks1, a1),
    ensures
        booting(tasks.push(tcb), ks1, a1),
        task_booted(data, app_id, boot, ks0.table().spec_satp(), tcb, a1),
        ks1.table().spec_satp() == ks0.table().spec_satp(),
        ks1.regions().len() == ks0.regions().len() + 1,
        forall|i: int|
            0 <= i < tasks.len() ==> (forall|q: int|
                (#[trigger] tasks[i]).memory_set.owned().contains(q) ==> #[trigger] a1.frame(q)
                    == a0.frame(q)) && (forall|v: VirtPageNum| #[trigger]
                tasks[i].memory_set.translation(a1, v) == tasks[i].memory_set.translation(a0, v)),
{
    reveal(booting);
    let all = tasks.push(tcb);
    let changed = tcb.memory_set.owned().union(ks1.owned());
    ks1.lemma_arena_wf(a1);
    assert forall|i: int| 0 <= i < tasks.len() implies (#[trigger] tasks[i]).wf(a1)
        && tasks[i].memory_set.owned().disjoint(ks1.owned()) && tasks[i].memory_set.owned().disjoint(
        tcb.memory_set.owned(),
    ) by {
        let ms = tasks[i].memory_set;
        assert(tasks[i].wf(a0));
        assert(ms.owned().disjoint(ks0.owned()));
        assert forall|q: int| ms.owned().contains(q) implies a0.allocated().contains(q)
            && a1.allocated().contains(q) && !changed.contains(q) by {
            ms.lemma_owned_allocated(a0, q);
        }
        assert(changed.disjoint(ms.table().owned())) by {
            assert forall|q: int| changed.contains(q) implies !ms.table().owned().contains(q) by {
                if ms.table().owned().contains(q) {
                    assert(ms.owned().contains(q));
                }
            }
        }
        ms.lemma_untouched(a0, a1, changed);
    }
    assert forall|i: int| 0 <= i < tasks.len() implies (forall|q: int|
        (#[trigger] tasks[i]).memory_set.owned().contains(q) ==> #[trigger] a1.frame(q) == a0.frame(
            q,
        )) && (forall|v: VirtPageNum| #[trigger]
        tasks[i].memory_set.translation(a1, v) == tasks[i].memory_set.translation(a0, v)) by {
        assert(tasks[i].wf(a1));
        let ms = tasks[i].memory_set;
        assert(tasks[i].wf(a0));
        assert forall|q: int| ms.owned().contains(q) implies #[trigger] a1.frame(q) == a0.frame(
            q,
        ) by {
            ms.lemma_owned_allocated(a0, q);
            assert(ms.owned().disjoint(ks0.owned()));
            assert(!changed.contains(q));
        }
        assert(changed.disjoint(ms.table().owned())) by {
            assert forall|q: int| changed.contains(q) implies !ms.table().owned().contains(q) by {
                if ms.table().owned().contains(q) {
                    assert(ms.owned().contains(q));
                    ms.lemma_owned_allocated(a0, q);
                    assert(ms.owned().disjoint(ks0.owned()));
                }
            }
        }
        assert forall|q: int| ms.owned().contains(q) implies a1.allocated().contains(q) by {
            ms.lemma_owned_allocated(a0, q);
        }
        ms.lemma_untouched(a0, a1, changed);
    }
    assert forall|i: int| 0 <= i < all.len() implies (#[trigger] all[i]).wf(a1) by {
        if i < tasks.len() {
            assert(tasks[i].wf(a1));
        }
    }
    assert forall|i: int| 0 <= i < all.len() implies (#[trigger] all[i]).memory_set.owned().disjoint(
        ks1.owned(),
    ) by {
        if i < tasks.len() {
            assert(tasks[i].memory_set.owned().disjoint(ks1.owned()));
        }
    }
    assert forall|i: int, j: int|
        0 <= i < all.len() && 0 <= j < all.len() && i != j implies (
    #[trigger] all[i]).memory_set.owned().disjoint((#[trigger] all[j]).memory_set.owned()) by {
        if i < tasks.len() && j < tasks.len() {
            assert(tasks[i].memory_set.owned().disjoint(tasks[j].memory_set.owned()));
        } else if i < tasks.len() {
            assert(tasks[i].memory_set.owned().disjoint(tcb.memory_set.owned()));
        } else {
            assert(tasks[j].memory_set.owned().disjoint(tcb.memory_set.owned()));
        }
    }
}

/// Whether task `i` is the one the scheduler picks when task `current` gives
/// up the processor: the first ready task in the order `current + 1`, ...,
/// the last task, task 0, ..., `current`.
pub open spec fn is_next_ready(statuses: Seq<TaskStatus>, current: int, i: int) -> bool {
    &&& 0 <= i < statuses.len()
    &&& statuses[i] == TaskStatus::Ready
    &&& forall|j: int|
        0 <= j < statuses.len() && scanned_before(current, j, i) ==> #[trigger] statuses[j]
            != TaskStatus::Ready
}

/// Whether the scan that starts after `current` looks at task `j` before task `i`.
pub open spec fn scanned_before(current: int, j: int, i: int) -> bool {
    if i > current {
        current < j < i
    } else {
        current < j || j < i
    }
}

/// Whether no task is ready.
pub open spec fn none_ready(statuses: Seq<TaskStatus>) -> bool {
    forall|j: int| 0 <= j < statuses.len() ==> #[trigger] statuses[j] != TaskStatus::Ready
}

impl TaskManager {
    /// The tasks, in the order of their numbers.
    pub closed spec fn tasks(&self) -> Seq<TaskControlBlock> {
        self.tasks@
    }

    /// The number of the task that is running.
    pub closed spec fn current(&self) -> int {
        self.current_task as int
    }

    /// The number of tasks.
    pub closed spec fn count(&self) -> int {
        self.num_app as int
    }

    /// The status of every task.
    pub open spec fn statuses(&self) -> Seq<TaskStatus> {
        Seq::new(self.tasks().len(), |i: int| self.tasks()[i].task_status)
    }

    /// The manager is consistent: it knows how many tasks it has, the
    /// current task is one of them, and every task has a counter for every
    /// system call number.
    pub open spec fn wf(&self) -> bool {
        &&& self.count() == self.tasks().len()
        &&& self.count() > 0
        &&& 0 <= self.current() < self.count()
        &&& forall|i: int|
            0 <= i < self.tasks().len() ==> (#[trigger] self.tasks()[i]).syscall_count@.len()
                == MAX_SYSCALL_NUM
    }

    /// The manager and the address spaces of its tasks are consistent with
    /// arena `a`, and no frame belongs to two tasks.
    pub open spec fn mem_wf(&self, a: FrameArena) -> bool {
        &&& self.wf()
        &&& a.wf()
        &&& forall|i: int| 0 <= i < self.tasks().len() ==> (#[trigger] self.tasks()[i]).wf(a)
        &&& forall|i: int, j: int|
            0 <= i < self.tasks().len() && 0 <= j < self.tasks().len() && i != j ==> (
            #[trigger] self.tasks()[i]).memory_set.owned().disjoint(
                (#[trigger] self.tasks()[j]).memory_set.owned(),
            )
    }

    /// Creates one task from each of the ELF images `apps`, in their order,
    /// and a manager of these tasks, none of which runs yet; task 0 is
    /// current. Each task gets its kernel stack in `kernel_space`.
    pub fn load(
        arena: &mut FrameArena,
        kernel_space: &mut MemorySet,
        apps: &Vec<Vec<u8>>,
        boot: &BootInfo,
    ) -> (r: Result<TaskManager, LoadError>)
        requires
            old(kernel_space).wf(*old(arena)),
        ensures
            final(arena).wf(),
            final(arena).first_frame() == old(arena).first_frame(),
            final(arena).end_frame() == old(arena).end_frame(),
            (forall|i: int| 0 <= i < apps@.len() ==> elf_valid(#[trigger] apps@[i]@)) ==> !(
            r matches Err(LoadError::InvalidElf)),
            r matches Err(LoadError::OutOfFrames) ==> final(arena).free_count() == 0,
            apps_fit(apps@) && stacks_clear(
                *old(kernel_space),
                *old(arena),
                0,
                apps@.len() as int,
            ) && old(arena).free_count() >= load_frames(apps@) ==> r is Ok,
            r matches Ok(tm) ==> {
                &&& tm.count() == apps@.len()
                &&& tm.tasks().len() == apps@.len()
                &&& tm.current() == 0
                &&& apps@.len() > 0 ==> tm.mem_wf(*final(arena))
                &&& final(kernel_space).wf(*final(arena))
                &&& final(kernel_space).regions().len() == old(kernel_space).regions().len()
                    + apps@.len()
                &&& forall|i: int|
                    0 <= i < apps@.len() ==> task_booted(
                        apps@[i]@,
                        i as usize,
                        *boot,
                        old(kernel_space).table().spec_satp(),
                        #[trigger] tm.tasks()[i],
                        *final(arena),
                    )
            },
    {
        let ghost a0 = *arena;
        let ghost ks0 = *kernel_space;
        let num_app = apps.len();
        let mut tasks: Vec<TaskControlBlock> = Vec::new();
        let mut i: usize = 0;
        let ghost owed = apps_fit(apps@) && stacks_clear(ks0, a0, 0, apps@.len() as int)
            && a0.free_count() >= load_frames(apps@);
        proof {
            ks0.lemma_arena_wf(a0);
            reveal(booting);
            assert(apps@.take(0) =~= Seq::<Vec<u8>>::empty());
        }
        while i < num_app
            invariant
                i <= num_app,
                a0 == *old(arena),
                ks0 == *old(kernel_space),
                num_app == apps@.len(),
                tasks@.len() == i,
                arena.first_frame() == a0.first_frame(),
                arena.end_frame() == a0.end_frame(),
                booting(tasks@, *kernel_space, *arena),
                owed == (apps_fit(apps@) && stacks_clear(ks0, a0, 0, apps@.len() as int)
                    && a0.free_count() >= load_frames(apps@)),
                owed ==> stacks_clear(*kernel_space, *arena, i as int, apps@.len() as int)
                    && arena.free_count() >= a0.free_count() - load_frames(apps@.take(i as int)),
                kernel_space.regions().len() == ks0.regions().len() + i,
                kernel_space.table().spec_satp() == ks0.table().spec_satp(),
                forall|j: int|
                    0 <= j < i ==> task_booted(
                        apps@[j]@,
                        j as usize,
                        *boot,
                        ks0.table().spec_satp(),
                        #[trigger] tasks@[j],
                        *arena,
                    ),
            decreases num_app - i,
        {
            let ghost ks_before = *kernel_space;
            let ghost a_before = *arena;
            let ghost tasks_before = tasks@;
            proof {
                reveal(booting);
                lemma_load_frames_prefix(apps@, i + 1);
                assert(apps@.take(i + 1).drop_last() =~= apps@.take(i as int));
                if owed {
                    assert(elf_valid(apps@[i as int]@) && image_fits(apps@[i as int]@));
                    assert(kernel_space.clear(*arena, kernel_stack_range((i as int) as usize)));
                    let next = apps@.take(i + 1);
                    assert(next.last() == apps@[i as int]);
                    assert(load_frames(next) == load_frames(apps@.take(i as int)) + frames_for(
                        apps@[i as int]@,
                    ) + 6);
                    assert(arena.free_count() >= frames_for(apps@[i as int]@) + 6);
                }
            }
            match TaskControlBlock::new(arena, kernel_space, apps[i].as_slice(), i, boot) {
                Err(e) => {
                    return Err(e);
                },
                Ok(tcb) => {
                    proof {
                        lemma_boot_step(
                            tasks_before,
                            ks_before,
                            a_before,
                            apps@[i as int]@,
                            i,
                            *boot,
                            tcb,
                            *kernel_space,
                            *arena,
                        );
                        assert forall|j: int| 0 <= j < i implies task_booted(
                            apps@[j]@,
                            j as usize,
                            *boot,
                            ks0.table().spec_satp(),
                            #[trigger] tasks_before.push(tcb)[j],
                            *arena,
                        ) by {
                            assert(tasks_before[j].wf(a_before));
                            lemma_booted_untouched(
                                apps@[j]@,
                                j as usize,
                                *boot,
                                ks0.table().spec_satp(),
                                tasks_before[j],
                                a_before,
                                *arena,
                            );
                        }
                        if owed {
                            lemma_stacks_stay_clear(
                                ks_before,
                                a_before,
                                apps@[i as int]@,
                                i,
                                *boot,
                                tcb,
                                *kernel_space,
                                *arena,
                                apps@.len() as int,
                            );
                        }
                    }
                    tasks.push(tcb);
                },
            }
            i = i + 1;
        }
        let tm = TaskManager { num_app, tasks, current_task: 0 };
        proof {
            reveal(booting);
        }
        Ok(tm)
    }

    /// A manager of `tasks`, none of which runs yet; task 0 is current.
    pub fn new(tasks: Vec<TaskControlBlock>) -> (r: Self)
        ensures
            r.tasks() == tasks@,
            r.current() == 0,
            r.count() == tasks@.len(),
    {
        TaskManager { num_app: tasks.len(), tasks, current_task: 0 }
    }

    /// The number of tasks.
    pub fn num_app(&self) -> (r: usize)
        ensures
            r == self.count(),
    {
        self.num_app
    }

    /// The number of the current task.
    pub fn current_task(&self) -> (r: usize)
        ensures
            r == self.current(),
    {
        self.current_task
    }

    /// The status of task `id`.
    pub fn task_status(&self, id: usize) -> (r: TaskStatus)
        requires
            id < self.tasks().len(),
        ensures
            r == self.tasks()[id as int].task_status,
    {
        self.tasks[id].task_status
    }

    /// Task `id`.
    pub fn task(&self, id: usize) -> (r: &TaskControlBlock)
        requires
            id < self.tasks().len(),
        ensures
            *r == self.tasks()[id as int],
    {
        &self.tasks[id]
    }

    /// Sets the status of the current task.
    pub fn mark_current(&mut self, status: TaskStatus)
        requires
            old(self).wf(),
        ensures
            final(self).wf(),
            final(self).current() == old(self).current(),
            final(self).count() == old(self).count(),
            final(self).tasks() == old(self).tasks().update(
                old(self).current(),
                TaskControlBlock { task_status: status, ..old(self).tasks()[old(self).current()] },
            ),
    {
        let current = self.current_task;
        self.tasks[current].task_status = status;
        proof {
            assert(self.tasks@ =~= old(self).tasks@.update(
                current as int,
                TaskControlBlock { task_status: status, ..old(self).tasks@[current as int] },
            ));
        }
    }

    /// The task to run next: the first ready one after the current task,
    /// wrapping around to the current task itself.
    pub fn next_ready_task(&self) -> (r: Option<usize>)
        requires
            self.wf(),
        ensures
            match r {
                Some(i) => is_next_ready(self.statuses(), self.current(), i as int),
                None => none_ready(self.statuses()),
            },
    {
        let current = self.current_task;
        let mut id: usize = current + 1;
        while id < self.num_app
            invariant
                self.wf(),
                current == self.current(),
                current < id <= self.num_app,
                forall|j: int| current < j < id ==> #[trigger] self.statuses()[j] != TaskStatus::Ready,
            decreases self.num_app - id,
        {
            if self.tasks[id].task_status == TaskStatus::Ready {
                return Some(id);
            }
            id = id + 1;
        }
        let mut id: usize = 0;
        while id <= current
            invariant
                self.wf(),
                current == self.current(),
                id <= current + 1,
                forall|j: int|
                    current < j < self.statuses().len() ==> #[trigger] self.statuses()[j]
                        != TaskStatus::Ready,
                forall|j: int| 0 <= j < id ==> #[trigger] self.statuses()[j] != TaskStatus::Ready,
            decreases current + 1 - id,
        {
            if self.tasks[id].task_status == TaskStatus::Ready {
                return Some(id);
            }
            id = id + 1;
        }
        None
    }

    /// Makes the next ready task the running one and stamps its start time
    /// with `now_ms` if it has none yet. There must be a ready task.
    pub fn run_next_task(&mut self, now_ms: u64) -> (r: ContextSwitch)
        requires
            old(self).wf(),
            !none_ready(old(self).statuses()),
        ensures
            final(self).wf(),
            final(self).count() == old(self).count(),
            is_next_ready(old(self).statuses(), old(self).current(), r.to as int),
            r.from == Some(old(self).current() as usize),
            final(self).current() == r.to,
            final(self).tasks() == old(self).tasks().update(
                r.to as int,
                TaskControlBlock {
                    task_status: TaskStatus::Running,
                    start_time: if old(self).tasks()[r.to as int].start_time == 0 {
                        now_ms
                    } else {
                        old(self).tasks()[r.to as int].start_time
                    },
                    ..old(self).tasks()[r.to as int]
                },
            ),
    {
        let found = self.next_ready_task();
        let next = found.unwrap();
        let current = self.current_task;
        if self.tasks[next].start_time == 0 {
            self.tasks[next].start_time = now_ms;
        }
        self.tasks[next].task_status = TaskStatus::Running;
        self.current_task = next;
        proof {
            assert(self.tasks@ =~= old(self).tasks@.update(
                next as int,
                TaskControlBlock {
                    task_status: TaskStatus::Running,
                    start_time: if old(self).tasks@[next as int].start_time == 0 {
                        now_ms
                    } else {
                        old(self).tasks@[next as int].start_time
                    },
                    ..old(self).tasks@[next as int]
                },
            ));
        }
        ContextSwitch { from: Some(current), to: next }
    }

    /// Starts task 0: marks it running and stamps its start time with `now_ms`.
    pub fn run_first_task(&mut self, now_ms: u64) -> (r: ContextSwitch)
        requires
            old(self).wf(),
        ensures
            final(self).wf(),
            final(self).count() == old(self).count(),
            final(self).current() == old(self).current(),
            r == (ContextSwitch { from: None, to: 0 }),
            final(self).tasks() == old(self).tasks().update(
                0,
                TaskControlBlock {
                    task_status: TaskStatus::Running,
                    start_time: now_ms,
                    ..old(self).tasks()[0]
                },
            ),
    {
        self.tasks[0].task_status = TaskStatus::Running;
        self.tasks[0].start_time = now_ms;
        proof {
            assert(self.tasks@ =~= old(self).tasks@.update(
                0,
                TaskControlBlock {
                    task_status: TaskStatus::Running,
                    start_time: now_ms,
                    ..old(self).tasks@[0]
                },
            ));
        }
        ContextSwitch { from: None, to: 0 }
    }
}


/// The tasks `tasks` with the status of task `i` set to `status`.
pub open spec fn with_status(tasks: Seq<TaskControlBlock>, i: int, status: TaskStatus) -> Seq<
    TaskControlBlock,
> {
    tasks.update(i, TaskControlBlock { task_status: status, ..tasks[i] })
}

/// The tasks `tasks` with task `i` running, its start time stamped with
/// `now_ms` if it had none.
pub open spec fn started(tasks: Seq<TaskControlBlock>, i: int, now_ms: u64) -> Seq<
    TaskControlBlock,
> {
    tasks.update(
        i,
        TaskControlBlock {
            task_status: TaskStatus::Running,
            start_time: if tasks[i].start_time == 0 {
                now_ms
            } else {
                tasks[i].start_time
            },
            ..tasks[i]
        },
    )
}

/// The status of each of `tasks`.
pub open spec fn statuses_of(tasks: Seq<TaskControlBlock>) -> Seq<TaskStatus> {
    Seq::new(tasks.len(), |i: int| tasks[i].task_status)
}

/// Whether tasks `t1` differ from tasks `t0` in scheduling state only: the
/// address spaces, trap contexts and counters are the same.
pub open spec fn same_memory(t0: Seq<TaskControlBlock>, t1: Seq<TaskControlBlock>) -> bool {
    &&& t0.len() == t1.len()
    &&& forall|i: int|
        0 <= i < t0.len() ==> {
            &&& (#[trigger] t1[i]).memory_set == t0[i].memory_set
            &&& t1[i].trap_ctx_ppn == t0[i].trap_ctx_ppn
            &&& t1[i].syscall_count@.len() == t0[i].syscall_count@.len()
        }
}

/// What a task switch does: in tasks `tm0` the current task takes status
/// `status`, the next ready task after it becomes the running and current
/// one, with its start time stamped with `now_ms` if it had none; `tm1` is
/// the result, and `plan` tells which contexts to save and resume.
pub open spec fn switched(
    tm0: TaskManager,
    tm1: TaskManager,
    status: TaskStatus,
    now_ms: u64,
    plan: ContextSwitch,
) -> bool {
    &&& tm1.wf()
    &&& tm1.count() == tm0.count()
    &&& plan.from == Some(tm0.current() as usize)
    &&& is_next_ready(
        statuses_of(with_status(tm0.tasks(), tm0.current(), status)),
        tm0.current(),
        plan.to as int,
    )
    &&& tm1.current() == plan.to
    &&& tm1.tasks() == started(with_status(tm0.tasks(), tm0.current(), status), plan.to as int, now_ms)
    &&& same_memory(tm0.tasks(), tm1.tasks())
}

/// What counting a system call does: `tm1` is `tm0` with the counter of
/// call number `id` of the current task raised by one.
pub open spec fn counted(tm0: TaskManager, tm1: TaskManager, id: int) -> bool {
    &&& tm1.wf()
    &&& tm1.count() == tm0.count()
    &&& tm1.current() == tm0.current()
    &&& tm1.tasks() == tm0.tasks().update(
        tm0.current(),
        TaskControlBlock {
            syscall_count: tm1.tasks()[tm0.current()].syscall_count,
            ..tm0.tasks()[tm0.current()]
        },
    )
    &&& tm1.tasks()[tm0.current()].syscall_count@ == tm0.tasks()[tm0.current()].syscall_count@.update(
        id,
        (tm0.tasks()[tm0.current()].syscall_count@[id] + 1) as u32,
    )
    &&& same_memory(tm0.tasks(), tm1.tasks())
}

/// The current task gives up the processor but stays ready; the next ready
/// task, which may be the same one, becomes the running one.
pub fn suspend_current_and_run_next(tm: &mut TaskManager, now_ms: u64) -> (r: ContextSwitch)
    requires
        old(tm).wf(),
    ensures
        switched(*old(tm), *final(tm), TaskStatus::Ready, now_ms, r),
{
    tm.mark_current(TaskStatus::Ready);
    proof {
        assert(tm.statuses() =~= statuses_of(
            with_status(old(tm).tasks(), old(tm).current(), TaskStatus::Ready),
        ));
        assert(tm.statuses()[tm.current()] == TaskStatus::Ready);
    }
    tm.run_next_task(now_ms)
}

/// The current task ends; the next ready task becomes the running one.
/// There must be another task that is ready.
pub fn exit_current_and_run_next(tm: &mut TaskManager, now_ms: u64) -> (r: ContextSwitch)
    requires
        old(tm).wf(),
        !none_ready(statuses_of(with_status(old(tm).tasks(), old(tm).current(), TaskStatus::Exited))),
    ensures
        switched(*old(tm), *final(tm), TaskStatus::Exited, now_ms, r),
{
    tm.mark_current(TaskStatus::Exited);
    proof {
        assert(tm.statuses() =~= statuses_of(
            with_status(old(tm).tasks(), old(tm).current(), TaskStatus::Exited),
        ));
    }
    tm.run_next_task(now_ms)
}

/// The trap context of the current task, read from its frame.
pub fn current_trap_ctx(tm: &TaskManager, arena: &FrameArena) -> (r: TrapContext)
    requires
        tm.mem_wf(*arena),
    ensures
        r.stored_at(*arena, tm.tasks()[tm.current()].trap_ctx_ppn.0 as int),
{
    tm.tasks[tm.current_task].trap_ctx(arena)
}

/// The token of the address space of the current task.
pub fn current_user_satp(tm: &TaskManager) -> (r: u64)
    requires
        tm.wf(),
    ensures
        r == tm.tasks()[tm.current()].memory_set.table().spec_satp(),
{
    tm.tasks[tm.current_task].user_satp()
}

/// Starts the first task.
pub fn run_first_task(tm: &mut TaskManager, now_ms: u64) -> (r: ContextSwitch)
    requires
        old(tm).wf(),
    ensures
        final(tm).wf(),
        final(tm).count() == old(tm).count(),
        final(tm).current() == old(tm).current(),
        r == (ContextSwitch { from: None, to: 0 }),
        final(tm).tasks() == old(tm).tasks().update(
            0,
            TaskControlBlock {
                task_status: TaskStatus::Running,
                start_time: now_ms,
                ..old(tm).tasks()[0]
            },
        ),
        same_memory(old(tm).tasks(), final(tm).tasks()),
{
    tm.run_first_task(now_ms)
}

/// Copies the system call counters of the current task into `times`.
pub fn set_syscall_times(tm: &TaskManager, times: &mut Vec<u32>)
    requires
        tm.wf(),
        old(times)@.len() == MAX_SYSCALL_NUM,
    ensures
        final(times)@ == tm.tasks()[tm.current()].syscall_count@,
{
    let mut i: usize = 0;
    while i < MAX_SYSCALL_NUM
        invariant
            tm.wf(),
            i <= MAX_SYSCALL_NUM,
            times@.len() == MAX_SYSCALL_NUM,
            forall|j: int|
                0 <= j < i ==> #[trigger] times@[j] == tm.tasks()[tm.current()].syscall_count@[j],
        decreases MAX_SYSCALL_NUM - i,
    {
        let v: u32 = tm.tasks[tm.current_task].syscall_count[i];
        times.set(i, v);
        i = i + 1;
    }
    assert(times@ =~= tm.tasks()[tm.current()].syscall_count@);
}

/// Counts one more call of system call `syscall_id` for the current task.
pub fn incr_syscall_times(tm: &mut TaskManager, syscall_id: usize)
    requires
        old(tm).wf(),
        syscall_id < MAX_SYSCALL_NUM,
        old(tm).tasks()[old(tm).current()].syscall_count@[syscall_id as int] < u32::MAX,
    ensures
        counted(*old(tm), *final(tm), syscall_id as int),
{
    let curr = tm.current_task;
    let n: u32 = tm.tasks[curr].syscall_count[syscall_id];
    tm.tasks[curr].syscall_count.set(syscall_id, n + 1);
    proof {
        assert(tm.tasks@ =~= old(tm).tasks@.update(
            curr as int,
            TaskControlBlock {
                syscall_count: tm.tasks@[curr as int].syscall_count,
                ..old(tm).tasks@[curr as int]
            },
        ));
    }
}

/// When the current task first ran, in milliseconds.
pub fn start_time(tm: &TaskManager) -> (r: u64)
    requires
        tm.wf(),
    ensures
        r == tm.tasks()[tm.current()].start_time,
{
    tm.tasks[tm.current_task].start_time
}

/// Tasks that differ in scheduling state only stay consistent with the arena.
pub proof fn lemma_same_memory_keeps_wf(tm0: TaskManager, tm1: TaskManager, a: FrameArena)
    requires
        tm0.mem_wf(a),
        tm1.wf(),
        same_memory(tm0.tasks(), tm1.tasks()),
    ensures
        tm1.mem_wf(a),
{
    assert forall|i: int| 0 <= i < tm1.tasks().len() implies (#[trigger] tm1.tasks()[i]).wf(a) by {
        assert(tm0.tasks()[i].wf(a));
    }
    assert forall|i: int, j: int|
        0 <= i < tm1.tasks().len() && 0 <= j < tm1.tasks().len() && i != j implies (
    #[trigger] tm1.tasks()[i]).memory_set.owned().disjoint(
        (#[trigger] tm1.tasks()[j]).memory_set.owned(),
    ) by {
        assert(tm0.tasks()[i].memory_set.owned().disjoint(tm0.tasks()[j].memory_set.owned()));
    }
}

/// The pages that the `len` bytes from virtual address `start` on touch.
pub open spec fn byte_range(start: u64, len: u64) -> VpnRange {
    va_range(VirtAddr(start), VirtAddr((start + len) as u64))
}

/// What mapping `range` with permissions `perm` does to the current task:
/// tasks `tm0` over arena `a0` before, `tm1` over `a1` after. Only the
/// address space of the current task has changed, by one region.
pub open spec fn range_mapped(
    tm0: TaskManager,
    a0: FrameArena,
    tm1: TaskManager,
    a1: FrameArena,
    range: VpnRange,
    perm: MapPermission,
) -> bool {
    &&& tm1.mem_wf(a1)
    &&& only_memory_of(tm0.tasks(), tm1.tasks(), tm0.current())
    &&& region_added(
        tm0.tasks()[tm0.current()].memory_set,
        a0,
        tm1.tasks()[tm0.current()].memory_set,
        a1,
        range,
        MapType::Framed,
        perm,
    )
}

/// Whether `range` shares a page with one of `regions`.
pub open spec fn overlaps_any(regions: Seq<MapArea>, range: VpnRange) -> bool {
    exists|i: int|
        0 <= i < regions.len() && (#[trigger] regions[i]).vpn_range.spec_intersection(
            range,
        ).spec_len() > 0
}

/// Whether tasks `t1` are tasks `t0` with a new address space for task `cur`
/// and nothing else changed.
pub open spec fn only_memory_of(
    t0: Seq<TaskControlBlock>,
    t1: Seq<TaskControlBlock>,
    cur: int,
) -> bool {
    &&& 0 <= cur < t0.len()
    &&& t1 == t0.update(cur, TaskControlBlock { memory_set: t1[cur].memory_set, ..t0[cur] })
}

/// The address space of the current task grew by frames that were free, the
/// arena changed in frames of that address space only: all tasks are still
/// consistent and no frame belongs to two of them.
proof fn lemma_task_grew(
    tm0: TaskManager,
    tm1: TaskManager,
    a0: FrameArena,
    a1: FrameArena,
    changed: Set<int>,
)
    requires
        tm0.mem_wf(a0),
        tm1.count() == tm0.count(),
        tm1.current() == tm0.current(),
        only_memory_of(tm0.tasks(), tm1.tasks(), tm0.current()),
        tm1.tasks()[tm0.current()].memory_set.wf(a1),
        tm0.tasks()[tm0.current()].memory_set.regions().len() <= tm1.tasks()[tm0.current()].memory_set.regions().len(),
        forall|i: int|
            0 <= i < tm0.tasks()[tm0.current()].memory_set.regions().len()
                ==> #[trigger] tm1.tasks()[tm0.current()].memory_set.regions()[i]
                == tm0.tasks()[tm0.current()].memory_set.regions()[i],
        tm0.tasks()[tm0.current()].memory_set.owned().subset_of(
            tm1.tasks()[tm0.current()].memory_set.owned(),
        ),
        forall|p: int|
            tm1.tasks()[tm0.current()].memory_set.owned().contains(p) && !tm0.tasks()[tm0.current()].memory_set.owned().contains(
                p,
            ) ==> !a0.allocated().contains(p),
        a1.wf(),
        a1.allocated() == a0.allocated().union(tm1.tasks()[tm0.current()].memory_set.owned()),
        same_outside(a0, a1, changed),
        changed.subset_of(tm1.tasks()[tm0.current()].memory_set.owned()),
        nothing_stray(tm1.tasks()[tm0.current()].memory_set, a1),
    ensures
        tm1.mem_wf(a1),
{
    let cur = tm0.current();
    let t0 = tm0.tasks();
    let t1 = tm1.tasks();
    let ms1 = t1[cur].memory_set;
    assert forall|i: int| 0 <= i < t1.len() implies (#[trigger] t1[i]).wf(a1) && (i != cur
        ==> t1[i].memory_set.owned().disjoint(ms1.owned())) by {
        assert(t0[i].wf(a0));
        if i != cur {
            let ms = t0[i].memory_set;
            assert(t1[i] == t0[i]);
            assert(ms.owned().disjoint(t0[cur].memory_set.owned()));
            assert forall|p: int| ms.owned().contains(p) implies !ms1.owned().contains(p)
                && a1.allocated().contains(p) by {
                ms.lemma_owned_allocated(a0, p);
            }
            assert(changed.disjoint(ms.table().owned())) by {
                assert forall|p: int| changed.contains(p) implies !ms.table().owned().contains(
                    p,
                ) by {
                    if ms.table().owned().contains(p) {
                        assert(ms.owned().contains(p));
                    }
                }
            }
            ms.lemma_untouched(a0, a1, changed);
        }
    }
    assert forall|i: int, j: int|
        0 <= i < t1.len() && 0 <= j < t1.len() && i != j implies (
    #[trigger] t1[i]).memory_set.owned().disjoint((#[trigger] t1[j]).memory_set.owned()) by {
        if i != cur && j != cur {
            assert(t0[i].memory_set.owned().disjoint(t0[j].memory_set.owned()));
        } else if i == cur {
            assert(t1[j].memory_set.owned().disjoint(ms1.owned()));
        } else {
            assert(t1[i].memory_set.owned().disjoint(ms1.owned()));
        }
    }
    assert forall|i: int| 0 <= i < t1.len() implies (#[trigger] t1[i]).syscall_count@.len()
        == MAX_SYSCALL_NUM by {
        assert(t0[i].syscall_count@.len() == MAX_SYSCALL_NUM);
    }
}

/// Whether `range` shares a page with a region of the current task.
pub fn range_overlaps(tm: &TaskManager, range: &VpnRange) -> (r: bool)
    requires
        tm.wf(),
    ensures
        r == overlaps_any(tm.tasks()[tm.current()].memory_set.regions(), *range),
{
    let curr = tm.current_task;
    let ghost regions = tm.tasks@[curr as int].memory_set.regions();
    let n = tm.tasks[curr].memory_set.area_count();
    let mut i: usize = 0;
    while i < n
        invariant
            i <= n,
            n == regions.len(),
            curr == tm.current_task,
            curr < tm.tasks@.len(),
            regions == tm.tasks@[curr as int].memory_set.regions(),
            forall|j: int|
                0 <= j < i ==> (#[trigger] regions[j]).vpn_range.spec_intersection(*range).spec_len()
                    == 0,
        decreases n - i,
    {
        if !tm.tasks[curr].memory_set.area(i).intersection(range).is_empty() {
            assert(regions[i as int].vpn_range.spec_intersection(*range).spec_len() > 0);
            return true;
        }
        i = i + 1;
    }
    false
}

/// Whether `range` has at most 2^27 pages and none of them is mapped in the
/// address space of the current task.
pub fn range_clear(tm: &TaskManager, arena: &FrameArena, range: &VpnRange) -> (r: bool)
    requires
        tm.mem_wf(*arena),
    ensures
        r == (range.spec_len() <= VPN_SPACE && forall|v: int| #[trigger]
            range.spec_contains(v) ==> tm.tasks()[tm.current()].memory_set.translation(
                *arena,
                VirtPageNum(v as u64),
            ) is None),
{
    proof {
        assert(tm.tasks()[tm.current()].wf(*arena));
    }
    tm.tasks[tm.current_task].memory_set.is_clear(arena, range)
}

/// Maps `len` bytes from virtual address `start` on in the address space of
/// the current task, to fresh zeroed frames, with permissions `map_perm`.
/// Returns `false`, and changes nothing, if the pages that these addresses
/// touch share a page with an existing region. Otherwise none of the pages
/// may be mapped yet; the result is `true`, or an error if the arena runs
/// out of frames.
pub fn map_range(
    tm: &mut TaskManager,
    arena: &mut FrameArena,
    start: u64,
    len: u64,
    map_perm: MapPermission,
) -> (r: Result<bool, OutOfFrames>)
    requires
        old(tm).mem_wf(*old(arena)),
        start + len <= u64::MAX,
        !overlaps_any(
            old(tm).tasks()[old(tm).current()].memory_set.regions(),
            byte_range(start, len),
        ) ==> {
            &&& byte_range(start, len).spec_len() <= VPN_SPACE
            &&& forall|v: int| #[trigger]
                byte_range(start, len).spec_contains(v) ==> old(
                    tm,
                ).tasks()[old(tm).current()].memory_set.translation(
                    *old(arena),
                    VirtPageNum(v as u64),
                ) is None
        },
    ensures
        final(arena).wf(),
        final(tm).count() == old(tm).count(),
        final(tm).current() == old(tm).current(),
        r == Ok::<bool, OutOfFrames>(false) <==> overlaps_any(
            old(tm).tasks()[old(tm).current()].memory_set.regions(),
            byte_range(start, len),
        ),
        r == Ok::<bool, OutOfFrames>(false) ==> *final(tm) == *old(tm) && *final(arena) == *old(
            arena,
        ),
        old(arena).free_count() >= frames_missing(
            *old(arena),
            old(tm).tasks()[old(tm).current()].memory_set.table().root(),
            byte_range(start, len),
            MapType::Framed,
        ) ==> r is Ok,
        old(arena).free_count() >= frames_needed(byte_range(start, len), MapType::Framed)
            ==> r is Ok,
        r is Err ==> final(arena).free_count() == 0,
        r == Ok::<bool, OutOfFrames>(true) ==> range_mapped(
            *old(tm),
            *old(arena),
            *final(tm),
            *final(arena),
            byte_range(start, len),
            map_perm,
        ),
{
    let curr = tm.current_task;
    let end: u64 = start + len;
    let vpn_range = VpnRange { start: VirtAddr(start).floor(), end: VirtAddr(end).ceil() };
    assert(vpn_range == va_range(VirtAddr(start), VirtAddr(end)));
    if range_overlaps(tm, &vpn_range) {
        return Ok(false);
    }
    let ghost a0 = *arena;
    proof {
        assert(tm.tasks@[curr as int].wf(a0));
    }
    match tm.tasks[curr].memory_set.insert_framed_area(
        arena,
        VirtAddr(start),
        VirtAddr(end),
        map_perm,
    ) {
        Err(e) => Err(e),
        Ok(()) => {
            proof {
                let ms1 = tm.tasks@[curr as int].memory_set;
                let changed = ms1.table().owned().union(
                    frame_set(ms1.regions().last().data_frames@),
                );
                assert(changed.subset_of(ms1.owned())) by {
                    assert forall|p: int| changed.contains(p) implies ms1.owned().contains(p) by {
                        if frame_set(ms1.regions().last().data_frames@).contains(p) {
                            let k = choose|k: int|
                                0 <= k < ms1.regions().last().data_frames@.len()
                                    && #[trigger] ms1.regions().last().data_frames@[k].ppn.0 == p;
                            assert(ms1.regions()[ms1.regions().len() - 1].data_frames@[k].ppn.0
                                == p);
                        }
                    }
                }
                assert(tm.tasks@ =~= old(tm).tasks@.update(
                    curr as int,
                    TaskControlBlock { memory_set: ms1, ..old(tm).tasks@[curr as int] },
                ));
                lemma_added_nothing_stray(
                    old(tm).tasks@[curr as int].memory_set,
                    a0,
                    ms1,
                    *arena,
                    byte_range(start, len),
                    MapType::Framed,
                    map_perm,
                );
                lemma_task_grew(*old(tm), *tm, a0, *arena, changed);
            }
            Ok(true)
        },
    }
}


/// Whether all of region `area` lies in `range`, in the sense that its range
/// is its own intersection with `range`.
pub open spec fn is_covered(area: MapArea, range: VpnRange) -> bool {
    area.vpn_range.spec_intersection(range) == area.vpn_range
}

/// The test that a region is not covered by `range`.
pub open spec fn not_covered_by(range: VpnRange) -> spec_fn(MapArea) -> bool {
    |area: MapArea| !is_covered(area, range)
}

/// The regions of `regions` that `range` does not cover, in their order.
pub open spec fn kept_regions(regions: Seq<MapArea>, range: VpnRange) -> Seq<MapArea> {
    regions.filter(not_covered_by(range))
}

/// The number of pages in the regions of `regions` that `range` covers.
pub open spec fn covered_pages(regions: Seq<MapArea>, range: VpnRange) -> int
    decreases regions.len(),
{
    if regions.len() == 0 {
        0
    } else {
        covered_pages(regions.drop_last(), range) + if is_covered(regions.last(), range) {
            regions.last().vpn_range.end.0 - regions.last().vpn_range.start.0
        } else {
            0
        }
    }
}

/// The number of frames that back the regions of `regions` that `range`
/// covers: one for each page of a framed region.
pub open spec fn covered_frames(regions: Seq<MapArea>, range: VpnRange) -> int
    decreases regions.len(),
{
    if regions.len() == 0 {
        0
    } else {
        covered_frames(regions.drop_last(), range) + if is_covered(regions.last(), range) {
            regions.last().data_frames@.len() as int
        } else {
            0
        }
    }
}

/// The frames of the covered regions are at least those of any one of them.
pub proof fn lemma_covered_frames_lower(regions: Seq<MapArea>, range: VpnRange, i: int)
    requires
        0 <= i < regions.len(),
        is_covered(regions[i], range),
    ensures
        covered_frames(regions, range) >= regions[i].data_frames@.len(),
    decreases regions.len(),
{
    lemma_covered_frames_nonnegative(regions.drop_last(), range);
    if i < regions.len() - 1 {
        lemma_covered_frames_lower(regions.drop_last(), range, i);
    }
}

/// The frames of the covered regions are no negative number.
pub proof fn lemma_covered_frames_nonnegative(regions: Seq<MapArea>, range: VpnRange)
    ensures
        covered_frames(regions, range) >= 0,
    decreases regions.len(),
{
    if regions.len() > 0 {
        lemma_covered_frames_nonnegative(regions.drop_last(), range);
    }
}

/// Whether page `v` shares its table slot with a page of a region of
/// `regions` that `range` covers.
pub open spec fn in_covered(regions: Seq<MapArea>, range: VpnRange, v: VirtPageNum) -> bool {
    exists|i: int, w: int|
        0 <= i < regions.len() && is_covered(regions[i], range) && #[trigger] regions[i].covers(w)
            && VirtPageNum(w as u64).key() == v.key()
}

/// What removing region `idx` does to an address space: `ms` over arena `a`
/// before, `ms1` over `a1` after.
pub open spec fn area_removed(
    ms: MemorySet,
    a: FrameArena,
    ms1: MemorySet,
    a1: FrameArena,
    idx: int,
) -> bool {
    &&& ms1.wf(a1)
    &&& a1.first_frame() == a.first_frame()
    &&& a1.end_frame() == a.end_frame()
    &&& ms1.table() == ms.table()
    &&& ms1.regions() == ms.regions().remove(idx)
    &&& forall|k: int|
        0 <= k < ms.regions()[idx].vpn_range.spec_len() ==> ms1.translation(
            a1,
            #[trigger] nth_page(ms.regions()[idx].vpn_range.start, k),
        ) is None
    &&& forall|v: VirtPageNum|
        (forall|k: int|
            0 <= k < ms.regions()[idx].vpn_range.spec_len() ==> (#[trigger] nth_page(
                ms.regions()[idx].vpn_range.start,
                k,
            )).key() != v.key()) ==> #[trigger] ms1.translation(a1, v) == ms.translation(a, v)
    &&& a1.allocated() == a.allocated().difference(frame_set(ms.regions()[idx].data_frames@))
    &&& ms1.owned() == ms.owned().difference(frame_set(ms.regions()[idx].data_frames@))
    &&& a1.free_count() == a.free_count() + ms.regions()[idx].data_frames@.len()
    &&& same_outside(a, a1, ms1.table().owned())
    &&& tables_kept(a, a1, ms.table().root())
}

/// How far the unmapping of `range` in the current task's address space has
/// got: the first `k` regions that the task had in `tm0` have been looked
/// at, `i` of them were kept, and `count` pages were unmapped.
#[verifier::opaque]
pub open spec fn unmap_progress(
    tm0: TaskManager,
    a0: FrameArena,
    tm: TaskManager,
    a: FrameArena,
    range: VpnRange,
    k: int,
    i: int,
    count: int,
) -> bool {
    let cur = tm0.current();
    let ms0 = tm0.tasks()[cur].memory_set;
    let ms = tm.tasks()[cur].memory_set;
    let regions0 = ms0.regions();
    &&& tm0.mem_wf(a0)
    &&& tm.mem_wf(a)
    &&& tm.count() == tm0.count()
    &&& tm.current() == cur
    &&& only_memory_of(tm0.tasks(), tm.tasks(), cur)
    &&& ms.table() == ms0.table()
    &&& 0 <= k <= regions0.len()
    &&& i == kept_regions(regions0.take(k), range).len()
    &&& ms.regions() == kept_regions(regions0.take(k), range) + regions0.skip(k)
    &&& count == covered_pages(regions0.take(k), range)
    &&& 0 <= count <= k * VPN_SPACE
    &&& forall|v: VirtPageNum| #[trigger]
        ms.translation(a, v) == if in_covered(regions0.take(k), range, v) {
            None
        } else {
            ms0.translation(a0, v)
        }
    &&& same_outside(a0, a, ms0.table().owned())
    &&& ms.owned().subset_of(ms0.owned())
    &&& a.allocated() == a0.allocated().difference(ms0.owned().difference(ms.owned()))
    &&& a.free_count() == a0.free_count() + covered_frames(regions0.take(k), range)
    &&& tables_kept(a0, a, ms0.table().root())
}

/// Before any region has been looked at, nothing has changed.
proof fn lemma_unmap_start(tm0: TaskManager, a0: FrameArena, range: VpnRange)
    requires
        tm0.mem_wf(a0),
    ensures
        unmap_progress(tm0, a0, tm0, a0, range, 0, 0, 0),
{
    reveal(unmap_progress);
    reveal(Seq::filter);
    let cur = tm0.current();
    let ms0 = tm0.tasks()[cur].memory_set;
    let regions0 = ms0.regions();
    assert(regions0.take(0) =~= Seq::<MapArea>::empty());
    assert(kept_regions(regions0.take(0), range) =~= Seq::<MapArea>::empty());
    assert(ms0.regions() =~= kept_regions(regions0.take(0), range) + regions0.skip(0));
    assert(a0.allocated() =~= a0.allocated().difference(ms0.owned().difference(ms0.owned())));
    assert(tm0.tasks() =~= tm0.tasks().update(
        cur,
        TaskControlBlock { memory_set: ms0, ..tm0.tasks()[cur] },
    ));
}

/// What the progress says of the region to look at next.
proof fn lemma_unmap_next(
    tm0: TaskManager,
    a0: FrameArena,
    tm: TaskManager,
    a: FrameArena,
    range: VpnRange,
    k: int,
    i: int,
    count: int,
)
    requires
        unmap_progress(tm0, a0, tm, a, range, k, i, count),
    ensures
        tm.mem_wf(a),
        tm.current() == tm0.current(),
        0 <= k <= tm0.tasks()[tm0.current()].memory_set.regions().len(),
        tm.tasks()[tm0.current()].memory_set.regions().len() == i + tm0.tasks()[tm0.current()].memory_set.regions().len()
            - k,
        0 <= count <= k * VPN_SPACE,
        k < tm0.tasks()[tm0.current()].memory_set.regions().len() ==> {
            &&& tm.tasks()[tm0.current()].memory_set.regions()[i]
                == tm0.tasks()[tm0.current()].memory_set.regions()[k]
            &&& tm.tasks()[tm0.current()].memory_set.regions()[i].wf()
            &&& tm.tasks()[tm0.current()].memory_set.wf(a)
        },
{
    reveal(unmap_progress);
    let cur = tm0.current();
    let ms = tm.tasks()[cur].memory_set;
    let regions0 = tm0.tasks()[cur].memory_set.regions();
    assert(tm.tasks()[cur].wf(a));
    if k < regions0.len() {
        assert(ms.regions()[i] == regions0.skip(k)[0]);
        ms.lemma_region_wf(a, i);
    }
}

/// How the kept regions, the covered pages and the covered slots of the
/// first `k + 1` regions follow from those of the first `k`.
proof fn lemma_take_push(regions: Seq<MapArea>, range: VpnRange, k: int)
    requires
        0 <= k < regions.len(),
    ensures
        regions.take(k + 1) == regions.take(k).push(regions[k]),
        kept_regions(regions.take(k + 1), range) == if is_covered(regions[k], range) {
            kept_regions(regions.take(k), range)
        } else {
            kept_regions(regions.take(k), range).push(regions[k])
        },
        covered_pages(regions.take(k + 1), range) == covered_pages(regions.take(k), range)
            + if is_covered(regions[k], range) {
            regions[k].vpn_range.end.0 - regions[k].vpn_range.start.0
        } else {
            0
        },
        covered_frames(regions.take(k + 1), range) == covered_frames(regions.take(k), range)
            + if is_covered(regions[k], range) {
            regions[k].data_frames@.len() as int
        } else {
            0
        },
        forall|v: VirtPageNum| #[trigger]
            in_covered(regions.take(k + 1), range, v) <==> in_covered(regions.take(k), range, v) || (
            is_covered(regions[k], range) && exists|w: int| #[trigger]
                regions[k].covers(w) && VirtPageNum(w as u64).key() == v.key()),
{
    let t = regions.take(k);
    let t1 = regions.take(k + 1);
    assert(t1 =~= t.push(regions[k]));
    t.lemma_filter_push(regions[k], not_covered_by(range));
    assert(t1.drop_last() =~= t);
    assert forall|v: VirtPageNum| #[trigger]
        in_covered(t1, range, v) <==> in_covered(t, range, v) || (is_covered(regions[k], range)
            && exists|w: int| #[trigger]
            regions[k].covers(w) && VirtPageNum(w as u64).key() == v.key()) by {
        if in_covered(t, range, v) {
            let (i, w) = choose|i: int, w: int|
                0 <= i < t.len() && is_covered(t[i], range) && #[trigger] t[i].covers(w)
                    && VirtPageNum(w as u64).key() == v.key();
            assert(t1[i].covers(w));
        }
        if is_covered(regions[k], range) && exists|w: int| #[trigger]
            regions[k].covers(w) && VirtPageNum(w as u64).key() == v.key() {
            let w = choose|w: int| #[trigger]
                regions[k].covers(w) && VirtPageNum(w as u64).key() == v.key();
            assert(t1[k].covers(w));
        }
        if in_covered(t1, range, v) {
            let (i, w) = choose|i: int, w: int|
                0 <= i < t1.len() && is_covered(t1[i], range) && #[trigger] t1[i].covers(w)
                    && VirtPageNum(w as u64).key() == v.key();
            if i < k {
                assert(t[i].covers(w));
            } else {
                assert(regions[k].covers(w));
            }
        }
    }
}

/// Keeping a region that the range does not cover advances the progress.
proof fn lemma_unmap_keep(
    tm0: TaskManager,
    a0: FrameArena,
    tm: TaskManager,
    a: FrameArena,
    range: VpnRange,
    k: int,
    i: int,
    count: int,
)
    requires
        unmap_progress(tm0, a0, tm, a, range, k, i, count),
        k < tm0.tasks()[tm0.current()].memory_set.regions().len(),
        !is_covered(tm0.tasks()[tm0.current()].memory_set.regions()[k], range),
    ensures
        unmap_progress(tm0, a0, tm, a, range, k + 1, i + 1, count),
{
    reveal(unmap_progress);
    let cur = tm0.current();
    let regions0 = tm0.tasks()[cur].memory_set.regions();
    let ms = tm.tasks()[cur].memory_set;
    lemma_take_push(regions0, range, k);
    assert(ms.regions() =~= kept_regions(regions0.take(k + 1), range) + regions0.skip(k + 1));
}

/// Removing a region leaves nothing stray: if nothing was mapped in `ms`
/// over `a` beside the trampoline and its regions, nothing is in `ms1` over
/// `a1`, which is `ms` without region `idx`.
pub proof fn lemma_removed_nothing_stray(
    ms: MemorySet,
    a: FrameArena,
    ms1: MemorySet,
    a1: FrameArena,
    idx: int,
)
    requires
        0 <= idx < ms.regions().len(),
        area_removed(ms, a, ms1, a1, idx),
        nothing_stray(ms, a),
    ensures
        nothing_stray(ms1, a1),
{
    let gone = ms.regions()[idx].vpn_range;
    assert forall|v: VirtPageNum| (#[trigger] ms1.translation(a1, v)) is Some implies key_taken(
        ms1,
        v.key(),
    ) by {
        if exists|k: int|
            0 <= k < gone.spec_len() && (#[trigger] nth_page(gone.start, k)).key() == v.key() {
            let k = choose|k: int|
                0 <= k < gone.spec_len() && (#[trigger] nth_page(gone.start, k)).key() == v.key();
            lemma_same_key_same_walk(a1, ms1.table().root(), v, nth_page(gone.start, k));
            assert(ms1.translation(a1, nth_page(gone.start, k)) is None);
        } else {
            assert(ms1.translation(a1, v) == ms.translation(a, v));
            assert(key_taken(ms, v.key()));
            if v.key() != trampoline_vpn().key() {
                let (j, w) = choose|j: int, w: int|
                    0 <= j < ms.regions().len() && #[trigger] ms.regions()[j].covers(w)
                        && VirtPageNum(w as u64).key() == v.key();
                if j == idx {
                    assert(nth_page(gone.start, w - gone.start.0) == VirtPageNum(w as u64));
                } else if j < idx {
                    assert(ms1.regions()[j].covers(w));
                } else {
                    assert(ms1.regions()[j - 1].covers(w));
                }
            }
        }
    }
}

/// Unmapping leaves nothing stray: if nothing was mapped in `ms0` over `a0`
/// beside the trampoline and its regions, nothing is in `ms1` over `a1`,
/// which is `ms0` with `range` unmapped.
pub proof fn lemma_unmapped_nothing_stray(
    ms0: MemorySet,
    a0: FrameArena,
    ms1: MemorySet,
    a1: FrameArena,
    range: VpnRange,
)
    requires
        unmapped(ms0, a0, ms1, a1, range),
        nothing_stray(ms0, a0),
    ensures
        nothing_stray(ms1, a1),
{
    let regions0 = ms0.regions();
    let regions1 = ms1.regions();
    assert forall|v: VirtPageNum| (#[trigger] ms1.translation(a1, v)) is Some implies key_taken(
        ms1,
        v.key(),
    ) by {
        assert(!in_covered(regions0, range, v));
        assert(ms0.translation(a0, v) is Some);
        assert(key_taken(ms0, v.key()));
        if v.key() != trampoline_vpn().key() {
            let (j, w) = choose|j: int, w: int|
                0 <= j < regions0.len() && #[trigger] regions0[j].covers(w) && VirtPageNum(
                    w as u64,
                ).key() == v.key();
            assert(!is_covered(regions0[j], range));
            regions0.lemma_filter_contains(not_covered_by(range), j);
            let i = choose|i: int| 0 <= i < regions1.len() && regions1[i] == regions0[j];
            assert(regions1[i].covers(w));
        }
    }
}

/// After a region of the current task was removed, all tasks are still
/// consistent and no frame belongs to two of them.
proof fn lemma_task_shrank(
    tm: TaskManager,
    a: FrameArena,
    tm1: TaskManager,
    a1: FrameArena,
    idx: int,
)
    requires
        tm.mem_wf(a),
        tm1.count() == tm.count(),
        tm1.current() == tm.current(),
        only_memory_of(tm.tasks(), tm1.tasks(), tm.current()),
        0 <= idx < tm.tasks()[tm.current()].memory_set.regions().len(),
        area_removed(
            tm.tasks()[tm.current()].memory_set,
            a,
            tm1.tasks()[tm.current()].memory_set,
            a1,
            idx,
        ),
    ensures
        tm1.mem_wf(a1),
{
    let cur = tm.current();
    let t0 = tm.tasks();
    let t1 = tm1.tasks();
    let ms = t0[cur].memory_set;
    let ms1 = t1[cur].memory_set;
    ms1.lemma_arena_wf(a1);
    assert(t0[cur].wf(a));
    lemma_removed_nothing_stray(ms, a, ms1, a1, idx);
    assert forall|i: int| 0 <= i < t1.len() implies (#[trigger] t1[i]).wf(a1) && (i != cur
        ==> t1[i].memory_set.owned().disjoint(ms1.owned())) by {
        assert(t0[i].wf(a));
        if i != cur {
            let other = t0[i].memory_set;
            assert(t1[i] == t0[i]);
            assert(other.owned().disjoint(ms.owned()));
            assert forall|p: int| other.owned().contains(p) implies !ms1.owned().contains(p)
                && a1.allocated().contains(p) by {
                other.lemma_owned_allocated(a, p);
                if frame_set(ms.regions()[idx].data_frames@).contains(p) {
                    let n = choose|n: int|
                        0 <= n < ms.regions()[idx].data_frames@.len()
                            && #[trigger] ms.regions()[idx].data_frames@[n].ppn.0 == p;
                    assert(ms.data_frames().contains(p));
                }
            }
            assert(ms1.table().owned().disjoint(other.table().owned())) by {
                assert forall|p: int| ms1.table().owned().contains(p) implies !other.table().owned().contains(
                    p,
                ) by {
                    if other.table().owned().contains(p) {
                        assert(other.owned().contains(p));
                        assert(ms.owned().contains(p));
                    }
                }
            }
            other.lemma_untouched(a, a1, ms1.table().owned());
        }
    }
    assert forall|i: int, j: int|
        0 <= i < t1.len() && 0 <= j < t1.len() && i != j implies (
    #[trigger] t1[i]).memory_set.owned().disjoint((#[trigger] t1[j]).memory_set.owned()) by {
        if i != cur && j != cur {
            assert(t0[i].memory_set.owned().disjoint(t0[j].memory_set.owned()));
        } else if i == cur {
            assert(t1[j].memory_set.owned().disjoint(ms1.owned()));
        } else {
            assert(t1[i].memory_set.owned().disjoint(ms1.owned()));
        }
    }
    assert forall|i: int| 0 <= i < t1.len() implies (#[trigger] t1[i]).syscall_count@.len()
        == MAX_SYSCALL_NUM by {
        assert(t0[i].syscall_count@.len() == MAX_SYSCALL_NUM);
    }
}

/// Removing a region that the range covers advances the progress.
#[verifier::rlimit(80)]
proof fn lemma_unmap_remove(
    tm0: TaskManager,
    a0: FrameArena,
    tm: TaskManager,
    a: FrameArena,
    range: VpnRange,
    k: int,
    i: int,
    count: int,
    tm1: TaskManager,
    a1: FrameArena,
)
    requires
        unmap_progress(tm0, a0, tm, a, range, k, i, count),
        k < tm0.tasks()[tm0.current()].memory_set.regions().len(),
        is_covered(tm0.tasks()[tm0.current()].memory_set.regions()[k], range),
        tm1.count() == tm.count(),
        tm1.current() == tm.current(),
        only_memory_of(tm.tasks(), tm1.tasks(), tm.current()),
        area_removed(
            tm.tasks()[tm.current()].memory_set,
            a,
            tm1.tasks()[tm.current()].memory_set,
            a1,
            i,
        ),
    ensures
        unmap_progress(
            tm0,
            a0,
            tm1,
            a1,
            range,
            k + 1,
            i,
            count + tm0.tasks()[tm0.current()].memory_set.regions()[k].vpn_range.end.0
                - tm0.tasks()[tm0.current()].memory_set.regions()[k].vpn_range.start.0,
        ),
{
    lemma_unmap_next(tm0, a0, tm, a, range, k, i, count);
    reveal(unmap_progress);
    let cur = tm0.current();
    let ms0 = tm0.tasks()[cur].memory_set;
    let ms = tm.tasks()[cur].memory_set;
    let ms1 = tm1.tasks()[cur].memory_set;
    let regions0 = ms0.regions();
    let gone = regions0[k];
    let start = gone.vpn_range.start;
    lemma_take_push(regions0, range, k);
    lemma_task_shrank(tm, a, tm1, a1, i);
    assert(ms1.regions() =~= kept_regions(regions0.take(k + 1), range) + regions0.skip(k + 1));
    assert(gone.wf());
    assert(tm1.tasks() =~= tm0.tasks().update(
        cur,
        TaskControlBlock { memory_set: ms1, ..tm0.tasks()[cur] },
    ));
    assert forall|v: VirtPageNum| #[trigger]
        ms1.translation(a1, v) == if in_covered(regions0.take(k + 1), range, v) {
            None
        } else {
            ms0.translation(a0, v)
        } by {
        let hit = exists|w: int| #[trigger]
            gone.covers(w) && VirtPageNum(w as u64).key() == v.key();
        if hit {
            let w = choose|w: int| #[trigger]
                gone.covers(w) && VirtPageNum(w as u64).key() == v.key();
            let m = w - start.0;
            assert(nth_page(start, m) == VirtPageNum(w as u64));
            assert(ms1.translation(a1, nth_page(start, m)) is None);
            lemma_same_key_same_walk(a1, ms1.table().root(), v, nth_page(start, m));
        } else {
            assert forall|m: int| 0 <= m < gone.vpn_range.spec_len() implies (#[trigger] nth_page(
                start,
                m,
            )).key() != v.key() by {
                assert(gone.covers(start.0 + m));
            }
            assert(ms1.translation(a1, v) == ms.translation(a, v));
        }
    }
    assert forall|q: int| !ms0.table().owned().contains(q) implies #[trigger] a1.frame(q)
        == a0.frame(q) by {
        assert(a1.frame(q) == a.frame(q));
    }
    assert(a1.allocated() =~= a0.allocated().difference(ms0.owned().difference(ms1.owned()))) by {
        assert forall|p: int| ms.owned().contains(p) implies a.allocated().contains(p) by {
            ms.lemma_owned_allocated(a, p);
        }
    }
    assert(count + gone.vpn_range.end.0 - gone.vpn_range.start.0 <= (k + 1) * VPN_SPACE);
}

/// Once every region has been looked at, the range is unmapped.
proof fn lemma_unmap_finish(
    tm0: TaskManager,
    a0: FrameArena,
    tm: TaskManager,
    a: FrameArena,
    range: VpnRange,
    k: int,
    i: int,
    count: int,
)
    requires
        unmap_progress(tm0, a0, tm, a, range, k, i, count),
        k == tm0.tasks()[tm0.current()].memory_set.regions().len(),
    ensures
        tm.mem_wf(a),
        tm.count() == tm0.count(),
        tm.current() == tm0.current(),
        only_memory_of(tm0.tasks(), tm.tasks(), tm0.current()),
        unmapped(
            tm0.tasks()[tm0.current()].memory_set,
            a0,
            tm.tasks()[tm0.current()].memory_set,
            a,
            range,
        ),
        count == covered_pages(tm0.tasks()[tm0.current()].memory_set.regions(), range),
{
    reveal(unmap_progress);
    let cur = tm0.current();
    let regions0 = tm0.tasks()[cur].memory_set.regions();
    assert(regions0.take(k) =~= regions0);
    assert(kept_regions(regions0, range) + regions0.skip(k) =~= kept_regions(regions0, range));
}

/// What unmapping `range` does to an address space: `ms0` over arena `a0`
/// before, `ms1` over `a1` after. The regions that `range` covers are gone
/// and their pages unmapped, and their frames are free again; the tables
/// stay, and nothing else has changed.
pub open spec fn unmapped(
    ms0: MemorySet,
    a0: FrameArena,
    ms1: MemorySet,
    a1: FrameArena,
    range: VpnRange,
) -> bool {
    &&& ms1.table() == ms0.table()
    &&& ms1.regions() == kept_regions(ms0.regions(), range)
    &&& forall|v: VirtPageNum| #[trigger]
        ms1.translation(a1, v) == if in_covered(ms0.regions(), range, v) {
            None
        } else {
            ms0.translation(a0, v)
        }
    &&& same_outside(a0, a1, ms0.table().owned())
    &&& ms1.owned().subset_of(ms0.owned())
    &&& a1.allocated() == a0.allocated().difference(ms0.owned().difference(ms1.owned()))
    &&& a1.free_count() == a0.free_count() + covered_frames(ms0.regions(), range)
    &&& tables_kept(a0, a1, ms0.table().root())
}

/// Unmaps, in the address space of the current task, every region that lies
/// wholly within the pages touched by the `len` bytes from virtual address
/// `start` on, and gives its frames back. A region that only shares some
/// pages with them is left as it is. Returns whether the pages unmapped are
/// as many as the pages touched.
pub fn unmap_range(tm: &mut TaskManager, arena: &mut FrameArena, start: u64, len: u64) -> (r: bool)
    requires
        old(tm).mem_wf(*old(arena)),
        start + len <= u64::MAX,
    ensures
        final(tm).mem_wf(*final(arena)),
        final(tm).count() == old(tm).count(),
        final(tm).current() == old(tm).current(),
        only_memory_of(old(tm).tasks(), final(tm).tasks(), old(tm).current()),
        unmapped(
            old(tm).tasks()[old(tm).current()].memory_set,
            *old(arena),
            final(tm).tasks()[old(tm).current()].memory_set,
            *final(arena),
            byte_range(start, len),
        ),
        r == (covered_pages(
            old(tm).tasks()[old(tm).current()].memory_set.regions(),
            byte_range(start, len),
        ) == byte_range(start, len).spec_len()),
{
    let curr = tm.current_task;
    let end: u64 = start + len;
    let vpn_range = VpnRange { start: VirtAddr(start).floor(), end: VirtAddr(end).ceil() };
    let ghost tm0 = *tm;
    let ghost a0 = *arena;
    let ghost regions0 = tm0.tasks()[curr as int].memory_set.regions();
    let total: usize = tm.tasks[curr].memory_set.area_count();
    let mut unmaped_count: u128 = 0;
    let mut i: usize = 0;
    let ghost mut k: int = 0;
    proof {
        lemma_unmap_start(tm0, a0, vpn_range);
    }
    while i < tm.tasks[curr].memory_set.area_count()
        invariant
            curr == tm0.current(),
            curr == tm.current_task,
            curr < tm.tasks@.len(),
            regions0 == tm0.tasks()[curr as int].memory_set.regions(),
            regions0.len() == total,
            unmap_progress(tm0, a0, *tm, *arena, vpn_range, k, i as int, unmaped_count as int),
        decreases regions0.len() - k,
    {
        proof {
            lemma_unmap_next(tm0, a0, *tm, *arena, vpn_range, k, i as int, unmaped_count as int);
        }
        let area_range = tm.tasks[curr].memory_set.area(i).vpn_range;
        if tm.tasks[curr].memory_set.area(i).intersection(&vpn_range) == area_range {
            unmaped_count = unmaped_count + (area_range.end.0 - area_range.start.0) as u128;
            let ghost tm_before = *tm;
            let ghost a_before = *arena;
            tm.tasks[curr].memory_set.remove_area(arena, i);
            proof {
                let ms1 = tm.tasks@[curr as int].memory_set;
                assert(tm.tasks@ =~= tm_before.tasks@.update(
                    curr as int,
                    TaskControlBlock { memory_set: ms1, ..tm_before.tasks@[curr as int] },
                ));
                lemma_unmap_remove(
                    tm0,
                    a0,
                    tm_before,
                    a_before,
                    vpn_range,
                    k,
                    i as int,
                    (unmaped_count - (area_range.end.0 - area_range.start.0)) as int,
                    *tm,
                    *arena,
                );
                k = k + 1;
            }
        } else {
            proof {
                lemma_unmap_keep(tm0, a0, *tm, *arena, vpn_range, k, i as int, unmaped_count as int);
                k = k + 1;
            }
            i = i + 1;
        }
    }
    proof {
        lemma_unmap_next(tm0, a0, *tm, *arena, vpn_range, k, i as int, unmaped_count as int);
        lemma_unmap_finish(tm0, a0, *tm, *arena, vpn_range, k, i as int, unmaped_count as int);
    }
    unmaped_count == (vpn_range.end.0 - vpn_range.start.0) as u128
}


/// Writing into a frame that the arena has not handed out leaves every
/// task consistent and every address space as it was.
pub proof fn lemma_free_write_keeps_wf(tm: TaskManager, a0: FrameArena, a1: FrameArena, p: int)
    requires
        tm.mem_wf(a0),
        !a0.allocated().contains(p),
        a1.wf(),
        a1.allocation() == a0.allocation(),
        forall|q: int| q != p ==> #[trigger] a1.frame(q) == a0.frame(q),
    ensures
        tm.mem_wf(a1),
        forall|j: int, v: VirtPageNum|
            0 <= j < tm.tasks().len() ==> #[trigger] tm.tasks()[j].memory_set.translation(a1, v)
                == tm.tasks()[j].memory_set.translation(a0, v),
{
    let changed = set![p];
    assert forall|j: int| 0 <= j < tm.tasks().len() implies (#[trigger] tm.tasks()[j]).wf(a1) && (
    forall|v: VirtPageNum| #[trigger]
        tm.tasks()[j].memory_set.translation(a1, v) == tm.tasks()[j].memory_set.translation(
            a0,
            v,
        )) by {
        let ms = tm.tasks()[j].memory_set;
        assert(tm.tasks()[j].wf(a0));
        assert forall|q: int| ms.owned().contains(q) implies a1.allocated().contains(q) && q
            != p by {
            ms.lemma_owned_allocated(a0, q);
        }
        assert(changed.disjoint(ms.table().owned())) by {
            if ms.table().owned().contains(p) {
                assert(ms.owned().contains(p));
            }
        }
        ms.lemma_untouched(a0, a1, changed);
    }
}

/// Writing into a frame that backs a page of a task leaves every task
/// consistent and every address space as it was.
pub proof fn lemma_data_write_keeps_wf(
    tm: TaskManager,
    a0: FrameArena,
    a1: FrameArena,
    i: int,
    p: int,
)
    requires
        tm.mem_wf(a0),
        0 <= i < tm.tasks().len(),
        tm.tasks()[i].memory_set.data_frames().contains(p),
        a1.wf(),
        a1.allocation() == a0.allocation(),
        forall|q: int| q != p ==> #[trigger] a1.frame(q) == a0.frame(q),
    ensures
        tm.mem_wf(a1),
        forall|j: int, v: VirtPageNum|
            0 <= j < tm.tasks().len() ==> #[trigger] tm.tasks()[j].memory_set.translation(a1, v)
                == tm.tasks()[j].memory_set.translation(a0, v),
{
    let changed = set![p];
    let owner = tm.tasks()[i].memory_set;
    assert(tm.tasks()[i].wf(a0));
    owner.lemma_data_frame_not_table(a0, p);
    assert(owner.owned().contains(p));
    assert forall|j: int| 0 <= j < tm.tasks().len() implies (#[trigger] tm.tasks()[j]).wf(a1) && (
    forall|v: VirtPageNum| #[trigger]
        tm.tasks()[j].memory_set.translation(a1, v) == tm.tasks()[j].memory_set.translation(
            a0,
            v,
        )) by {
        let ms = tm.tasks()[j].memory_set;
        assert(tm.tasks()[j].wf(a0));
        if j != i {
            assert(ms.owned().disjoint(owner.owned()));
            assert(!ms.table().owned().contains(p)) by {
                if ms.table().owned().contains(p) {
                    assert(ms.owned().contains(p));
                }
            }
        }
        assert(changed.disjoint(ms.table().owned()));
        assert forall|q: int| ms.owned().contains(q) implies a1.allocated().contains(q) by {
            ms.lemma_owned_allocated(a0, q);
        }
        ms.lemma_untouched(a0, a1, changed);
    }
}

/// Whether a task other than the current one is ready, so that the current
/// one can end.
pub fn has_other_ready(tm: &TaskManager) -> (r: bool)
    requires
        tm.wf(),
    ensures
        r == !none_ready(statuses_of(with_status(tm.tasks(), tm.current(), TaskStatus::Exited))),
{
    let n = tm.num_app();
    let current = tm.current_task();
    let ghost after = statuses_of(with_status(tm.tasks(), tm.current(), TaskStatus::Exited));
    let mut i: usize = 0;
    while i < n
        invariant
            tm.wf(),
            i <= n,
            n == tm.count(),
            current == tm.current(),
            after == statuses_of(with_status(tm.tasks(), tm.current(), TaskStatus::Exited)),
            forall|j: int| 0 <= j < i ==> #[trigger] after[j] != TaskStatus::Ready,
        decreases n - i,
    {
        if i != current && tm.task_status(i) == TaskStatus::Ready {
            assert(after[i as int] == TaskStatus::Ready);
            return true;
        }
        i = i + 1;
    }
    false
}


/// Whether `range` holds some but not all of region `area`.
pub open spec fn partly_in(area: MapArea, range: VpnRange) -> bool {
    area.vpn_range.spec_intersection(range).spec_len() > 0 && !is_covered(area, range)
}

/// The pages of the regions among the first `k` of `regions` that `range` covers.
pub open spec fn covered_set(regions: Seq<MapArea>, range: VpnRange, k: int) -> Set<int> {
    Set::new(
        |v: int|
            exists|j: int| 0 <= j < k && is_covered(regions[j], range) && #[trigger] regions[j].covers(v),
    )
}

/// The pages of the covered regions are as many as `covered_pages` counts,
/// they lie in `range`, and none of them lies in a region that is not covered.
proof fn lemma_covered_count(ms: MemorySet, a: FrameArena, range: VpnRange, i: int, k: int)
    requires
        ms.wf(a),
        range.start.0 <= range.end.0,
        0 <= k <= ms.regions().len(),
        0 <= i < ms.regions().len(),
        !is_covered(ms.regions()[i], range),
    ensures
        covered_set(ms.regions(), range, k).finite(),
        covered_set(ms.regions(), range, k).len() == covered_pages(ms.regions().take(k), range),
        covered_set(ms.regions(), range, k).subset_of(
            vstd::set_lib::set_int_range(range.start.0 as int, range.end.0 as int),
        ),
        forall|v: int|
            covered_set(ms.regions(), range, k).contains(v) ==> !ms.regions()[i].covers(v),
    decreases k,
{
    let regions = ms.regions();
    let whole = vstd::set_lib::set_int_range(range.start.0 as int, range.end.0 as int);
    if k == 0 {
        assert(covered_set(regions, range, 0) =~= Set::<int>::empty());
        assert(regions.take(0) =~= Seq::<MapArea>::empty());
    } else {
        lemma_covered_count(ms, a, range, i, k - 1);
        lemma_take_push(regions, range, k - 1);
        ms.lemma_region_wf(a, k - 1);
        let before = covered_set(regions, range, k - 1);
        let area = regions[k - 1];
        if is_covered(area, range) {
            let pages = vstd::set_lib::set_int_range(
                area.vpn_range.start.0 as int,
                area.vpn_range.end.0 as int,
            );
            vstd::set_lib::lemma_int_range(
                area.vpn_range.start.0 as int,
                area.vpn_range.end.0 as int,
            );
            assert forall|v: int| pages.contains(v) implies !before.contains(v) && whole.contains(v)
                && !regions[i].covers(v) by {
                assert(regions[k - 1].covers(v));
                if before.contains(v) {
                    let j = choose|j: int|
                        0 <= j < k - 1 && is_covered(regions[j], range)
                            && #[trigger] regions[j].covers(v);
                    ms.lemma_regions_apart(a, j, k - 1, v, v);
                }
                if regions[i].covers(v) {
                    ms.lemma_regions_apart(a, i, k - 1, v, v);
                }
            }
            assert(before.disjoint(pages));
            assert(covered_set(regions, range, k) =~= before + pages) by {
                assert forall|v: int| covered_set(regions, range, k).contains(v) <==> (before
                    + pages).contains(v) by {
                    if before.contains(v) {
                        let j = choose|j: int|
                            0 <= j < k - 1 && is_covered(regions[j], range)
                                && #[trigger] regions[j].covers(v);
                        assert(regions[j].covers(v));
                    }
                    if pages.contains(v) {
                        assert(regions[k - 1].covers(v));
                    }
                    if covered_set(regions, range, k).contains(v) {
                        let j = choose|j: int|
                            0 <= j < k && is_covered(regions[j], range)
                                && #[trigger] regions[j].covers(v);
                        if j < k - 1 {
                            assert(regions[j].covers(v));
                        }
                    }
                }
            }
            vstd::set_lib::lemma_set_disjoint_lens(before, pages);
            vstd::set_lib::lemma_set_union_finite_iff(before, pages);
        } else {
            assert(covered_set(regions, range, k) =~= before) by {
                assert forall|v: int| covered_set(regions, range, k).contains(v)
                    <==> before.contains(v) by {
                    if before.contains(v) {
                        let j = choose|j: int|
                            0 <= j < k - 1 && is_covered(regions[j], range)
                                && #[trigger] regions[j].covers(v);
                        assert(regions[j].covers(v));
                    }
                    if covered_set(regions, range, k).contains(v) {
                        let j = choose|j: int|
                            0 <= j < k && is_covered(regions[j], range)
                                && #[trigger] regions[j].covers(v);
                        assert(regions[j].covers(v));
                    }
                }
            }
        }
    }
}

/// Unmapping fails, and leaves the region as it is, when the range holds
/// some but not all of a region: if `range` holds part of region `i` of
/// address space `ms0`, then the covered regions do not make up `range`,
/// so that `unmap_range` returns `false` and `sys_munmap` -1, and the
/// address space `ms1` after the unmapping still has the region, with every
/// page of it mapped as before.
pub proof fn law_partial_overlap_fails(
    ms0: MemorySet,
    a0: FrameArena,
    ms1: MemorySet,
    a1: FrameArena,
    range: VpnRange,
    i: int,
)
    requires
        ms0.wf(a0),
        range.start.0 <= range.end.0,
        0 <= i < ms0.regions().len(),
        partly_in(ms0.regions()[i], range),
        unmapped(ms0, a0, ms1, a1, range),
    ensures
        covered_pages(ms0.regions(), range) < range.spec_len(),
        ms1.regions().contains(ms0.regions()[i]),
        forall|v: int| #[trigger]
            ms0.regions()[i].covers(v) ==> ms1.translation(a1, VirtPageNum(v as u64)) == Some(
                ms0.regions()[i].entry_for(v),
            ),
{
    let regions = ms0.regions();
    let area = regions[i];
    let n = regions.len() as int;
    let whole = vstd::set_lib::set_int_range(range.start.0 as int, range.end.0 as int);
    lemma_covered_count(ms0, a0, range, i, n);
    assert(regions.take(n) =~= regions);
    vstd::set_lib::lemma_int_range(range.start.0 as int, range.end.0 as int);
    let covered = covered_set(regions, range, n);
    let shared = area.vpn_range.spec_intersection(range);
    let v0 = shared.start.0 as int;
    assert(area.covers(v0) && whole.contains(v0));
    assert(!covered.contains(v0));
    let more = covered.insert(v0);
    assert(more.subset_of(whole));
    vstd::set_lib::lemma_len_subset(more, whole);
    // the region stays
    regions.lemma_filter_contains(not_covered_by(range), i);
    // and its pages stay mapped
    ms0.lemma_region_wf(a0, i);
    assert forall|v: int| #[trigger] area.covers(v) implies ms1.translation(
        a1,
        VirtPageNum(v as u64),
    ) == Some(area.entry_for(v)) by {
        if in_covered(regions, range, VirtPageNum(v as u64)) {
            let (j, w) = choose|j: int, w: int|
                0 <= j < regions.len() && is_covered(regions[j], range)
                    && #[trigger] regions[j].covers(w) && VirtPageNum(w as u64).key()
                    == VirtPageNum(v as u64).key();
            ms0.lemma_regions_apart(a0, i, j, v, w);
        }
    }
}

/// Unmapping unmaps every page of every region that the range covers: if
/// `range` covers region `i` of address space `ms0`, then the address space
/// `ms1` after the unmapping holds nothing for the pages of that region.
pub proof fn law_covered_region_unmapped(
    ms0: MemorySet,
    a0: FrameArena,
    ms1: MemorySet,
    a1: FrameArena,
    range: VpnRange,
    i: int,
    v: int,
)
    requires
        0 <= i < ms0.regions().len(),
        is_covered(ms0.regions()[i], range),
        ms0.regions()[i].covers(v),
        unmapped(ms0, a0, ms1, a1, range),
    ensures
        ms1.translation(a1, VirtPageNum(v as u64)) is None,
{
    assert(ms0.regions()[i].covers(v));
    assert(in_covered(ms0.regions(), range, VirtPageNum(v as u64)));
}

} // verus!
