//! The task control block.

use vstd::prelude::*;
use crate::config::{
    kernel_stack_fits, kernel_stack_position, spec_kernel_stack_position, KERNEL_STACK_SIZE,
    MAX_SYSCALL_NUM, PAGE_SIZE, TRAMPOLINE, TRAP_CONTEXT,
};
use crate::mm::address::{PhysPageNum, VirtAddr, VirtPageNum};
use crate::mm::frame_allocator::FrameArena;
use crate::mm::image::{
    add_region, built, elf_loaded, elf_valid, frames_for, image_fits, image_mapped,
    lemma_placed_untouched, nothing_stray,
    segments_of, segments_placed, stack_top,
};
use crate::mm::memory_set::{
    frame_set, nth_page, region_added, trampoline_entry, trampoline_vpn, va_range, LoadError,
    MapArea,
    MapPermission, MapType, MemorySet, VpnRange, PERM_R, PERM_W,
};
use crate::mm::page_table::same_outside;
use crate::mm::elf::spec_header;
use crate::task::context::TaskContext;
use crate::trap::context::{init_context_word, TrapContext};

verus! {

/// Where a task is in its life.
#[derive(Clone, Copy, Debug, PartialEq, Eq, Structural)]
pub enum TaskStatus {
    UnInit,
    Ready,
    Running,
    Exited,
}

/// The number of the page that holds the trap context in every user address space.
pub open spec fn trap_ctx_vpn() -> int {
    (TRAP_CONTEXT / PAGE_SIZE) as int
}

/// Whether region `i` of `regions` is a framed region that holds the
/// trap-context page and backs it with frame `ppn`.
pub open spec fn backs_trap_ctx(regions: Seq<MapArea>, i: int, ppn: PhysPageNum) -> bool {
    &&& 0 <= i < regions.len()
    &&& regions[i].covers(trap_ctx_vpn())
    &&& regions[i].map_type == MapType::Framed
    &&& regions[i].frame_of(trap_ctx_vpn()) == ppn.0
}

/// A frame that backs the trap-context page of a consistent address space
/// is one of the frames of its regions.
pub proof fn lemma_backing_frame(ms: MemorySet, a: FrameArena, i: int, ppn: PhysPageNum)
    requires
        ms.wf(a),
        backs_trap_ctx(ms.regions(), i, ppn),
    ensures
        ms.data_frames().contains(ppn.0 as int),
        ms.owned().contains(ppn.0 as int),
        a.contains(ppn.0 as int),
{
    ms.lemma_region_wf(a, i);
    let n = trap_ctx_vpn() - ms.regions()[i].vpn_range.start.0;
    assert(ms.regions()[i].data_frames@[n].ppn.0 == ppn.0);
    assert(ms.owned().contains(ppn.0 as int));
    ms.lemma_owned_allocated(a, ppn.0 as int);
}

/// What the boot code knows of the machine and of the kernel image.
#[derive(Clone, Copy, Debug, PartialEq, Eq, Structural)]
pub struct BootInfo {
    /// The frame of the trap entry code.
    pub trampoline: PhysPageNum,
    /// The value of the status register.
    pub sstatus: u64,
    /// The address of the trap handler of the kernel.
    pub trap_handler: u64,
    /// The address of the code that returns to user mode.
    pub trap_return: u64,
}

/// The pages of the kernel stack of task `app_id`.
pub open spec fn kernel_stack_range(app_id: usize) -> VpnRange {
    va_range(
        VirtAddr(spec_kernel_stack_position(app_id).0),
        VirtAddr(spec_kernel_stack_position(app_id).1),
    )
}

/// What creating task `app_id` from the image `data` gives: the kernel
/// address space `ks0` over arena `a0` before; the block `tcb`, the kernel
/// address space `ks1` and arena `a1` after.
pub open spec fn task_created(
    data: Seq<u8>,
    app_id: usize,
    boot: BootInfo,
    ks0: MemorySet,
    a0: FrameArena,
    tcb: TaskControlBlock,
    ks1: MemorySet,
    a1: FrameArena,
) -> bool {
    let stack = spec_kernel_stack_position(app_id);
    let ms = tcb.memory_set;
    let p = tcb.trap_ctx_ppn.0 as int;
    // the block
    &&& tcb.wf(a1)
    &&& tcb.task_status == TaskStatus::Ready
    &&& tcb.start_time == 0
    &&& tcb.base_size == stack_top(segments_of(data))
    &&& tcb.syscall_count@ == Seq::new(MAX_SYSCALL_NUM as nat, |i: int| 0u32)
    &&& tcb.task_ctx.ra == boot.trap_return
    &&& tcb.task_ctx.sp == stack.1
    &&& tcb.task_ctx.s@ == Seq::new(12, |i: int| 0u64)
    // its address space
    &&& image_mapped(data, ms)
    &&& segments_placed(data, segments_of(data), ms, a1)
    &&& ms.translation(a1, trampoline_vpn()) == Some(trampoline_entry(boot.trampoline))
    &&& backs_trap_ctx(ms.regions(), ms.regions().len() - 1, tcb.trap_ctx_ppn)
    // its trap context
    &&& forall|i: int|
        0 <= i < 37 ==> #[trigger] a1.word(p, i) == init_context_word(
            spec_header(data).entry,
            stack_top(segments_of(data)) as u64,
            boot.sstatus,
            ks0.table().spec_satp(),
            stack.1,
            boot.trap_handler,
            i,
        )
    // the kernel address space, with the kernel stack of the task
    &&& ks1.wf(a1)
    &&& ks1.table().root() == ks0.table().root()
    &&& ks1.regions().len() == ks0.regions().len() + 1
    &&& forall|i: int|
        0 <= i < ks0.regions().len() ==> #[trigger] ks1.regions()[i] == ks0.regions()[i]
    &&& ks1.regions().last().vpn_range == kernel_stack_range(app_id)
    &&& ks1.regions().last().map_type == MapType::Framed
    &&& ks1.regions().last().map_perm == (MapPermission { bits: PERM_R | PERM_W })
    &&& forall|v: VirtPageNum|
        (forall|k: int|
            0 <= k < kernel_stack_range(app_id).spec_len() ==> (#[trigger] nth_page(
                kernel_stack_range(app_id).start,
                k,
            )).key() != v.key()) ==> #[trigger] ks1.translation(a1, v) == ks0.translation(a0, v)
    // the frames
    &&& a1.free_count() >= a0.free_count() - frames_for(data) - 6
    &&& forall|q: int| ms.owned().contains(q) ==> !a0.allocated().contains(q)
    &&& ks0.owned().subset_of(ks1.owned())
    &&& forall|q: int|
        ks1.owned().contains(q) && !ks0.owned().contains(q) ==> !a0.allocated().contains(q)
    &&& ms.owned().disjoint(ks1.owned())
    &&& a1.allocated() == a0.allocated().union(ms.owned()).union(ks1.owned())
    &&& same_outside(a0, a1, ms.owned().union(ks1.owned()))
}

/// Everything the kernel keeps about one task.
pub struct TaskControlBlock {
    /// The registers to resume the task's kernel side with.
    pub task_ctx: TaskContext,
    pub task_status: TaskStatus,
    /// The task's address space.
    pub memory_set: MemorySet,
    /// The frame that holds the task's trap context.
    pub trap_ctx_ppn: PhysPageNum,
    /// The size of the task's image, user stack included.
    pub base_size: u64,
    /// How often the task has made each system call.
    pub syscall_count: Vec<u32>,
    /// When the task first ran, in milliseconds; 0 while it has not run.
    pub start_time: u64,
}

impl TaskControlBlock {
    /// The block is consistent with arena `a`: its address space is, and
    /// nothing is mapped in it beside the trampoline and the pages of its
    /// regions; the frame in which its trap context was put is a frame of
    /// the arena, and it has a counter for every system call number. The
    /// task may have unmapped the page of its trap context; the frame is
    /// then no longer its own.
    pub open spec fn wf(&self, a: FrameArena) -> bool {
        &&& self.memory_set.wf(a)
        &&& nothing_stray(self.memory_set, a)
        &&& a.contains(self.trap_ctx_ppn.0 as int)
        &&& self.syscall_count@.len() == MAX_SYSCALL_NUM
    }

    /// Whether the frame of the trap context still backs a page of a region
    /// of the task.
    pub open spec fn owns_trap_ctx(&self) -> bool {
        self.memory_set.data_frames().contains(self.trap_ctx_ppn.0 as int)
    }

    /// Whether the frame of the trap context still backs a page of a region
    /// of the task.
    pub fn has_trap_ctx(&self) -> (r: bool)
        ensures
            r == self.owns_trap_ctx(),
    {
        self.memory_set.has_data_frame(self.trap_ctx_ppn)
    }

    /// Creates task `app_id` from its ELF image `elf_data`: builds its
    /// address space, adds its kernel stack to the kernel address space
    /// `kernel_space`, and writes its first trap context. The task is ready
    /// and has not run.
    pub fn new(
        arena: &mut FrameArena,
        kernel_space: &mut MemorySet,
        elf_data: &[u8],
        app_id: usize,
        boot: &BootInfo,
    ) -> (r: Result<TaskControlBlock, LoadError>)
        requires
            old(kernel_space).wf(*old(arena)),
        ensures
            final(arena).wf(),
            final(arena).first_frame() == old(arena).first_frame(),
            final(arena).end_frame() == old(arena).end_frame(),
            r matches Err(LoadError::InvalidElf) <==> !elf_valid(elf_data@),
            r matches Err(LoadError::InvalidElf) ==> *final(arena) == *old(arena) && *final(kernel_space) == *old(kernel_space),
            r matches Err(LoadError::OutOfFrames) ==> final(arena).free_count() == 0,
            elf_valid(elf_data@) && image_fits(elf_data@) && kernel_stack_fits(app_id) && old(
                kernel_space,
            ).clear(*old(arena), kernel_stack_range(app_id)) && old(arena).free_count()
                >= frames_for(elf_data@) + 6 ==> r is Ok,
            r matches Ok(tcb) ==> task_created(
                elf_data@,
                app_id,
                *boot,
                *old(kernel_space),
                *old(arena),
                tcb,
                *final(kernel_space),
                *final(arena),
            ),
    {
        let ghost a0 = *arena;
        let ghost ks0 = *kernel_space;
        proof {
            ks0.lemma_arena_wf(a0);
        }
        let (memory_set, user_sp, entry_point) = match MemorySet::from_elf(
            arena,
            elf_data,
            boot.trampoline,
        ) {
            Err(e) => {
                return Err(e);
            },
            Ok(loaded) => loaded,
        };
        let ghost a_e = *arena;
        proof {
            lemma_loaded_beside(elf_data@, boot.trampoline, a0, memory_set, a_e, ks0);
            if kernel_stack_fits(app_id) && ks0.clear(a0, kernel_stack_range(app_id)) {
                assert forall|v: int| #[trigger]
                    kernel_stack_range(app_id).spec_contains(v) implies ks0.translation(
                    a_e,
                    VirtPageNum(v as u64),
                ) is None by {
                    assert(ks0.translation(a_e, VirtPageNum(v as u64)) == ks0.translation(
                        a0,
                        VirtPageNum(v as u64),
                    ));
                }
                assert(ks0.clear(a_e, kernel_stack_range(app_id)));
            }
        }
        let trap_ctx_ppn = memory_set.translate(arena, VirtAddr(TRAP_CONTEXT).floor()).unwrap().ppn();
        if app_id as u64 > (TRAMPOLINE - KERNEL_STACK_SIZE) / (KERNEL_STACK_SIZE + PAGE_SIZE) {
            return Err(LoadError::BadLayout);
        }
        let (kernel_stack_top, kernel_stack_bottom) = kernel_stack_position(app_id);
        let stack_range = VpnRange {
            start: VirtAddr(kernel_stack_top).floor(),
            end: VirtAddr(kernel_stack_bottom).ceil(),
        };
        match add_region(
            kernel_space,
            arena,
            stack_range,
            MapType::Framed,
            MapPermission { bits: PERM_R | PERM_W },
        ) {
            Err(e) => {
                return Err(e);
            },
            Ok(()) => {},
        }
        let ghost a_k = *arena;
        let ghost ks1 = *kernel_space;
        proof {
            lemma_stack_beside(
                elf_data@,
                boot.trampoline,
                a0,
                memory_set,
                a_e,
                ks0,
                ks1,
                a_k,
                stack_range,
            );
        }
        let task_control_block = TaskControlBlock {
            task_status: TaskStatus::Ready,
            task_ctx: TaskContext::goto_trap_return(kernel_stack_bottom, boot.trap_return),
            memory_set,
            trap_ctx_ppn,
            base_size: user_sp,
            syscall_count: vec![0u32; 500],
            start_time: 0,
        };
        let trap_ctx = TrapContext::app_init_context(
            entry_point,
            user_sp,
            boot.sstatus,
            kernel_space.satp(),
            kernel_stack_bottom,
            boot.trap_handler,
        );
        proof {
            a_k.lemma_allocated_contained(trap_ctx_ppn.0 as int);
        }
        trap_ctx.store(arena, trap_ctx_ppn);
        proof {
            assert(task_control_block.syscall_count@ =~= Seq::new(
                MAX_SYSCALL_NUM as nat,
                |i: int| 0u32,
            ));
            lemma_ctx_stored(
                elf_data@,
                task_control_block.memory_set,
                trap_ctx_ppn,
                ks1,
                a_k,
                *arena,
            );
            assert forall|q: int|
                !task_control_block.memory_set.owned().union(ks1.owned()).contains(
                    q,
                ) implies #[trigger] arena.frame(q) == a0.frame(q) by {
                assert(arena.frame(q) == a_k.frame(q));
            }
            assert forall|v: VirtPageNum|
                (forall|k: int|
                    0 <= k < kernel_stack_range(app_id).spec_len() ==> (#[trigger] nth_page(
                        kernel_stack_range(app_id).start,
                        k,
                    )).key() != v.key()) implies #[trigger] ks1.translation(*arena, v)
                == ks0.translation(a0, v) by {
                assert(ks1.translation(*arena, v) == ks1.translation(a_k, v));
                assert(ks1.translation(a_k, v) == ks0.translation(a_e, v));
                assert(ks0.translation(a_e, v) == ks0.translation(a0, v));
            }
        }
        Ok(task_control_block)
    }

    /// The trap context of the task, read from its frame.
    pub fn trap_ctx(&self, arena: &FrameArena) -> (r: TrapContext)
        requires
            self.wf(*arena),
        ensures
            r.stored_at(*arena, self.trap_ctx_ppn.0 as int),
    {
        proof {
            self.memory_set.lemma_arena_wf(*arena);
        }
        TrapContext::load(arena, self.trap_ctx_ppn)
    }

    /// The token of the task's address space.
    pub fn user_satp(&self) -> (r: u64)
        ensures
            r == self.memory_set.table().spec_satp(),
    {
        self.memory_set.satp()
    }
}


/// An address space just loaded lies beside a kernel address space that was
/// consistent before: the kernel address space still is, the two share no
/// frame, and the last region of the loaded one backs the trap context.
proof fn lemma_loaded_beside(
    data: Seq<u8>,
    trampoline: PhysPageNum,
    a0: FrameArena,
    ms: MemorySet,
    a_e: FrameArena,
    ks: MemorySet,
)
    requires
        ks.wf(a0),
        image_mapped(data, ms),
        built(a0, ms, a_e, trampoline),
    ensures
        ks.wf(a_e),
        forall|v: VirtPageNum| #[trigger] ks.translation(a_e, v) == ks.translation(a0, v),
        ms.owned().disjoint(ks.owned()),
        ms.translation(a_e, VirtAddr(TRAP_CONTEXT).spec_floor()) is Some,
        backs_trap_ctx(
            ms.regions(),
            ms.regions().len() - 1,
            ms.translation(a_e, VirtAddr(TRAP_CONTEXT).spec_floor()).unwrap().spec_ppn(),
        ),
        a_e.allocated().contains(
            ms.translation(a_e, VirtAddr(TRAP_CONTEXT).spec_floor()).unwrap().spec_ppn().0 as int,
        ),
        forall|j: int| 0 <= j < ms.regions().len() ==> (#[trigger] ms.regions()[j]).map_type == MapType::Framed,
{
    assert forall|q: int| ks.owned().contains(q) implies a0.allocated().contains(q)
        && !ms.owned().contains(q) && a_e.allocated().contains(q) by {
        ks.lemma_owned_allocated(a0, q);
    }
    assert(ms.owned().disjoint(ks.table().owned())) by {
        assert forall|q: int| ms.owned().contains(q) implies !ks.table().owned().contains(q) by {
            if ks.table().owned().contains(q) {
                assert(ks.owned().contains(q));
            }
        }
    }
    ks.lemma_untouched(a0, a_e, ms.owned());
    let last = ms.regions().len() - 1;
    assert(ms.regions()[last].covers(trap_ctx_vpn()));
    ms.lemma_framed_page(a_e, last, trap_ctx_vpn());
    assert(VirtAddr(TRAP_CONTEXT).spec_floor() == VirtPageNum(trap_ctx_vpn() as u64));
    let f = ms.regions()[last].frame_of(trap_ctx_vpn());
    ms.lemma_owned_allocated(a_e, f);
}

/// Adding the kernel stack of a task to the kernel address space leaves
/// the address space of the task as it was loaded.
proof fn lemma_stack_beside(
    data: Seq<u8>,
    trampoline: PhysPageNum,
    a0: FrameArena,
    ms: MemorySet,
    a_e: FrameArena,
    ks0: MemorySet,
    ks1: MemorySet,
    a_k: FrameArena,
    range: VpnRange,
)
    requires
        ks0.wf(a0),
        ks0.wf(a_e),
        elf_loaded(data, trampoline, a0, ms, a_e, stack_top(segments_of(data)) as u64, spec_header(data).entry),
        ms.owned().disjoint(ks0.owned()),
        region_added(
            ks0,
            a_e,
            ks1,
            a_k,
            range,
            MapType::Framed,
            MapPermission { bits: PERM_R | PERM_W },
        ),
        forall|j: int| 0 <= j < ms.regions().len() ==> (#[trigger] ms.regions()[j]).map_type == MapType::Framed,
    ensures
        ms.wf(a_k),
        a_k.wf(),
        segments_placed(data, segments_of(data), ms, a_k),
        forall|v: VirtPageNum| #[trigger] ms.translation(a_k, v) == ms.translation(a_e, v),
        ms.owned().disjoint(ks1.owned()),
        forall|q: int| ms.owned().contains(q) ==> !a0.allocated().contains(q),
        ks0.owned().subset_of(ks1.owned()),
        forall|q: int|
            ks1.owned().contains(q) && !ks0.owned().contains(q) ==> !a0.allocated().contains(q),
        a_k.allocated() == a0.allocated().union(ms.owned()).union(ks1.owned()),
        same_outside(a0, a_k, ms.owned().union(ks1.owned())),
{
    ks1.lemma_arena_wf(a_k);
    let changed = ks1.table().owned().union(frame_set(ks1.regions().last().data_frames@));
    assert(changed.subset_of(ks1.owned())) by {
        assert forall|q: int| changed.contains(q) implies ks1.owned().contains(q) by {
            if frame_set(ks1.regions().last().data_frames@).contains(q) {
                let n = choose|n: int|
                    0 <= n < ks1.regions().last().data_frames@.len()
                        && #[trigger] ks1.regions().last().data_frames@[n].ppn.0 == q;
                assert(ks1.regions()[ks1.regions().len() - 1].data_frames@[n].ppn.0 == q);
                assert(ks1.data_frames().contains(q));
            }
        }
    }
    assert forall|q: int| ms.owned().contains(q) implies !ks1.owned().contains(q)
        && a_k.allocated().contains(q) && a_e.allocated().contains(q) by {
        ms.lemma_owned_allocated(a_e, q);
    }
    assert(changed.disjoint(ms.table().owned())) by {
        assert forall|q: int| changed.contains(q) implies !ms.table().owned().contains(q) by {
            if ms.table().owned().contains(q) {
                assert(ms.owned().contains(q));
            }
        }
    }
    ms.lemma_untouched(a_e, a_k, changed);
    assert forall|j: int, n: int|
        0 <= j < segments_of(data).len() && 0 <= n < ms.regions()[j].data_frames@.len() implies a_k.frame(
        (#[trigger] ms.regions()[j].data_frames@[n]).ppn.0 as int,
    ) == a_e.frame(ms.regions()[j].data_frames@[n].ppn.0 as int) by {
        let q = ms.regions()[j].data_frames@[n].ppn.0 as int;
        assert(ms.data_frames().contains(q));
        assert(ms.owned().contains(q));
        assert(!changed.contains(q));
    }
    lemma_placed_untouched(data, segments_of(data), ms, a_e, a_k);
    assert forall|q: int| ks0.owned().contains(q) implies a0.allocated().contains(q) by {
        ks0.lemma_owned_allocated(a0, q);
    }
    assert(a_k.allocated() =~= a0.allocated().union(ms.owned()).union(ks1.owned()));
    assert forall|q: int| !ms.owned().union(ks1.owned()).contains(q) implies #[trigger] a_k.frame(
        q,
    ) == a0.frame(q) by {
        assert(!changed.contains(q));
        assert(a_k.frame(q) == a_e.frame(q));
        assert(a_e.frame(q) == a0.frame(q));
    }
}

/// Writing the trap context of a task into its frame leaves the address
/// space of the task and that of the kernel consistent, and the segments
/// of the task where they were placed.
proof fn lemma_ctx_stored(
    data: Seq<u8>,
    ms: MemorySet,
    ppn: PhysPageNum,
    ks: MemorySet,
    a: FrameArena,
    a1: FrameArena,
)
    requires
        ms.wf(a),
        ks.wf(a),
        image_mapped(data, ms),
        segments_placed(data, segments_of(data), ms, a),
        backs_trap_ctx(ms.regions(), ms.regions().len() - 1, ppn),
        ms.owned().disjoint(ks.owned()),
        a1.wf(),
        a1.allocation() == a.allocation(),
        forall|q: int| q != ppn.0 ==> #[trigger] a1.frame(q) == a.frame(q),
        forall|j: int| 0 <= j < ms.regions().len() ==> (#[trigger] ms.regions()[j]).map_type == MapType::Framed,
    ensures
        ms.wf(a1),
        ks.wf(a1),
        segments_placed(data, segments_of(data), ms, a1),
        forall|v: VirtPageNum| #[trigger] ms.translation(a1, v) == ms.translation(a, v),
        forall|v: VirtPageNum| #[trigger] ks.translation(a1, v) == ks.translation(a, v),
        ms.owned().contains(ppn.0 as int),
        a1.contains(ppn.0 as int),
{
    let p = ppn.0 as int;
    let last = ms.regions().len() - 1;
    let changed = set![p];
    ms.lemma_region_wf(a, last);
    let n = trap_ctx_vpn() - ms.regions()[last].vpn_range.start.0;
    assert(ms.regions()[last].data_frames@[n].ppn.0 == p);
    assert(ms.data_frames().contains(p));
    assert(ms.owned().contains(p));
    ms.lemma_owned_allocated(a, p);
    ms.lemma_data_frame_not_table(a, p);
    assert forall|q: int| ms.owned().contains(q) implies a1.allocated().contains(q) by {
        ms.lemma_owned_allocated(a, q);
    }
    assert forall|q: int| ks.owned().contains(q) implies a1.allocated().contains(q) by {
        ks.lemma_owned_allocated(a, q);
    }
    assert(!ks.table().owned().contains(p)) by {
        if ks.table().owned().contains(p) {
            assert(ks.owned().contains(p));
        }
    }
    ms.lemma_untouched(a, a1, changed);
    ks.lemma_untouched(a, a1, changed);
    assert forall|j: int, m: int|
        0 <= j < segments_of(data).len() && 0 <= m < ms.regions()[j].data_frames@.len() implies a1.frame(
        (#[trigger] ms.regions()[j].data_frames@[m]).ppn.0 as int,
    ) == a.frame(ms.regions()[j].data_frames@[m].ppn.0 as int) by {
        ms.lemma_data_frames_distinct(a, j, m, last, n);
    }
    lemma_placed_untouched(data, segments_of(data), ms, a, a1);
}

} // verus!
