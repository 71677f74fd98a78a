use os4::config::{kernel_stack_position, MAX_SYSCALL_NUM, PAGE_SIZE, TRAMPOLINE, TRAP_CONTEXT};
use os4::mm::address::{PhysPageNum, VirtAddr, VirtPageNum};
use os4::mm::frame_allocator::FrameArena;
use os4::mm::image::KernelLayout;
use os4::mm::memory_set::{
    LoadError, MapPermission, MapType, MemorySet, VpnRange, PERM_R, PERM_U, PERM_W, PERM_X,
};
use os4::mm::page_table::{PTEFlags, PTE_V};
use os4::syscall::memory::{sys_mmap, sys_munmap};
use os4::syscall::process::{
    check_user_buffer, sys_exit, sys_get_time, sys_task_info, sys_yield, TaskInfo, TimeVal,
};
use os4::syscall::{
    syscall, KernelPanic, SyscallOutcome, SYSCALL_EXIT, SYSCALL_GET_TIME, SYSCALL_MMAP,
    SYSCALL_MUNMAP, SYSCALL_TASK_INFO, SYSCALL_YIELD,
};
use os4::task::tcb::BootInfo;
use os4::task::{
    current_trap_ctx, current_user_satp, exit_current_and_run_next, has_other_ready,
    incr_syscall_times, map_range, range_clear, range_overlaps, run_first_task,
    set_syscall_times, start_time, suspend_current_and_run_next, unmap_range, ContextSwitch,
    TaskControlBlock, TaskManager, TaskStatus,
};
use os4::trap::context::TrapContext;
use os4::trap::{
    handle_trap, init, set_kernel_trap_entry, set_user_trap_entry, to_register, trap_cause,
    trap_from_kernel, trap_handler, trap_return, TrapCause, TrapOutcome,
};

const CODE_VA: u64 = 0x1_0000;
const DATA_VA: u64 = 0x1_2000;

fn put(bytes: &mut Vec<u8>, at: usize, value: u64, len: usize) {
    bytes[at..at + len].copy_from_slice(&value.to_le_bytes()[..len]);
}

/// An image with the given entry and segments: address, flags, bytes, size in memory.
fn elf(entry: u64, segments: &[(u64, u32, Vec<u8>, u64)]) -> Vec<u8> {
    let mut bytes = vec![0u8; 64 + 56 * segments.len()];
    bytes[0..4].copy_from_slice(&[0x7f, 0x45, 0x4c, 0x46]);
    put(&mut bytes, 24, entry, 8);
    put(&mut bytes, 32, 64, 8);
    put(&mut bytes, 54, 56, 2);
    put(&mut bytes, 56, segments.len() as u64, 2);
    for (i, (vaddr, flags, data, mem_size)) in segments.iter().enumerate() {
        let at = 64 + 56 * i;
        let offset = bytes.len() as u64;
        put(&mut bytes, at, 1, 4);
        put(&mut bytes, at + 4, *flags as u64, 4);
        put(&mut bytes, at + 8, offset, 8);
        put(&mut bytes, at + 16, *vaddr, 8);
        put(&mut bytes, at + 32, data.len() as u64, 8);
        put(&mut bytes, at + 40, *mem_size, 8);
        bytes.extend_from_slice(data);
    }
    bytes
}

/// An application with a page of code and two pages of data.
fn app() -> Vec<u8> {
    elf(
        CODE_VA + 4,
        &[(CODE_VA, 5, vec![0x13, 0x00, 0x00, 0x00, 0x73], 0x1000), (DATA_VA, 6, vec![9; 10], 0x2000)],
    )
}

fn layout() -> KernelLayout {
    KernelLayout {
        stext: 0x8020_0000,
        etext: 0x8020_3000,
        srodata: 0x8020_3000,
        erodata: 0x8020_4000,
        sdata: 0x8020_4000,
        edata: 0x8020_5000,
        sbss_with_stack: 0x8020_5000,
        ebss: 0x8021_0000,
        ekernel: 0x8021_0000,
        memory_end: 0x8031_0000,
        strampoline: 0x8020_1000,
    }
}

fn boot_info() -> BootInfo {
    BootInfo {
        trampoline: PhysPageNum(0x80201),
        sstatus: 0x8000_0000_0000_0122,
        trap_handler: 0x8020_0400,
        trap_return: 0x8020_0800,
    }
}

fn boot(apps: usize) -> (FrameArena, MemorySet, TaskManager) {
    let (mut arena, mut kernel_space) = os4::mm::init(&layout()).unwrap();
    let images: Vec<Vec<u8>> = (0..apps).map(|_| app()).collect();
    let tm = TaskManager::load(&mut arena, &mut kernel_space, &images, &boot_info()).unwrap();
    (arena, kernel_space, tm)
}

/// The bytes at a user address of the current task.
fn user_bytes(tm: &TaskManager, arena: &FrameArena, va: u64, len: usize) -> Vec<u8> {
    let ms = &tm.task(tm.current_task()).memory_set;
    let entry = ms.translate(arena, VirtAddr(va).floor()).unwrap();
    arena.load(entry.ppn(), (va % PAGE_SIZE) as usize, len)
}

fn flags_at(tm: &TaskManager, arena: &FrameArena, va: u64) -> Option<u8> {
    let ms = &tm.task(tm.current_task()).memory_set;
    ms.translate(arena, VirtAddr(va).floor()).map(|e| e.flags().bits)
}

/// A manager of three tasks with the given statuses.
fn manager_of(statuses: [TaskStatus; 3]) -> (FrameArena, TaskManager) {
    let (mut arena, mut kernel_space) = os4::mm::init(&layout()).unwrap();
    let mut tasks = Vec::new();
    for (i, status) in statuses.iter().enumerate() {
        let mut tcb =
            TaskControlBlock::new(&mut arena, &mut kernel_space, &app(), i, &boot_info()).unwrap();
        tcb.task_status = *status;
        tasks.push(tcb);
    }
    (arena, TaskManager::new(tasks))
}

#[test]
fn kernel_space_maps_the_image_to_itself() {
    let (arena, kernel_space) = os4::mm::init(&layout()).unwrap();
    assert_eq!(kernel_space.area_count(), 5);
    assert_eq!(
        kernel_space.area_range(0),
        VpnRange { start: VirtPageNum(0x80200), end: VirtPageNum(0x80203) }
    );
    assert_eq!(
        kernel_space.area_range(4),
        VpnRange { start: VirtPageNum(0x80210), end: VirtPageNum(0x80310) }
    );
    assert_eq!(kernel_space.area(0).map_type, MapType::Identical);
    let text = kernel_space.translate(&arena, VirtPageNum(0x80201)).unwrap();
    assert_eq!(text.ppn(), PhysPageNum(0x80201));
    assert_eq!(text.flags().bits, PERM_R | PERM_X | PTE_V);
    let rodata = kernel_space.translate(&arena, VirtPageNum(0x80203)).unwrap();
    assert_eq!(rodata.flags().bits, PERM_R | PTE_V);
    let memory = kernel_space.translate(&arena, VirtPageNum(0x8030f)).unwrap();
    assert_eq!(memory.ppn(), PhysPageNum(0x8030f));
    assert_eq!(memory.flags().bits, PERM_R | PERM_W | PTE_V);
    let trampoline = kernel_space.translate(&arena, VirtAddr(TRAMPOLINE).floor()).unwrap();
    assert_eq!(trampoline.ppn(), PhysPageNum(0x80201));
    assert_eq!(kernel_space.translate(&arena, VirtPageNum(0x80310)), None);
    assert!(arena.has_frame(PhysPageNum(0x80210)));
    assert!(!arena.has_frame(PhysPageNum(0x8020f)));
}

#[test]
fn init_rejects_memory_that_ends_before_the_kernel() {
    let mut bad = layout();
    bad.memory_end = 0x8020_0000;
    assert_eq!(os4::mm::init(&bad).err(), Some(LoadError::BadLayout));
    let mut clash = layout();
    clash.srodata = 0x8020_2000;
    assert_eq!(os4::mm::init(&clash).err(), Some(LoadError::BadLayout));
    let mut reversed = layout();
    reversed.etext = 0x8010_0000;
    assert_eq!(os4::mm::init(&reversed).err(), Some(LoadError::BadLayout));
}

#[test]
fn image_is_loaded_segment_by_segment() {
    let mut arena = FrameArena::new(PhysPageNum(0x80210), PhysPageNum(0x80250));
    let (ms, user_sp, entry) =
        MemorySet::from_elf(&mut arena, &app(), PhysPageNum(0x80201)).unwrap();
    assert_eq!(entry, CODE_VA + 4);
    // segments end at page 0x14, then a guard page, then two pages of stack
    assert_eq!(user_sp, 0x1_7000);
    assert_eq!(ms.area_count(), 4);
    assert_eq!(ms.area_range(0), VpnRange { start: VirtPageNum(0x10), end: VirtPageNum(0x11) });
    assert_eq!(ms.area(0).map_perm, MapPermission { bits: PERM_U | PERM_R | PERM_X });
    assert_eq!(ms.area_range(1), VpnRange { start: VirtPageNum(0x12), end: VirtPageNum(0x14) });
    assert_eq!(ms.area(1).map_perm, MapPermission { bits: PERM_U | PERM_R | PERM_W });
    assert_eq!(ms.area_range(2), VpnRange { start: VirtPageNum(0x15), end: VirtPageNum(0x17) });
    assert_eq!(ms.area(2).map_perm, MapPermission { bits: PERM_U | PERM_R | PERM_W });
    assert_eq!(
        ms.area_range(3),
        VpnRange { start: VirtAddr(TRAP_CONTEXT).floor(), end: VirtAddr(TRAMPOLINE).floor() }
    );
    assert_eq!(ms.area(3).map_perm, MapPermission { bits: PERM_R | PERM_W });
    // the guard page is not mapped
    assert_eq!(ms.translate(&arena, VirtPageNum(0x14)), None);
    let code = ms.translate(&arena, VirtPageNum(0x10)).unwrap();
    assert_eq!(arena.load(code.ppn(), 0, 8), vec![0x13, 0, 0, 0, 0x73, 0, 0, 0]);
    let data = ms.translate(&arena, VirtPageNum(0x12)).unwrap();
    assert_eq!(arena.load(data.ppn(), 0, 12), vec![9, 9, 9, 9, 9, 9, 9, 9, 9, 9, 0, 0]);
    let tail = ms.translate(&arena, VirtPageNum(0x13)).unwrap();
    assert_eq!(arena.load(tail.ppn(), 0, 4096), vec![0u8; 4096]);
    let trampoline = ms.translate(&arena, VirtAddr(TRAMPOLINE).floor()).unwrap();
    assert_eq!(trampoline.ppn(), PhysPageNum(0x80201));
    assert_eq!(trampoline.flags(), PTEFlags { bits: PERM_R | PERM_X | PTE_V });
}

#[test]
fn segment_bytes_land_at_their_address_within_the_page() {
    let mut arena = FrameArena::new(PhysPageNum(0x80210), PhysPageNum(0x80250));
    let image = elf(0x2_0ffe, &[(0x2_0ffe, 7, vec![1, 2, 3, 4], 4)]);
    let (ms, _, _) = MemorySet::from_elf(&mut arena, &image, PhysPageNum(0x80201)).unwrap();
    assert_eq!(ms.area_range(0), VpnRange { start: VirtPageNum(0x20), end: VirtPageNum(0x22) });
    let first = ms.translate(&arena, VirtPageNum(0x20)).unwrap();
    assert_eq!(arena.load(first.ppn(), 0xffc, 4), vec![0, 0, 1, 2]);
    let second = ms.translate(&arena, VirtPageNum(0x21)).unwrap();
    assert_eq!(arena.load(second.ppn(), 0, 4), vec![3, 4, 0, 0]);
}

#[test]
fn bad_images_are_rejected() {
    let mut arena = FrameArena::new(PhysPageNum(0x80210), PhysPageNum(0x80250));
    let free = arena.free_frames();
    let mut no_magic = app();
    no_magic[1] = 0;
    assert_eq!(
        MemorySet::from_elf(&mut arena, &no_magic, PhysPageNum(0x80201)).err(),
        Some(LoadError::InvalidElf)
    );
    assert_eq!(
        MemorySet::from_elf(&mut arena, &[0x7f, 0x45], PhysPageNum(0x80201)).err(),
        Some(LoadError::InvalidElf)
    );
    let mut cut = app();
    cut.truncate(cut.len() - 1);
    assert_eq!(
        MemorySet::from_elf(&mut arena, &cut, PhysPageNum(0x80201)).err(),
        Some(LoadError::InvalidElf)
    );
    let mut too_many = app();
    too_many[56] = 3;
    assert_eq!(
        MemorySet::from_elf(&mut arena, &too_many, PhysPageNum(0x80201)).err(),
        Some(LoadError::InvalidElf)
    );
    assert_eq!(arena.free_frames(), free);
    let overlapping =
        elf(0, &[(0x1_0000, 5, vec![1], 0x2000), (0x1_1000, 6, vec![2], 0x1000)]);
    assert_eq!(
        MemorySet::from_elf(&mut arena, &overlapping, PhysPageNum(0x80201)).err(),
        Some(LoadError::BadLayout)
    );
    let mut small = FrameArena::new(PhysPageNum(0x80210), PhysPageNum(0x80214));
    assert_eq!(
        MemorySet::from_elf(&mut small, &app(), PhysPageNum(0x80201)).err(),
        Some(LoadError::OutOfFrames)
    );
}

#[test]
fn new_task_is_ready_with_its_first_trap_context() {
    let (mut arena, mut kernel_space) = os4::mm::init(&layout()).unwrap();
    let regions = kernel_space.area_count();
    let tcb =
        TaskControlBlock::new(&mut arena, &mut kernel_space, &app(), 1, &boot_info()).unwrap();
    assert_eq!(tcb.task_status, TaskStatus::Ready);
    assert_eq!(tcb.start_time, 0);
    assert_eq!(tcb.base_size, 0x1_7000);
    assert_eq!(tcb.syscall_count, vec![0u32; MAX_SYSCALL_NUM]);
    let (low, high) = kernel_stack_position(1);
    assert_eq!(tcb.task_ctx.ra, 0x8020_0800);
    assert_eq!(tcb.task_ctx.sp, high);
    assert_eq!(tcb.task_ctx.s, [0u64; 12]);
    assert_eq!(kernel_space.area_count(), regions + 1);
    assert_eq!(
        kernel_space.area_range(regions),
        VpnRange { start: VirtAddr(low).floor(), end: VirtAddr(high).floor() }
    );
    assert_eq!(kernel_space.area(regions).map_perm, MapPermission { bits: PERM_R | PERM_W });
    assert_eq!(
        tcb.memory_set.translate(&arena, VirtAddr(TRAP_CONTEXT).floor()).unwrap().ppn(),
        tcb.trap_ctx_ppn
    );
    let ctx = tcb.trap_ctx(&arena);
    let mut x = [0u64; 32];
    x[2] = 0x1_7000;
    assert_eq!(ctx.x, x);
    // the previous privilege is user mode: bit 8 is clear
    assert_eq!(ctx.sstatus, 0x8000_0000_0000_0022);
    assert_eq!(ctx.sepc, CODE_VA + 4);
    assert_eq!(ctx.kernel_satp, kernel_space.satp());
    assert_eq!(ctx.kernel_sp, high);
    assert_eq!(ctx.trap_handler, 0x8020_0400);
    assert_eq!(tcb.user_satp(), tcb.memory_set.satp());
    assert_eq!(
        TaskControlBlock::new(&mut arena, &mut kernel_space, &[1, 2, 3], 2, &boot_info()).err(),
        Some(LoadError::InvalidElf)
    );
    // the kernel stack of task 1 is there already
    assert_eq!(
        TaskControlBlock::new(&mut arena, &mut kernel_space, &app(), 1, &boot_info()).err(),
        Some(LoadError::BadLayout)
    );
}

#[test]
fn trap_context_survives_store_and_load() {
    let mut arena = FrameArena::new(PhysPageNum(0x80210), PhysPageNum(0x80212));
    let frame = arena.frame_alloc().unwrap();
    let mut ctx = TrapContext::app_init_context(1, 2, 0x1ff, 4, 5, 6);
    ctx.x[17] = 124;
    ctx.store(&mut arena, frame.ppn);
    let back = TrapContext::load(&arena, frame.ppn);
    assert_eq!(back.x, ctx.x);
    assert_eq!(
        (back.sstatus, back.sepc, back.kernel_satp, back.kernel_sp, back.trap_handler),
        (0xff, 1, 4, 5, 6)
    );
    assert_eq!(arena.read_word(frame.ppn, 17), 124);
    assert_eq!(arena.read_word(frame.ppn, 33), 1);
    assert_eq!(arena.read_word(frame.ppn, 37), 0);
    assert_eq!(ctx.word(2), 2);
    assert_eq!(ctx.word(36), 6);
}

#[test]
fn scheduler_skips_the_exited_task() {
    let (_arena, mut tm) =
        manager_of([TaskStatus::Ready, TaskStatus::Exited, TaskStatus::Ready]);
    assert_eq!(tm.current_task(), 0);
    assert_eq!(tm.next_ready_task(), Some(2));
    let plan = tm.run_next_task(40);
    assert_eq!(plan, ContextSwitch { from: Some(0), to: 2 });
    assert_eq!(tm.current_task(), 2);
    assert_eq!(tm.task_status(2), TaskStatus::Running);
    assert_eq!(tm.task(2).start_time, 40);
    // from task 2 the scan wraps around to task 0
    assert_eq!(tm.next_ready_task(), Some(0));
}

#[test]
fn no_task_is_picked_when_all_have_exited() {
    let (mut arena, mut tm) =
        manager_of([TaskStatus::Exited, TaskStatus::Exited, TaskStatus::Exited]);
    assert_eq!(tm.next_ready_task(), None);
    assert!(!has_other_ready(&tm));
    assert_eq!(
        handle_trap(&mut tm, &mut arena, TrapCause::StoreFault, 1, 1000),
        TrapOutcome::Panic(KernelPanic::AllTasksCompleted)
    );
}

#[test]
fn suspended_task_runs_again_when_it_is_alone() {
    let (_arena, _ks, mut tm) = boot(1);
    assert_eq!(run_first_task(&mut tm, 7), ContextSwitch { from: None, to: 0 });
    assert_eq!(tm.task_status(0), TaskStatus::Running);
    assert_eq!(start_time(&tm), 7);
    let plan = suspend_current_and_run_next(&mut tm, 9);
    assert_eq!(plan, ContextSwitch { from: Some(0), to: 0 });
    assert_eq!(tm.task_status(0), TaskStatus::Running);
    // the start time is stamped once
    assert_eq!(start_time(&tm), 7);
    assert!(!has_other_ready(&tm));
}

#[test]
fn tasks_take_turns() {
    let (_arena, _ks, mut tm) = boot(3);
    assert_eq!(tm.num_app(), 3);
    run_first_task(&mut tm, 1);
    assert_eq!(suspend_current_and_run_next(&mut tm, 2).to, 1);
    assert_eq!(tm.task_status(0), TaskStatus::Ready);
    assert_eq!(tm.task_status(1), TaskStatus::Running);
    assert_eq!(suspend_current_and_run_next(&mut tm, 3).to, 2);
    assert_eq!(exit_current_and_run_next(&mut tm, 4), ContextSwitch { from: Some(2), to: 0 });
    assert_eq!(tm.task_status(2), TaskStatus::Exited);
    assert_eq!(suspend_current_and_run_next(&mut tm, 5).to, 1);
    assert_eq!(suspend_current_and_run_next(&mut tm, 6).to, 0);
    assert_eq!(tm.task(1).start_time, 2);
    assert_eq!(tm.task(2).start_time, 3);
    assert_eq!(start_time(&tm), 1);
    tm.mark_current(TaskStatus::Exited);
    assert_eq!(tm.task_status(0), TaskStatus::Exited);
}

#[test]
fn system_calls_are_counted_per_task() {
    let (_arena, _ks, mut tm) = boot(2);
    run_first_task(&mut tm, 1);
    incr_syscall_times(&mut tm, 169);
    incr_syscall_times(&mut tm, 169);
    incr_syscall_times(&mut tm, 0);
    let mut times = vec![7u32; MAX_SYSCALL_NUM];
    set_syscall_times(&tm, &mut times);
    assert_eq!(times[169], 2);
    assert_eq!(times[0], 1);
    assert_eq!(times.iter().sum::<u32>(), 3);
    suspend_current_and_run_next(&mut tm, 2);
    set_syscall_times(&tm, &mut times);
    assert_eq!(times, vec![0u32; MAX_SYSCALL_NUM]);
}

#[test]
fn current_task_is_known_by_token_and_trap_context() {
    let (arena, _ks, mut tm) = boot(2);
    run_first_task(&mut tm, 1);
    let first = current_user_satp(&tm);
    assert_eq!(first, tm.task(0).memory_set.satp());
    assert_eq!(current_trap_ctx(&tm, &arena).sepc, CODE_VA + 4);
    suspend_current_and_run_next(&mut tm, 2);
    assert_eq!(current_user_satp(&tm), tm.task(1).memory_set.satp());
    assert!(first != current_user_satp(&tm));
    assert_eq!(current_trap_ctx(&tm, &arena).kernel_sp, kernel_stack_position(1).1);
}

#[test]
fn mmap_rejects_bad_arguments_and_overlap() {
    let (mut arena, _ks, mut tm) = boot(1);
    let areas = tm.task(0).memory_set.area_count();
    let free = arena.free_frames();
    // not the start of a page
    assert_eq!(sys_mmap(&mut tm, &mut arena, 0x10_0001, 4096, 3), Ok(-1));
    // a bit beyond the lowest three
    assert_eq!(sys_mmap(&mut tm, &mut arena, 0x10_0000, 4096, 8), Ok(-1));
    assert_eq!(sys_mmap(&mut tm, &mut arena, 0x10_0000, 4096, 0x13), Ok(-1));
    // none of the lowest three
    assert_eq!(sys_mmap(&mut tm, &mut arena, 0x10_0000, 4096, 0), Ok(-1));
    // the data segment is there
    assert_eq!(sys_mmap(&mut tm, &mut arena, 0x1_1000, 0x2000, 3), Ok(-1));
    assert_eq!(tm.task(0).memory_set.area_count(), areas);
    assert_eq!(arena.free_frames(), free);
}

#[test]
fn mmap_grants_what_the_port_asks() {
    let (mut arena, _ks, mut tm) = boot(1);
    for port in 1..8u64 {
        let start = 0x10_0000 * port;
        assert_eq!(sys_mmap(&mut tm, &mut arena, start, 0x1801, port), Ok(0));
        let expected = PERM_U | PTE_V | ((port as u8) << 1);
        assert_eq!(flags_at(&tm, &arena, start), Some(expected));
        assert_eq!(flags_at(&tm, &arena, start + 0x1000), Some(expected));
        assert_eq!(flags_at(&tm, &arena, start + 0x2000), None);
        assert_eq!(user_bytes(&tm, &arena, start + 0x1000, 4096), vec![0u8; 4096]);
    }
    // mapping nothing succeeds and maps nothing
    assert_eq!(sys_mmap(&mut tm, &mut arena, 0x4000_0000, 0, 1), Ok(0));
    assert_eq!(flags_at(&tm, &arena, 0x4000_0000), None);
    // a second mapping of the same pages is rejected
    assert_eq!(sys_mmap(&mut tm, &mut arena, 0x10_1000, 0x1000, 1), Ok(-1));
}

#[test]
fn munmap_of_whole_areas_succeeds() {
    let (mut arena, _ks, mut tm) = boot(1);
    assert_eq!(sys_mmap(&mut tm, &mut arena, 0x10_0000, 0x2000, 3), Ok(0));
    assert_eq!(sys_mmap(&mut tm, &mut arena, 0x10_2000, 0x1000, 1), Ok(0));
    let areas = tm.task(0).memory_set.area_count();
    let free = arena.free_frames();
    // both areas, exactly
    assert_eq!(sys_munmap(&mut tm, &mut arena, 0x10_0000, 0x3000), 0);
    assert_eq!(flags_at(&tm, &arena, 0x10_0000), None);
    assert_eq!(flags_at(&tm, &arena, 0x10_1000), None);
    assert_eq!(flags_at(&tm, &arena, 0x10_2000), None);
    assert_eq!(tm.task(0).memory_set.area_count(), areas - 2);
    assert_eq!(arena.free_frames(), free + 3);
    // nothing at all
    assert_eq!(sys_munmap(&mut tm, &mut arena, 0x50_0000, 0), 0);
    // not the start of a page
    assert_eq!(sys_munmap(&mut tm, &mut arena, 0x10_0001, 0x1000), -1);
    // the pages can be mapped again
    assert_eq!(sys_mmap(&mut tm, &mut arena, 0x10_0000, 0x3000, 2), Ok(0));
}

#[test]
fn munmap_of_part_of_an_area_fails_and_leaves_it() {
    let (mut arena, _ks, mut tm) = boot(1);
    assert_eq!(sys_mmap(&mut tm, &mut arena, 0x10_0000, 0x2000, 3), Ok(0));
    let areas = tm.task(0).memory_set.area_count();
    assert_eq!(sys_munmap(&mut tm, &mut arena, 0x10_0000, 0x1000), -1);
    assert_eq!(sys_munmap(&mut tm, &mut arena, 0x10_1000, 0x2000), -1);
    assert!(flags_at(&tm, &arena, 0x10_0000).is_some());
    assert!(flags_at(&tm, &arena, 0x10_1000).is_some());
    assert_eq!(tm.task(0).memory_set.area_count(), areas);
    // a range with an area and a hole beside it: the area goes, the call fails
    assert_eq!(sys_munmap(&mut tm, &mut arena, 0x10_0000, 0x3000), -1);
    assert_eq!(flags_at(&tm, &arena, 0x10_0000), None);
    assert_eq!(tm.task(0).memory_set.area_count(), areas - 1);
}

#[test]
fn map_range_and_unmap_range_work_on_the_current_task() {
    let (mut arena, _ks, mut tm) = boot(2);
    run_first_task(&mut tm, 1);
    suspend_current_and_run_next(&mut tm, 2);
    let perm = MapPermission { bits: PERM_U | PERM_R };
    assert_eq!(map_range(&mut tm, &mut arena, 0x20_0000, 0x1000, perm), Ok(true));
    assert_eq!(map_range(&mut tm, &mut arena, 0x20_0000, 0x1000, perm), Ok(false));
    assert!(tm.task(1).memory_set.translate(&arena, VirtPageNum(0x200)).is_some());
    assert_eq!(tm.task(0).memory_set.translate(&arena, VirtPageNum(0x200)), None);
    let range = VpnRange { start: VirtPageNum(0x200), end: VirtPageNum(0x201) };
    assert!(range_overlaps(&tm, &range));
    assert!(!range_clear(&tm, &arena, &range));
    assert!(unmap_range(&mut tm, &mut arena, 0x20_0000, 0x1000));
    assert!(!range_overlaps(&tm, &range));
    assert!(range_clear(&tm, &arena, &range));
    assert!(!unmap_range(&mut tm, &mut arena, 0x20_0000, 0x1000));
}

#[test]
fn get_time_writes_seconds_and_microseconds() {
    let (mut arena, _ks, mut tm) = boot(1);
    run_first_task(&mut tm, 0);
    assert_eq!(TimeVal::from_micros(3_000_007), TimeVal { sec: 3, usec: 7 });
    assert_eq!(TimeVal { sec: 1, usec: 2 }.to_bytes(), vec![1, 0, 0, 0, 0, 0, 0, 0, 2, 0, 0, 0, 0, 0, 0, 0]);
    let ts = DATA_VA + 0x100;
    assert!(check_user_buffer(&tm, &arena, ts, 16));
    assert_eq!(sys_get_time(&tm, &mut arena, ts, 0, 1_234_567), 0);
    let mut expected = 1u64.to_le_bytes().to_vec();
    expected.extend_from_slice(&234_567u64.to_le_bytes());
    assert_eq!(user_bytes(&tm, &arena, ts, 16), expected);
    assert_eq!(user_bytes(&tm, &arena, ts - 1, 1), vec![0]);
    assert_eq!(user_bytes(&tm, &arena, ts + 16, 1), vec![0]);
    // a later reading is not before an earlier one
    assert_eq!(sys_get_time(&tm, &mut arena, ts, 0, 1_999_999), 0);
    let first = user_bytes(&tm, &arena, ts, 16);
    assert_eq!(sys_get_time(&tm, &mut arena, ts, 0, 2_000_000), 0);
    let second = user_bytes(&tm, &arena, ts, 16);
    let pair = |b: &Vec<u8>| {
        (
            u64::from_le_bytes(b[0..8].try_into().unwrap()),
            u64::from_le_bytes(b[8..16].try_into().unwrap()),
        )
    };
    assert_eq!(pair(&first), (1, 999_999));
    assert_eq!(pair(&second), (2, 0));
    assert!(pair(&first) <= pair(&second));
}

#[test]
fn user_buffers_are_checked() {
    let (arena, _ks, tm) = boot(1);
    assert!(check_user_buffer(&tm, &arena, DATA_VA, 16));
    // runs over the end of the page
    assert!(!check_user_buffer(&tm, &arena, DATA_VA + 0xff1, 16));
    assert!(check_user_buffer(&tm, &arena, DATA_VA + 0xff0, 16));
    // not mapped
    assert!(!check_user_buffer(&tm, &arena, 0x9000_0000, 16));
    // mapped, but no memory of the task
    assert!(!check_user_buffer(&tm, &arena, TRAMPOLINE, 16));
}

#[test]
fn task_info_writes_status_counters_and_time() {
    let (mut arena, _ks, mut tm) = boot(1);
    run_first_task(&mut tm, 100);
    incr_syscall_times(&mut tm, 410);
    incr_syscall_times(&mut tm, 124);
    incr_syscall_times(&mut tm, 124);
    let ti = DATA_VA + 8;
    assert_eq!(sys_task_info(&tm, &mut arena, ti, 350), 0);
    let bytes = user_bytes(&tm, &arena, ti, 2016);
    // running
    assert_eq!(bytes[0], 2);
    // the bytes between the fields stay as they were
    assert_eq!(&bytes[1..4], &[9, 0, 0]);
    let counter = |id: usize| u32::from_le_bytes(bytes[4 + 4 * id..8 + 4 * id].try_into().unwrap());
    assert_eq!(counter(410), 1);
    assert_eq!(counter(124), 2);
    assert_eq!(counter(0), 0);
    assert_eq!(counter(499), 0);
    assert_eq!(u64::from_le_bytes(bytes[2008..2016].try_into().unwrap()), 250);
    let info = TaskInfo { status: TaskStatus::Exited, syscall_times: vec![1, 0x0102], time: 0 };
    assert_eq!(info.status_code(), 3);
}

#[test]
fn yield_and_exit_switch_tasks() {
    let (_arena, _ks, mut tm) = boot(2);
    run_first_task(&mut tm, 1);
    assert_eq!(sys_yield(&mut tm, 2), (0, ContextSwitch { from: Some(0), to: 1 }));
    assert_eq!(sys_exit(&mut tm, 0, 3), ContextSwitch { from: Some(1), to: 0 });
    assert_eq!(tm.task_status(1), TaskStatus::Exited);
    assert_eq!(tm.task_status(0), TaskStatus::Running);
}

#[test]
fn dispatcher_counts_and_carries_out_calls() {
    let (mut arena, _ks, mut tm) = boot(2);
    run_first_task(&mut tm, 1);
    assert_eq!(
        syscall(&mut tm, &mut arena, SYSCALL_MMAP, [0x10_0000, 0x1000, 3], 2, 2000),
        SyscallOutcome::Return(0)
    );
    assert_eq!(
        syscall(&mut tm, &mut arena, SYSCALL_MMAP, [0x10_0000, 0x1000, 3], 2, 2000),
        SyscallOutcome::Return(-1)
    );
    assert_eq!(
        syscall(&mut tm, &mut arena, SYSCALL_GET_TIME, [0x10_0000, 0, 0], 3, 5_000_001),
        SyscallOutcome::Return(0)
    );
    assert_eq!(user_bytes(&tm, &arena, 0x10_0000, 9), vec![5, 0, 0, 0, 0, 0, 0, 0, 1]);
    assert_eq!(
        syscall(&mut tm, &mut arena, SYSCALL_TASK_INFO, [DATA_VA, 0, 0], 11, 11_000),
        SyscallOutcome::Return(0)
    );
    let info = user_bytes(&tm, &arena, DATA_VA, 2016);
    assert_eq!(u32::from_le_bytes(info[4 + 4 * 222..8 + 4 * 222].try_into().unwrap()), 2);
    assert_eq!(u32::from_le_bytes(info[4 + 4 * 169..8 + 4 * 169].try_into().unwrap()), 1);
    assert_eq!(u32::from_le_bytes(info[4 + 4 * 410..8 + 4 * 410].try_into().unwrap()), 1);
    assert_eq!(u64::from_le_bytes(info[2008..2016].try_into().unwrap()), 10);
    assert_eq!(
        syscall(&mut tm, &mut arena, SYSCALL_MUNMAP, [0x10_0000, 0x1000, 0], 12, 12_000),
        SyscallOutcome::Return(0)
    );
    assert_eq!(
        syscall(&mut tm, &mut arena, SYSCALL_YIELD, [0, 0, 0], 13, 13_000),
        SyscallOutcome::Yield { ret: 0, plan: ContextSwitch { from: Some(0), to: 1 } }
    );
    assert_eq!(
        syscall(&mut tm, &mut arena, SYSCALL_EXIT, [0, 0, 0], 14, 14_000),
        SyscallOutcome::Exit { plan: ContextSwitch { from: Some(1), to: 0 } }
    );
    assert_eq!(tm.task(0).syscall_count[215], 1);
    assert_eq!(tm.task(0).syscall_count[124], 1);
    assert_eq!(tm.task(1).syscall_count[93], 1);
}

#[test]
fn dispatcher_halts_where_the_kernel_cannot_go_on() {
    let (mut arena, _ks, mut tm) = boot(1);
    run_first_task(&mut tm, 5);
    let panic = |k| SyscallOutcome::Panic(k);
    let free = arena.free_frames();
    let areas = tm.task(0).memory_set.area_count();
    assert_eq!(
        syscall(&mut tm, &mut arena, 64, [0, 0, 0], 6, 6000),
        panic(KernelPanic::UnsupportedSyscall)
    );
    assert_eq!(
        syscall(&mut tm, &mut arena, u64::MAX, [0, 0, 0], 6, 6000),
        panic(KernelPanic::UnsupportedSyscall)
    );
    assert_eq!(
        syscall(&mut tm, &mut arena, SYSCALL_GET_TIME, [0x9000_0000, 0, 0], 6, 6000),
        panic(KernelPanic::BadUserPointer)
    );
    assert_eq!(
        syscall(&mut tm, &mut arena, SYSCALL_TASK_INFO, [DATA_VA + 0x1000 - 8, 0, 0], 6, 6000),
        panic(KernelPanic::BadUserPointer)
    );
    // the clock is behind the start of the task
    assert_eq!(
        syscall(&mut tm, &mut arena, SYSCALL_TASK_INFO, [DATA_VA, 0, 0], 4, 4000),
        panic(KernelPanic::Overflow)
    );
    assert_eq!(
        syscall(&mut tm, &mut arena, SYSCALL_MMAP, [TRAMPOLINE, 1, 1], 6, 6000),
        panic(KernelPanic::PageAlreadyMapped)
    );
    assert_eq!(
        syscall(&mut tm, &mut arena, SYSCALL_MMAP, [0xffff_ffff_ffff_f000, 0x1000, 1], 6, 6000),
        panic(KernelPanic::Overflow)
    );
    assert_eq!(
        syscall(&mut tm, &mut arena, SYSCALL_MUNMAP, [0xffff_ffff_ffff_f000, 0x1000, 0], 6, 6000),
        panic(KernelPanic::Overflow)
    );
    // none of these halts has changed the memory of the task
    assert_eq!(arena.free_frames(), free);
    assert_eq!(tm.task(0).memory_set.area_count(), areas);
    assert_eq!(tm.task_status(0), TaskStatus::Running);
    // more pages than the arena has frames
    assert_eq!(
        syscall(&mut tm, &mut arena, SYSCALL_MMAP, [0x4000_0000, 0x100_0000, 1], 6, 6000),
        panic(KernelPanic::OutOfFrames)
    );
    let (mut arena, _ks, mut tm) = boot(1);
    run_first_task(&mut tm, 5);
    assert_eq!(
        syscall(&mut tm, &mut arena, SYSCALL_EXIT, [0, 0, 0], 6, 6000),
        panic(KernelPanic::AllTasksCompleted)
    );
    assert_eq!(tm.task_status(0), TaskStatus::Exited);
}

#[test]
fn causes_are_decoded_from_the_register() {
    assert_eq!(trap_cause(8), TrapCause::UserEnvCall);
    assert_eq!(trap_cause(7), TrapCause::StoreFault);
    assert_eq!(trap_cause(15), TrapCause::StorePageFault);
    assert_eq!(trap_cause(13), TrapCause::LoadPageFault);
    assert_eq!(trap_cause(2), TrapCause::IllegalInstruction);
    assert_eq!(trap_cause(0x8000_0000_0000_0005), TrapCause::SupervisorTimer);
    // the same codes with the other kind of trap
    assert_eq!(trap_cause(5), TrapCause::Other);
    assert_eq!(trap_cause(0x8000_0000_0000_0008), TrapCause::Other);
    assert_eq!(trap_cause(12), TrapCause::Other);
    assert_eq!(trap_cause(3), TrapCause::Other);
    assert_eq!(trap_cause(16), TrapCause::Other);
    assert_eq!(trap_cause(0x8000_0000_0000_0001), TrapCause::Other);
    assert_eq!(trap_cause(0x4000_0000_0000_0008), TrapCause::Other);
}

#[test]
fn trap_vectors_are_direct() {
    assert_eq!(init(0x8020_0a00), 0x8020_0a00);
    assert_eq!(set_kernel_trap_entry(0x8020_0a04), 0x8020_0a04);
    assert_eq!(set_user_trap_entry(), TRAMPOLINE);
    assert_eq!(trap_from_kernel(), KernelPanic::TrapFromKernel);
    assert_eq!(to_register(0), 0);
    assert_eq!(to_register(-1), u64::MAX);
    assert_eq!(to_register(-2), u64::MAX - 1);
    assert_eq!(to_register(5), 5);
}

#[test]
fn trap_return_points_into_the_trampoline() {
    let (_arena, _ks, mut tm) = boot(2);
    run_first_task(&mut tm, 1);
    let back = trap_return(&tm, 0x8020_1000, 0x8020_1064);
    assert_eq!(back.stvec, TRAMPOLINE);
    assert_eq!(back.trap_ctx_ptr, TRAP_CONTEXT);
    assert_eq!(back.user_satp, tm.task(0).memory_set.satp());
    assert_eq!(back.restore_va, TRAMPOLINE + 0x64);
}

#[test]
fn system_call_trap_advances_the_program_counter_and_returns_the_result() {
    let (mut arena, _ks, mut tm) = boot(1);
    run_first_task(&mut tm, 1);
    let ppn = tm.task(0).trap_ctx_ppn;
    arena.write_word(ppn, 17, SYSCALL_MMAP);
    arena.write_word(ppn, 10, 0x10_0001);
    arena.write_word(ppn, 11, 0x1000);
    arena.write_word(ppn, 12, 3);
    assert_eq!(trap_handler(&mut tm, &mut arena, 8, 0, 2, 2000), TrapOutcome::Resume);
    let ctx = current_trap_ctx(&tm, &arena);
    assert_eq!(ctx.sepc, CODE_VA + 8);
    assert_eq!(ctx.x[10], u64::MAX);
    assert_eq!(ctx.x[17], SYSCALL_MMAP);
    arena.write_word(ppn, 10, 0x10_0000);
    assert_eq!(trap_handler(&mut tm, &mut arena, 8, 0, 2, 2000), TrapOutcome::Resume);
    let ctx = current_trap_ctx(&tm, &arena);
    assert_eq!(ctx.sepc, CODE_VA + 12);
    assert_eq!(ctx.x[10], 0);
    assert!(flags_at(&tm, &arena, 0x10_0000).is_some());
    arena.write_word(ppn, 33, u64::MAX - 3);
    assert_eq!(
        trap_handler(&mut tm, &mut arena, 8, 0, 2, 2000),
        TrapOutcome::Panic(KernelPanic::Overflow)
    );
}

#[test]
fn faults_end_the_task_and_the_timer_suspends_it() {
    let (mut arena, _ks, mut tm) = boot(3);
    run_first_task(&mut tm, 1);
    assert_eq!(
        trap_handler(&mut tm, &mut arena, 0x8000_0000_0000_0005, 0, 2, 2000),
        TrapOutcome::Switch { plan: ContextSwitch { from: Some(0), to: 1 }, arm_timer: true }
    );
    assert_eq!(tm.task_status(0), TaskStatus::Ready);
    assert_eq!(
        trap_handler(&mut tm, &mut arena, 15, 0x1234, 3, 3000),
        TrapOutcome::Switch { plan: ContextSwitch { from: Some(1), to: 2 }, arm_timer: false }
    );
    assert_eq!(tm.task_status(1), TaskStatus::Exited);
    assert_eq!(
        trap_handler(&mut tm, &mut arena, 2, 0, 4, 4000),
        TrapOutcome::Switch { plan: ContextSwitch { from: Some(2), to: 0 }, arm_timer: false }
    );
    assert_eq!(
        trap_handler(&mut tm, &mut arena, 9, 0, 5, 5000),
        TrapOutcome::Panic(KernelPanic::UnsupportedTrap)
    );
    assert_eq!(
        trap_handler(&mut tm, &mut arena, 13, 0, 5, 5000),
        TrapOutcome::Panic(KernelPanic::AllTasksCompleted)
    );
    assert_eq!(tm.task_status(tm.current_task()), TaskStatus::Exited);
}

#[test]
fn one_application_yields_and_exits() {
    let (mut arena, _ks, mut tm) = boot(1);
    assert_eq!(run_first_task(&mut tm, 1), ContextSwitch { from: None, to: 0 });
    let ppn = tm.task(0).trap_ctx_ppn;
    arena.write_word(ppn, 17, SYSCALL_YIELD);
    assert_eq!(
        trap_handler(&mut tm, &mut arena, 8, 0, 2, 2000),
        TrapOutcome::Switch { plan: ContextSwitch { from: Some(0), to: 0 }, arm_timer: false }
    );
    assert_eq!(current_trap_ctx(&tm, &arena).x[10], 0);
    assert_eq!(current_trap_ctx(&tm, &arena).sepc, CODE_VA + 8);
    assert_eq!(tm.task_status(0), TaskStatus::Running);
    arena.write_word(ppn, 17, SYSCALL_EXIT);
    arena.write_word(ppn, 10, 0);
    assert_eq!(
        trap_handler(&mut tm, &mut arena, 8, 0, 3, 3000),
        TrapOutcome::Panic(KernelPanic::AllTasksCompleted)
    );
    assert_eq!(tm.task_status(0), TaskStatus::Exited);
    assert_eq!(tm.current_task(), 0);
}

#[test]
fn no_application_means_no_task() {
    let (_arena, kernel_space, tm) = boot(0);
    assert_eq!(tm.num_app(), 0);
    assert_eq!(tm.current_task(), 0);
    assert_eq!(kernel_space.area_count(), 5);
}

#[test]
fn a_task_may_unmap_the_page_of_its_trap_context() {
    let (mut arena, _ks, mut tm) = boot(2);
    run_first_task(&mut tm, 1);
    let ppn = tm.task(0).trap_ctx_ppn;
    let areas = tm.task(0).memory_set.area_count();
    let free = arena.free_frames();
    assert!(tm.task(0).has_trap_ctx());
    arena.write_word(ppn, 17, SYSCALL_MUNMAP);
    arena.write_word(ppn, 10, TRAP_CONTEXT);
    arena.write_word(ppn, 11, 0x1000);
    assert_eq!(trap_handler(&mut tm, &mut arena, 8, 0, 2, 2000), TrapOutcome::Resume);
    assert_eq!(flags_at(&tm, &arena, TRAP_CONTEXT), None);
    assert_eq!(tm.task(0).memory_set.area_count(), areas - 1);
    assert_eq!(arena.free_frames(), free + 1);
    assert!(!tm.task(0).has_trap_ctx());
    // the result went into the frame where the trap context was
    assert_eq!(arena.read_word(ppn, 10), 0);
    assert_eq!(arena.read_word(ppn, 33), CODE_VA + 8);
    // the other task is as it was
    assert!(tm.task(1).has_trap_ctx());
    assert!(tm.task(1).memory_set.translate(&arena, VirtAddr(TRAP_CONTEXT).floor()).is_some());
    // a second unmapping finds nothing to unmap
    assert_eq!(sys_munmap(&mut tm, &mut arena, TRAP_CONTEXT, 0x1000), -1);
    assert_eq!(arena.free_frames(), free + 1);
    // no system call can come from a task without its trap context
    assert_eq!(
        trap_handler(&mut tm, &mut arena, 8, 0, 3, 3000),
        TrapOutcome::Panic(KernelPanic::TrapContextUnmapped)
    );
    // the timer still takes the processor from it
    assert_eq!(
        trap_handler(&mut tm, &mut arena, 0x8000_0000_0000_0005, 0, 3, 3000),
        TrapOutcome::Switch { plan: ContextSwitch { from: Some(0), to: 1 }, arm_timer: true }
    );
}

#[test]
fn unmapping_gives_the_frames_back() {
    let (mut arena, _ks, mut tm) = boot(1);
    assert_eq!(sys_mmap(&mut tm, &mut arena, 0x1000_0000, 4096, 3), Ok(0));
    let free = arena.free_frames();
    assert_eq!(sys_munmap(&mut tm, &mut arena, 0x1000_0000, 4096), 0);
    assert_eq!(flags_at(&tm, &arena, 0x1000_0000), None);
    assert_eq!(arena.free_frames(), free + 1);
    // the tables stay, so that one frame is enough to map the page again
    assert_eq!(sys_mmap(&mut tm, &mut arena, 0x1000_0000, 4096, 3), Ok(0));
    assert_eq!(arena.free_frames(), free);
    // a failed unmapping keeps what it has unmapped
    assert_eq!(sys_munmap(&mut tm, &mut arena, 0x1000_0000, 8192), -1);
    assert_eq!(flags_at(&tm, &arena, 0x1000_0000), None);
    assert_eq!(arena.free_frames(), free + 1);
}

#[test]
fn pages_outside_the_regions_are_not_mapped() {
    let (mut arena, _ks, mut tm) = boot(1);
    run_first_task(&mut tm, 1);
    assert_eq!(sys_mmap(&mut tm, &mut arena, 0x1000_0000, 0x3000, 3), Ok(0));
    assert_eq!(sys_mmap(&mut tm, &mut arena, 0x2000_0000, 0x1000, 1), Ok(0));
    assert_eq!(sys_munmap(&mut tm, &mut arena, 0x2000_0000, 0x1000), 0);
    let mut clear = 0;
    let mut taken = 0;
    for page in (0u64..0x40).chain(0x1_0000..0x1_0008).chain(0x2_0000..0x2_0004) {
        for pages in 1..4u64 {
            let range = VpnRange { start: VirtPageNum(page), end: VirtPageNum(page + pages) };
            if range_overlaps(&tm, &range) {
                assert!(!range_clear(&tm, &arena, &range));
                taken += 1;
            } else {
                assert!(range_clear(&tm, &arena, &range));
                clear += 1;
            }
        }
    }
    assert!(clear > 0 && taken > 0);
    // a page that lies in no region, but shares its table slot with one
    let alias = VpnRange {
        start: VirtPageNum(0x800_0000 + 0x1_0000),
        end: VirtPageNum(0x800_0000 + 0x1_0001),
    };
    assert!(!range_overlaps(&tm, &alias));
    assert!(!range_clear(&tm, &arena, &alias));
}
