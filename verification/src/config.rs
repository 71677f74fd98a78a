//! Layout constants of the kernel.

use vstd::prelude::*;

verus! {

/// Number of bytes in one page of memory.
pub const PAGE_SIZE: u64 = 0x1000;

/// Size of each task's user stack in bytes.
pub const USER_STACK_SIZE: u64 = 0x2000;

/// Size of each task's kernel stack in bytes.
pub const KERNEL_STACK_SIZE: u64 = 0x2000;

/// System call numbers below this bound are counted per task.
pub const MAX_SYSCALL_NUM: usize = 500;

/// Virtual address of the trampoline page, the highest page of every address space.
pub const TRAMPOLINE: u64 = 0xffff_ffff_ffff_f000;

/// Virtual address of the page that holds a task's trap context, just below the trampoline.
pub const TRAP_CONTEXT: u64 = 0xffff_ffff_ffff_e000;

/// Number of microseconds in a second.
pub const MICRO_PER_SEC: u64 = 1_000_000;

/// A number of tasks whose kernel stacks all lie in different table slots.
pub const MAX_APP_NUM: usize = 0x1000;

/// Whether the kernel stack of task `app_id` lies within the address space.
pub open spec fn kernel_stack_fits(app_id: usize) -> bool {
    app_id * (KERNEL_STACK_SIZE + PAGE_SIZE) + KERNEL_STACK_SIZE <= TRAMPOLINE
}

/// The lowest and highest address of the kernel stack of task `app_id`.
/// Stacks are laid out downwards from the trampoline, each followed by one
/// unmapped guard page.
pub open spec fn spec_kernel_stack_position(app_id: usize) -> (u64, u64) {
    (
        (TRAMPOLINE - app_id * (KERNEL_STACK_SIZE + PAGE_SIZE) - KERNEL_STACK_SIZE) as u64,
        (TRAMPOLINE - app_id * (KERNEL_STACK_SIZE + PAGE_SIZE)) as u64,
    )
}

/// Computes where the kernel stack of task `app_id` lies: the pair of its
/// lowest address and the address just past its highest byte.
pub fn kernel_stack_position(app_id: usize) -> (r: (u64, u64))
    requires
        kernel_stack_fits(app_id),
    ensures
        r == spec_kernel_stack_position(app_id),
        r.1 == TRAMPOLINE - app_id * 0x3000,
        r.0 + KERNEL_STACK_SIZE == r.1,
        r.0 % PAGE_SIZE == 0,
        r.1 % PAGE_SIZE == 0,
{
    let id: u64 = app_id as u64;
    let high: u64 = TRAMPOLINE - id * (KERNEL_STACK_SIZE + PAGE_SIZE);
    let low: u64 = high - KERNEL_STACK_SIZE;
    (low, high)
}

} // verus!
