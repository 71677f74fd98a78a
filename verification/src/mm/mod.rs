//! Memory management: addresses, physical frames, page tables and address spaces.

pub mod address;
pub mod elf;
pub mod frame_allocator;
pub mod image;
pub mod memory_set;
pub mod page_table;

use vstd::prelude::*;
use crate::config::PAGE_SIZE;
use crate::mm::address::{page_ceil, page_floor, PhysAddr, PPN_SPACE};
use crate::mm::frame_allocator::FrameArena;
use crate::mm::image::{
    kernel_fits, kernel_frames, kernel_mapped, trampoline_frame, KernelLayout,
};
use crate::mm::memory_set::{trampoline_entry, trampoline_vpn, LoadError, MemorySet};

verus! {

/// Whether the physical memory between the end of the kernel image and the
/// end of memory, as `layout` gives them, can be an arena of frames: the
/// frames lie below 2^44 and their bytes can be counted.
pub open spec fn arena_fits(layout: KernelLayout) -> bool {
    &&& page_ceil(layout.ekernel as int) <= page_floor(layout.memory_end as int) <= PPN_SPACE
    &&& (page_floor(layout.memory_end as int) - page_ceil(layout.ekernel as int)) * PAGE_SIZE
        <= usize::MAX
}

/// Sets memory management up at boot: makes the arena of the frames between
/// the end of the kernel image and the end of memory, all of them free, and
/// in it the address space of the kernel. The caller makes that address
/// space the active one, with the token it gives.
pub fn init(layout: &KernelLayout) -> (r: Result<(FrameArena, MemorySet), LoadError>)
    ensures
        r != Err::<(FrameArena, MemorySet), LoadError>(LoadError::InvalidElf),
        !arena_fits(*layout) ==> r == Err::<(FrameArena, MemorySet), LoadError>(
            LoadError::BadLayout,
        ),
        arena_fits(*layout) && kernel_fits(*layout) && page_floor(layout.memory_end as int)
            - page_ceil(layout.ekernel as int) >= kernel_frames(*layout) ==> r is Ok,
        r matches Ok((arena, kernel_space)) ==> {
            &&& arena.first_frame() == page_ceil(layout.ekernel as int)
            &&& arena.end_frame() == page_floor(layout.memory_end as int)
            &&& kernel_space.wf(arena)
            &&& kernel_mapped(*layout, kernel_space)
            &&& kernel_space.translation(arena, trampoline_vpn()) == Some(
                trampoline_entry(trampoline_frame(*layout)),
            )
            &&& arena.allocated() == kernel_space.owned()
        },
{
    let start = PhysAddr(layout.ekernel).ceil();
    let end = PhysAddr(layout.memory_end).floor();
    if start.0 > end.0 || end.0 > PPN_SPACE {
        return Err(LoadError::BadLayout);
    }
    if end.0 - start.0 > (usize::MAX / 4096) as u64 {
        return Err(LoadError::BadLayout);
    }
    let mut arena = FrameArena::new(start, end);
    let ghost a0 = arena;
    match MemorySet::new_kernel(&mut arena, layout) {
        Err(e) => Err(e),
        Ok(kernel_space) => {
            proof {
                assert(arena.allocated() =~= kernel_space.owned());
            }
            Ok((arena, kernel_space))
        },
    }
}

} // verus!
