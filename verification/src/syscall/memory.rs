//! The system calls that map and unmap memory.

use vstd::prelude::*;
use crate::config::PAGE_SIZE;
use crate::mm::address::{page_ceil, VirtPageNum, VPN_SPACE};
use crate::mm::frame_allocator::{FrameArena, OutOfFrames};
use crate::mm::image::{
    image_fits, image_mapped, last_end, segment_range, segments_of, stack_range, stack_top,
    key_taken, lemma_added_nothing_stray, lemma_trap_ctx_slot, nothing_stray, trap_ctx_range,
    LOW_PAGES,
};
use crate::mm::memory_set::{
    frames_missing, frames_needed, lemma_no_table_missing, region_added,
    table_reached, trampoline_vpn, MapArea, MapPermission, MapType, MemorySet, VpnRange, PERM_R,
    PERM_U, PERM_W, PERM_X,
};
use crate::mm::page_table::PageTableEntry;
use crate::mm::page_table::has_l2;
use crate::task::{
    byte_range, covered_pages, in_covered, is_covered, law_partial_overlap_fails,
    lemma_covered_frames_lower, lemma_unmapped_nothing_stray, map_range, not_covered_by, only_memory_of, overlaps_any,
    partly_in, range_mapped, unmap_range, unmapped, TaskManager,
};

verus! {

/// Whether `start` and `port` are acceptable arguments of `sys_mmap`: the
/// address is the start of a page, and of `port` no bit but the lowest three
/// is set and at least one of those is.
pub open spec fn mmap_args_ok(start: u64, port: u64) -> bool {
    start % PAGE_SIZE == 0 && port & !0x7u64 == 0 && port & 0x7 != 0
}

/// The permissions that `port` asks for: bit 0 read, bit 1 write, bit 2
/// execute, and always user access.
pub open spec fn mmap_permission(port: u64) -> MapPermission {
    MapPermission {
        bits: PERM_U | (if port & 0x1 != 0 {
            PERM_R
        } else {
            0
        }) | (if port & 0x2 != 0 {
            PERM_W
        } else {
            0
        }) | (if port & 0x4 != 0 {
            PERM_X
        } else {
            0
        }),
    }
}

/// Whether `entry` is a valid user mapping that may be read, written and
/// executed exactly as `port` says.
pub open spec fn grants(entry: Option<PageTableEntry>, port: u64) -> bool {
    &&& entry is Some
    &&& entry.unwrap().spec_is_valid()
    &&& entry.unwrap().spec_user()
    &&& entry.unwrap().spec_readable() == (port & 0x1 != 0)
    &&& entry.unwrap().spec_writable() == (port & 0x2 != 0)
    &&& entry.unwrap().spec_executable() == (port & 0x4 != 0)
}

/// The permission bits that `port` asks for are those and no others.
pub proof fn lemma_mmap_permission(port: u64)
    ensures
        mmap_permission(port).bits & PERM_U != 0,
        (mmap_permission(port).bits & PERM_R != 0) == (port & 0x1 != 0),
        (mmap_permission(port).bits & PERM_W != 0) == (port & 0x2 != 0),
        (mmap_permission(port).bits & PERM_X != 0) == (port & 0x4 != 0),
{
    let r: u8 = if port & 0x1 != 0 {
        PERM_R
    } else {
        0
    };
    let w: u8 = if port & 0x2 != 0 {
        PERM_W
    } else {
        0
    };
    let x: u8 = if port & 0x4 != 0 {
        PERM_X
    } else {
        0
    };
    assert((0x10u8 | r | w | x) & 0x10 != 0 && (((0x10u8 | r | w | x) & 0x02 != 0) == (r == 0x02))
        && (((0x10u8 | r | w | x) & 0x04 != 0) == (w == 0x04)) && (((0x10u8 | r | w | x) & 0x08
        != 0) == (x == 0x08))) by (bit_vector)
        requires
            r == 0 || r == 0x02,
            w == 0 || w == 0x04,
            x == 0 || x == 0x08,
    ;
}

/// What `sys_mmap` does: tasks `tm0` over arena `a0` before, `tm1` over
/// `a1` after, with result `r`.
pub open spec fn mmap_done(
    tm0: TaskManager,
    a0: FrameArena,
    start: u64,
    len: u64,
    port: u64,
    tm1: TaskManager,
    a1: FrameArena,
    r: Result<isize, OutOfFrames>,
) -> bool {
    let rejected = !mmap_args_ok(start, port) || overlaps_any(
        tm0.tasks()[tm0.current()].memory_set.regions(),
        byte_range(start, len),
    );
    &&& a1.wf()
    &&& tm1.count() == tm0.count()
    &&& tm1.current() == tm0.current()
    &&& r is Ok ==> r == Ok::<isize, OutOfFrames>(0) || r == Ok::<isize, OutOfFrames>(-1isize)
    &&& r == Ok::<isize, OutOfFrames>(-1isize) <==> rejected
    &&& r == Ok::<isize, OutOfFrames>(-1isize) ==> tm1 == tm0 && a1 == a0
    &&& a0.free_count() >= frames_missing(
        a0,
        tm0.tasks()[tm0.current()].memory_set.table().root(),
        byte_range(start, len),
        MapType::Framed,
    ) ==> r is Ok
    &&& a0.free_count() >= frames_needed(byte_range(start, len), MapType::Framed) ==> r is Ok
    &&& r is Err ==> a1.free_count() == 0
    &&& r == Ok::<isize, OutOfFrames>(0) ==> {
        &&& range_mapped(tm0, a0, tm1, a1, byte_range(start, len), mmap_permission(port))
        &&& forall|v: int| #[trigger]
            byte_range(start, len).spec_contains(v) ==> grants(
                tm1.tasks()[tm0.current()].memory_set.translation(a1, VirtPageNum(v as u64)),
                port,
            )
    }
}

/// What `sys_munmap` does: tasks `tm0` over arena `a0` before, `tm1` over
/// `a1` after, with result `r`.
pub open spec fn munmap_done(
    tm0: TaskManager,
    a0: FrameArena,
    start: u64,
    len: u64,
    tm1: TaskManager,
    a1: FrameArena,
    r: isize,
) -> bool {
    &&& tm1.mem_wf(a1)
    &&& tm1.count() == tm0.count()
    &&& tm1.current() == tm0.current()
    &&& r == 0 || r == -1
    &&& start % PAGE_SIZE != 0 ==> r == -1 && tm1 == tm0 && a1 == a0
    &&& start % PAGE_SIZE == 0 ==> {
        &&& only_memory_of(tm0.tasks(), tm1.tasks(), tm0.current())
        &&& unmapped(
            tm0.tasks()[tm0.current()].memory_set,
            a0,
            tm1.tasks()[tm0.current()].memory_set,
            a1,
            byte_range(start, len),
        )
        &&& (r == 0) == (covered_pages(
            tm0.tasks()[tm0.current()].memory_set.regions(),
            byte_range(start, len),
        ) == byte_range(start, len).spec_len())
    }
}

/// Maps `len` bytes from address `start` on into the address space of the
/// current task, to fresh zeroed memory that a user program may access as
/// `port` says. Returns -1, and changes nothing, if the arguments are not
/// acceptable or the pages touched share a page with an existing region;
/// otherwise none of those pages may be mapped yet, and the result is 0, or
/// an error if the arena runs out of frames.
pub fn sys_mmap(tm: &mut TaskManager, arena: &mut FrameArena, start: u64, len: u64, port: u64) -> (r:
    Result<isize, OutOfFrames>)
    requires
        old(tm).mem_wf(*old(arena)),
        mmap_args_ok(start, port) ==> start + len <= u64::MAX,
        mmap_args_ok(start, port) && !overlaps_any(
            old(tm).tasks()[old(tm).current()].memory_set.regions(),
            byte_range(start, len),
        ) ==> {
            &&& byte_range(start, len).spec_len() <= VPN_SPACE
            &&& forall|v: int| #[trigger]
                byte_range(start, len).spec_contains(v) ==> old(tm).tasks()[old(
                    tm,
                ).current()].memory_set.translation(*old(arena), VirtPageNum(v as u64)) is None
        },
    ensures
        mmap_done(*old(tm), *old(arena), start, len, port, *final(tm), *final(arena), r),
{
    if start % PAGE_SIZE != 0 || port & !0x7 != 0 || port & 0x7 == 0 {
        return Ok(-1);
    }
    let mut bits: u8 = PERM_U;
    if port & 0x1 != 0 {
        bits = bits | PERM_R;
    }
    if port & 0x2 != 0 {
        bits = bits | PERM_W;
    }
    if port & 0x4 != 0 {
        bits = bits | PERM_X;
    }
    let map_perm = MapPermission { bits };
    proof {
        assert(bits == mmap_permission(port).bits) by {
            assert(PERM_U | 0u8 == PERM_U) by (bit_vector);
            assert(forall|b: u8| #[trigger] (b | 0u8) == b) by (bit_vector);
        }
    }
    match map_range(tm, arena, start, len, map_perm) {
        Err(e) => Err(e),
        Ok(false) => Ok(-1),
        Ok(true) => {
            proof {
                let range = byte_range(start, len);
                let ms1 = tm.tasks()[old(tm).current()].memory_set;
                let last = ms1.regions().len() - 1;
                lemma_mmap_permission(port);
                assert(tm.tasks()[old(tm).current()].wf(*arena));
                assert forall|v: int| #[trigger] range.spec_contains(v) implies grants(
                    ms1.translation(*arena, VirtPageNum(v as u64)),
                    port,
                ) by {
                    assert(ms1.regions()[last].covers(v));
                    ms1.lemma_framed_page(*arena, last, v);
                }
            }
            Ok(0)
        },
    }
}

/// Unmaps from the address space of the current task every region that lies
/// wholly within the pages touched by the `len` bytes from address `start`
/// on. Returns -1, and changes nothing, if `start` is not the start of a
/// page; otherwise 0 if the regions unmapped make up exactly the pages
/// touched, and -1 if not.
pub fn sys_munmap(tm: &mut TaskManager, arena: &mut FrameArena, start: u64, len: u64) -> (r: isize)
    requires
        old(tm).mem_wf(*old(arena)),
        start % PAGE_SIZE == 0 ==> start + len <= u64::MAX,
    ensures
        munmap_done(*old(tm), *old(arena), start, len, *final(tm), *final(arena), r),
{
    if start % PAGE_SIZE != 0 {
        return -1;
    }
    if unmap_range(tm, arena, start, len) {
        0
    } else {
        -1
    }
}


/// Memory that was mapped and then unmapped can be mapped again: if
/// `sys_mmap` of `len` bytes from `start` gave 0, taking tasks `tm0` over
/// arena `a0` to `tm1` over `a1`, and `sys_munmap` of the same bytes gave 0,
/// taking them on to `tm2` over `a2`, then `sys_mmap` of the same bytes is
/// admitted again and gives 0 again: no region shares a page with them,
/// none of their pages is mapped, and the frames that came back are enough,
/// because the tables have stayed.
pub proof fn law_map_again_after_unmap(
    tm0: TaskManager,
    a0: FrameArena,
    start: u64,
    len: u64,
    port: u64,
    tm1: TaskManager,
    a1: FrameArena,
    tm2: TaskManager,
    a2: FrameArena,
)
    requires
        tm0.mem_wf(a0),
        start + len <= u64::MAX,
        mmap_done(tm0, a0, start, len, port, tm1, a1, Ok(0)),
        munmap_done(tm1, a1, start, len, tm2, a2, 0),
    ensures
        tm2.mem_wf(a2),
        mmap_args_ok(start, port),
        !overlaps_any(tm2.tasks()[tm2.current()].memory_set.regions(), byte_range(start, len)),
        byte_range(start, len).spec_len() <= VPN_SPACE,
        forall|v: int| #[trigger]
            byte_range(start, len).spec_contains(v) ==> tm2.tasks()[tm2.current()].memory_set.translation(
                a2,
                VirtPageNum(v as u64),
            ) is None,
        a2.free_count() >= frames_missing(
            a2,
            tm2.tasks()[tm2.current()].memory_set.table().root(),
            byte_range(start, len),
            MapType::Framed,
        ),
        forall|tm3: TaskManager, a3: FrameArena, r: Result<isize, OutOfFrames>| #[trigger]
            mmap_done(tm2, a2, start, len, port, tm3, a3, r) ==> r == Ok::<isize, OutOfFrames>(0),
{
    let range = byte_range(start, len);
    let cur = tm0.current();
    let ms1 = tm1.tasks()[cur].memory_set;
    let ms2 = tm2.tasks()[cur].memory_set;
    let regions1 = ms1.regions();
    let regions2 = ms2.regions();
    let last = regions1.len() - 1;
    let mapped = regions1[last];
    let root = ms1.table().root();
    assert(tm1.tasks()[cur].wf(a1));
    ms1.lemma_region_wf(a1, last);
    assert(is_covered(mapped, range));
    // the pages are unmapped
    assert forall|v: int| #[trigger] range.spec_contains(v) implies ms2.translation(
        a2,
        VirtPageNum(v as u64),
    ) is None by {
        assert(regions1[last].covers(v));
        assert(in_covered(regions1, range, VirtPageNum(v as u64)));
    }
    // no region that is left shares a page with them
    if overlaps_any(regions2, range) {
        let i = choose|i: int|
            0 <= i < regions2.len() && (#[trigger] regions2[i]).vpn_range.spec_intersection(
                range,
            ).spec_len() > 0;
        regions1.lemma_filter_pred(not_covered_by(range), i);
        assert(regions2.contains(regions2[i]));
        regions1.lemma_filter_contains_rev(not_covered_by(range), regions2[i]);
        let j = choose|j: int| 0 <= j < regions1.len() && regions1[j] == regions2[i];
        assert(partly_in(regions1[j], range));
        law_partial_overlap_fails(ms1, a1, ms2, a2, range, j);
    }
    // the frames that came back are enough, because the tables have stayed
    lemma_covered_frames_lower(regions1, range, last);
    assert forall|v: int|
        range.start.0 <= v < range.start.0 + range.spec_len() implies #[trigger] table_reached(
        a2,
        root,
        v,
    ) by {
        let page = VirtPageNum(v as u64);
        assert(range.spec_contains(v));
        assert(ms1.translation(a1, page) is Some);
        assert(has_l2(a1, root, page.spec_index(0), page.spec_index(1)));
    }
    lemma_no_table_missing(a2, root, range.start.0 as int, range.spec_len() as int);
}


/// Whether every region of `regions` lies in the low pages or is the page
/// of the trap context, as in a task that was loaded from an image laid out
/// in the customary way.
pub open spec fn regions_in_place(regions: Seq<MapArea>) -> bool {
    forall|j: int|
        0 <= j < regions.len() ==> (#[trigger] regions[j]).vpn_range.end.0 <= LOW_PAGES
            || regions[j].vpn_range == trap_ctx_range()
}

/// The regions of a task that was loaded from an image laid out in the
/// customary way are in place: if the regions of `ms` are those of the
/// image `data`, whose segments and stack lie in the low pages, each of them
/// lies in the low pages or is the page of the trap context.
pub proof fn law_loaded_regions_in_place(data: Seq<u8>, ms: MemorySet)
    requires
        image_mapped(data, ms),
        image_fits(data),
    ensures
        regions_in_place(ms.regions()),
{
    let segs = segments_of(data);
    let n = segs.len() as int;
    assert(stack_range(segs).end.0 <= LOW_PAGES) by {
        let top = stack_top(segs);
        assert(top == (last_end(segs) + 3) * PAGE_SIZE);
        assert(page_ceil(top) == last_end(segs) + 3) by (nonlinear_arith)
            requires
                top == (last_end(segs) + 3) * 4096,
                last_end(segs) >= 0,
                page_ceil(top) == (top + 4095) / 4096,
        ;
    }
    assert forall|j: int| 0 <= j < ms.regions().len() implies (#[trigger] ms.regions()[j]).vpn_range.end.0
        <= LOW_PAGES || ms.regions()[j].vpn_range == trap_ctx_range() by {
        if j < n {
            assert(ms.regions()[j].vpn_range == segment_range(segs[j]));
        }
    }
}

/// Mapping never meets a mapped page. A page of the current task that
/// shares its table slot neither with the trampoline nor with a page of a
/// region is not mapped. So where the regions are in place, the `len` bytes
/// from `start` on, if they lie in the low pages and share no page with a
/// region, touch only pages that are not mapped: `map_range` and `sys_mmap`
/// may be called on them, and map only pages that were not mapped.
pub proof fn law_map_meets_no_mapped_page(tm: TaskManager, a: FrameArena, start: u64, len: u64)
    requires
        tm.mem_wf(a),
        start + len <= u64::MAX,
    ensures
        forall|v: VirtPageNum|
            !key_taken(tm.tasks()[tm.current()].memory_set, v.key())
                ==> (#[trigger] tm.tasks()[tm.current()].memory_set.translation(a, v)) is None,
        regions_in_place(tm.tasks()[tm.current()].memory_set.regions()) && byte_range(
            start,
            len,
        ).end.0 <= LOW_PAGES && !overlaps_any(
            tm.tasks()[tm.current()].memory_set.regions(),
            byte_range(start, len),
        ) ==> {
            &&& byte_range(start, len).spec_len() <= VPN_SPACE
            &&& forall|v: int| #[trigger]
                byte_range(start, len).spec_contains(v) ==> tm.tasks()[tm.current()].memory_set.translation(
                    a,
                    VirtPageNum(v as u64),
                ) is None
        },
{
    let ms = tm.tasks()[tm.current()].memory_set;
    let range = byte_range(start, len);
    assert(tm.tasks()[tm.current()].wf(a));
    if regions_in_place(ms.regions()) && range.end.0 <= LOW_PAGES && !overlaps_any(
        ms.regions(),
        range,
    ) {
        lemma_trap_ctx_slot();
        assert(trampoline_vpn().key() == 0x7ff_ffff) by {
            assert(0xf_ffff_ffff_ffffu64 % 0x800_0000 == 0x7ff_ffff) by (bit_vector);
        }
        assert forall|v: int| #[trigger] range.spec_contains(v) implies ms.translation(
            a,
            VirtPageNum(v as u64),
        ) is None by {
            let page = VirtPageNum(v as u64);
            assert(page.key() == v);
            if ms.translation(a, page) is Some {
                assert(key_taken(ms, page.key()));
                let (j, w) = choose|j: int, w: int|
                    0 <= j < ms.regions().len() && #[trigger] ms.regions()[j].covers(w)
                        && VirtPageNum(w as u64).key() == v;
                if ms.regions()[j].vpn_range == trap_ctx_range() {
                    assert(w == 0xf_ffff_ffff_fffe);
                } else {
                    assert(ms.regions()[j].vpn_range.end.0 <= LOW_PAGES);
                    assert(w == v);
                    assert(ms.regions()[j].vpn_range.spec_intersection(range).spec_contains(v));
                }
            }
        }
    }
}

/// Mapping leaves nothing stray: if address space `ms1` over arena `a1` is
/// `ms0` over `a0` with a region added over `range`, and nothing was mapped
/// in `ms0` beside the trampoline and its regions, then nothing is in `ms1`;
/// and if the regions were in place and `range` lies in the low pages, they
/// still are.
pub proof fn law_mapping_leaves_nothing_stray(
    ms0: MemorySet,
    a0: FrameArena,
    ms1: MemorySet,
    a1: FrameArena,
    range: VpnRange,
    map_type: MapType,
    perm: MapPermission,
)
    requires
        region_added(ms0, a0, ms1, a1, range, map_type, perm),
        nothing_stray(ms0, a0),
    ensures
        nothing_stray(ms1, a1),
        regions_in_place(ms0.regions()) && range.end.0 <= LOW_PAGES ==> regions_in_place(
            ms1.regions(),
        ),
{
    lemma_added_nothing_stray(ms0, a0, ms1, a1, range, map_type, perm);
    let last = ms1.regions().len() - 1;
    if regions_in_place(ms0.regions()) && range.end.0 <= LOW_PAGES {
        assert forall|j: int| 0 <= j < ms1.regions().len() implies (#[trigger] ms1.regions()[j]).vpn_range.end.0
            <= LOW_PAGES || ms1.regions()[j].vpn_range == trap_ctx_range() by {
            if j < last {
                assert(ms1.regions()[j] == ms0.regions()[j]);
            }
        }
    }
}

/// Unmapping leaves nothing stray: if address space `ms1` over arena `a1`
/// is `ms0` over `a0` with `range` unmapped, and nothing was mapped in `ms0`
/// beside the trampoline and its regions, then nothing is in `ms1`; and if
/// the regions were in place, they still are.
pub proof fn law_unmapping_leaves_nothing_stray(
    ms0: MemorySet,
    a0: FrameArena,
    ms1: MemorySet,
    a1: FrameArena,
    range: VpnRange,
)
    requires
        unmapped(ms0, a0, ms1, a1, range),
        nothing_stray(ms0, a0),
    ensures
        nothing_stray(ms1, a1),
        regions_in_place(ms0.regions()) ==> regions_in_place(ms1.regions()),
{
    let regions0 = ms0.regions();
    let regions1 = ms1.regions();
    lemma_unmapped_nothing_stray(ms0, a0, ms1, a1, range);
    if regions_in_place(regions0) {
        assert forall|i: int| 0 <= i < regions1.len() implies (#[trigger] regions1[i]).vpn_range.end.0
            <= LOW_PAGES || regions1[i].vpn_range == trap_ctx_range() by {
            assert(regions1.contains(regions1[i]));
            regions0.lemma_filter_contains_rev(not_covered_by(range), regions1[i]);
            let j = choose|j: int| 0 <= j < regions0.len() && regions0[j] == regions1[i];
            assert(regions0[j].vpn_range.end.0 <= LOW_PAGES || regions0[j].vpn_range
                == trap_ctx_range());
        }
    }
}

/// `sys_mmap` gives -1 or 0 and nothing else while the arena has the frames:
/// if a call of `sys_mmap` took tasks `tm0` over arena `a0` to `tm1` over
/// `a1` with result `r`, and `a0` had free the frames that the range lacks,
/// then `r` is -1 if `start` is not a multiple of the page size, if `port`
/// has a bit set beside the three lowest or none of those, or if a region
/// of the current task shares a page with the range; and 0 in every other
/// case, with every page of the range then mapped as `port` says.
pub proof fn law_mmap_gives_zero_or_minus_one(
    tm0: TaskManager,
    a0: FrameArena,
    start: u64,
    len: u64,
    port: u64,
    tm1: TaskManager,
    a1: FrameArena,
    r: Result<isize, OutOfFrames>,
)
    requires
        mmap_done(tm0, a0, start, len, port, tm1, a1, r),
        a0.free_count() >= frames_missing(
            a0,
            tm0.tasks()[tm0.current()].memory_set.table().root(),
            byte_range(start, len),
            MapType::Framed,
        ),
    ensures
        r == Ok::<isize, OutOfFrames>(-1isize) || r == Ok::<isize, OutOfFrames>(0),
        r == Ok::<isize, OutOfFrames>(-1isize) <==> (start % PAGE_SIZE != 0 || port & !0x7u64 != 0
            || port & 0x7 == 0 || overlaps_any(
            tm0.tasks()[tm0.current()].memory_set.regions(),
            byte_range(start, len),
        )),
        r == Ok::<isize, OutOfFrames>(0) ==> forall|v: int| #[trigger]
            byte_range(start, len).spec_contains(v) ==> grants(
                tm1.tasks()[tm1.current()].memory_set.translation(a1, VirtPageNum(v as u64)),
                port,
            ),
{
}

} // verus!
