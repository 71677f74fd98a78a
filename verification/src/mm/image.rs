//! Building address spaces: that of a task from its ELF image, and that of
//! the kernel from the layout of the kernel image.

use vstd::prelude::*;
use crate::config::{PAGE_SIZE, TRAMPOLINE, TRAP_CONTEXT, USER_STACK_SIZE};
use crate::mm::address::{PhysAddr, PhysPageNum, VirtAddr, VirtPageNum};
use crate::mm::elf::{
    has_header, has_program_header, parse_header, program_header, spec_header,
    spec_program_header, ElfHeader, ProgramHeader, PF_R, PF_W, PF_X, PT_LOAD,
};
use crate::mm::frame_allocator::{zero_frame, FrameArena, OutOfFrames};
use crate::mm::memory_set::{
    frame_set, frames_needed, lemma_region_facts, lemma_same_key_same_walk, nth_page, region_added, trampoline_entry, trampoline_vpn, va_range,
    LoadError, MapArea, MapPermission, MapType, MemorySet, VpnRange, PERM_R, PERM_U, PERM_W,
    PERM_X,
};
use crate::mm::page_table::same_outside;

verus! {

/// The permissions of a segment with flags `flags`: user access, and
/// reading, writing and executing as the flags say.
pub open spec fn segment_permission(flags: u32) -> MapPermission {
    MapPermission {
        bits: PERM_U | (if flags & PF_R != 0 {
            PERM_R
        } else {
            0
        }) | (if flags & PF_W != 0 {
            PERM_W
        } else {
            0
        }) | (if flags & PF_X != 0 {
            PERM_X
        } else {
            0
        }),
    }
}

/// The pages that the segment of `ph` touches in memory.
pub open spec fn segment_range(ph: ProgramHeader) -> VpnRange {
    va_range(VirtAddr(ph.vaddr), VirtAddr((ph.vaddr + ph.mem_size) as u64))
}

/// Whether the segment of `ph` ends within the address space, its bytes lie
/// within `data`, and there are no more of them than the segment has in
/// memory.
pub open spec fn segment_ok(data: Seq<u8>, ph: ProgramHeader) -> bool {
    ph.vaddr + ph.mem_size <= u64::MAX && ph.offset + ph.file_size <= data.len() && ph.file_size
        <= ph.mem_size
}

/// Whether each of the first `n` program headers lies within `data`, and
/// describes an acceptable segment if it describes one to load.
pub open spec fn headers_ok(data: Seq<u8>, header: ElfHeader, n: int) -> bool {
    forall|i: int|
        0 <= i < n ==> #[trigger] has_program_header(data, header, i) && (spec_program_header(
            data,
            header,
            i,
        ).kind == PT_LOAD ==> segment_ok(data, spec_program_header(data, header, i)))
}

/// Whether `data` is an image that can be loaded.
pub open spec fn elf_valid(data: Seq<u8>) -> bool {
    has_header(data) && headers_ok(data, spec_header(data), spec_header(data).ph_count as int)
}

/// The segments to load among the first `n` program headers, in their order.
pub open spec fn loadable(data: Seq<u8>, header: ElfHeader, n: int) -> Seq<ProgramHeader>
    decreases n,
{
    if n <= 0 {
        Seq::empty()
    } else if spec_program_header(data, header, n - 1).kind == PT_LOAD {
        loadable(data, header, n - 1).push(spec_program_header(data, header, n - 1))
    } else {
        loadable(data, header, n - 1)
    }
}

/// The page just past the last of the segments `segs`, or page 0 if there is none.
pub open spec fn last_end(segs: Seq<ProgramHeader>) -> u64 {
    if segs.len() == 0 {
        0
    } else {
        segment_range(segs.last()).end.0
    }
}

/// The lowest address of the user stack: one unmapped guard page above the
/// last segment.
pub open spec fn stack_bottom(segs: Seq<ProgramHeader>) -> int {
    last_end(segs) * PAGE_SIZE + PAGE_SIZE
}

/// The address just past the user stack, which the stack pointer starts at.
pub open spec fn stack_top(segs: Seq<ProgramHeader>) -> int {
    stack_bottom(segs) + USER_STACK_SIZE
}

/// The pages of the trap context: the one page below the trampoline.
pub open spec fn trap_ctx_range() -> VpnRange {
    va_range(VirtAddr(TRAP_CONTEXT), VirtAddr(TRAMPOLINE))
}

/// Whether region `area` is framed, covers `range` and has permissions `perm`.
pub open spec fn region_is(area: MapArea, range: VpnRange, perm: MapPermission) -> bool {
    area.vpn_range == range && area.map_type == MapType::Framed && area.map_perm == perm
}

/// An address space `ms` over arena `a` that was built from nothing,
/// starting in arena `a0`: it is consistent, it maps the trampoline page to
/// frame `trampoline`, and all its frames, the only ones in which the arena
/// has changed, were free in `a0`.
pub open spec fn built(a0: FrameArena, ms: MemorySet, a: FrameArena, trampoline: PhysPageNum) -> bool {
    &&& ms.wf(a)
    &&& a.wf()
    &&& ms.translation(a, trampoline_vpn()) == Some(trampoline_entry(trampoline))
    &&& forall|p: int| ms.owned().contains(p) ==> !a0.allocated().contains(p)
    &&& a.allocated() == a0.allocated().union(ms.owned())
    &&& same_outside(a0, a, ms.owned())
    &&& nothing_stray(ms, a)
}

/// Whether table slot `k` is that of the trampoline page or of a page of a
/// region of `ms`.
pub open spec fn key_taken(ms: MemorySet, k: int) -> bool {
    k == trampoline_vpn().key() || exists|j: int, w: int|
        0 <= j < ms.regions().len() && #[trigger] ms.regions()[j].covers(w) && VirtPageNum(
            w as u64,
        ).key() == k
}

/// Whether nothing is mapped in address space `ms` over arena `a` beside
/// the trampoline and the pages of the regions: every mapped page shares
/// its table slot with one of them.
pub open spec fn nothing_stray(ms: MemorySet, a: FrameArena) -> bool {
    forall|v: VirtPageNum| (#[trigger] ms.translation(a, v)) is Some ==> key_taken(ms, v.key())
}

/// Adding a region leaves nothing stray: if nothing was mapped in `ms0`
/// over `a0` beside the trampoline and its regions, nothing is in `ms1`
/// over `a1`, which is `ms0` with a region added.
pub proof fn lemma_added_nothing_stray(
    ms0: MemorySet,
    a0: FrameArena,
    ms1: MemorySet,
    a1: FrameArena,
    range: VpnRange,
    map_type: MapType,
    perm: MapPermission,
)
    requires
        region_added(ms0, a0, ms1, a1, range, map_type, perm),
        nothing_stray(ms0, a0),
    ensures
        nothing_stray(ms1, a1),
{
    let last = ms1.regions().len() - 1;
    assert forall|v: VirtPageNum| (#[trigger] ms1.translation(a1, v)) is Some implies key_taken(
        ms1,
        v.key(),
    ) by {
        if exists|k: int|
            0 <= k < range.spec_len() && (#[trigger] nth_page(range.start, k)).key() == v.key() {
            let k = choose|k: int|
                0 <= k < range.spec_len() && (#[trigger] nth_page(range.start, k)).key() == v.key();
            assert(ms1.regions()[last].covers(range.start.0 + k));
        } else {
            assert(ms1.translation(a1, v) == ms0.translation(a0, v));
            assert(key_taken(ms0, v.key()));
            if v.key() != trampoline_vpn().key() {
                let (j, w) = choose|j: int, w: int|
                    0 <= j < ms0.regions().len() && #[trigger] ms0.regions()[j].covers(w)
                        && VirtPageNum(w as u64).key() == v.key();
                assert(ms1.regions()[j].covers(w));
            }
        }
    }
}

/// The number of pages below which the regions of a task lie when its
/// image is laid out in the customary way: all but the two highest table
/// slots, which are those of the trap context and of the trampoline.
pub const LOW_PAGES: u64 = 0x7ff_fffe;

/// Whether ranges `r1` and `r2` share no page.
pub open spec fn apart(r1: VpnRange, r2: VpnRange) -> bool {
    r1.spec_intersection(r2).spec_len() == 0
}

/// The number of pages of the segments `segs`.
pub open spec fn pages_of(segs: Seq<ProgramHeader>) -> nat
    decreases segs.len(),
{
    if segs.len() == 0 {
        0
    } else {
        pages_of(segs.drop_last()) + segment_range(segs.last()).spec_len()
    }
}

/// The pages of the user stack of an image with the segments `segs`.
pub open spec fn stack_range(segs: Seq<ProgramHeader>) -> VpnRange {
    va_range(VirtAddr(stack_bottom(segs) as u64), VirtAddr(stack_top(segs) as u64))
}

/// Whether the image `data` is laid out in the customary way: its segments
/// and its stack lie in the low pages and share no page.
pub open spec fn image_fits(data: Seq<u8>) -> bool {
    let segs = segments_of(data);
    &&& forall|j: int| 0 <= j < segs.len() ==> segment_range(#[trigger] segs[j]).end.0 <= LOW_PAGES
    &&& forall|i: int, j: int|
        0 <= i < j < segs.len() ==> apart(
            segment_range(#[trigger] segs[i]),
            segment_range(#[trigger] segs[j]),
        )
    &&& last_end(segs) + 3 <= LOW_PAGES
    &&& forall|j: int|
        0 <= j < segs.len() ==> apart(segment_range(#[trigger] segs[j]), stack_range(segs))
}

/// The number of frames that are enough to load the image `data`: three
/// for each page of its segments, of its stack and of the trap context, and
/// three for the tables of the trampoline.
pub open spec fn frames_for(data: Seq<u8>) -> nat {
    3 * (pages_of(segments_of(data)) + 3) + 3
}

/// The segments to load among the first `n` program headers are the first
/// of those among the first `m`, for `n` up to `m`.
pub proof fn lemma_loadable_prefix(data: Seq<u8>, header: ElfHeader, n: int, m: int)
    requires
        0 <= n <= m,
    ensures
        loadable(data, header, n).len() <= loadable(data, header, m).len(),
        forall|j: int|
            0 <= j < loadable(data, header, n).len() ==> #[trigger] loadable(data, header, n)[j]
                == loadable(data, header, m)[j],
        pages_of(loadable(data, header, n)) <= pages_of(loadable(data, header, m)),
    decreases m - n,
{
    if n < m {
        lemma_loadable_prefix(data, header, n, m - 1);
        let ph = spec_program_header(data, header, m - 1);
        if ph.kind == PT_LOAD {
            assert(loadable(data, header, m).drop_last() =~= loadable(data, header, m - 1));
        }
    }
}

/// In an address space that was built from nothing and has only regions in
/// the low pages, a range in the low pages that shares no page with them is
/// clear.
pub proof fn lemma_low_range_clear(
    a0: FrameArena,
    ms: MemorySet,
    a: FrameArena,
    trampoline: PhysPageNum,
    range: VpnRange,
)
    requires
        built(a0, ms, a, trampoline),
        range.start.0 <= range.end.0 <= LOW_PAGES,
        forall|j: int|
            0 <= j < ms.regions().len() ==> (#[trigger] ms.regions()[j]).vpn_range.end.0
                <= LOW_PAGES && apart(ms.regions()[j].vpn_range, range),
    ensures
        ms.clear(a, range),
{
    assert forall|v: int| #[trigger] range.spec_contains(v) implies ms.translation(
        a,
        VirtPageNum(v as u64),
    ) is None by {
        let page = VirtPageNum(v as u64);
        assert(page.key() == v);
        if ms.translation(a, page) is Some {
            assert(key_taken(ms, page.key()));
            let (j, w) = choose|j: int, w: int|
                0 <= j < ms.regions().len() && #[trigger] ms.regions()[j].covers(w) && VirtPageNum(
                    w as u64,
                ).key() == v;
            assert(ms.regions()[j].vpn_range.end.0 <= LOW_PAGES);
            assert(w == v);
            assert(ms.regions()[j].vpn_range.spec_intersection(range).spec_contains(v));
        }
    }
}

/// The page of the trap context is page 2^52 - 2, and its table slot is
/// the second highest.
pub proof fn lemma_trap_ctx_slot()
    ensures
        trap_ctx_range().start.0 == 0xf_ffff_ffff_fffe,
        trap_ctx_range().end.0 == 0xf_ffff_ffff_ffff,
        VirtPageNum(0xf_ffff_ffff_fffe).key() == LOW_PAGES,
{
    assert(0xf_ffff_ffff_fffeu64 % 0x800_0000 == 0x7ff_fffe) by (bit_vector);
}

/// In an address space that was built from nothing and has only regions in
/// the low pages, the page of the trap context is clear.
pub proof fn lemma_trap_ctx_clear(a0: FrameArena, ms: MemorySet, a: FrameArena, trampoline: PhysPageNum)
    requires
        built(a0, ms, a, trampoline),
        forall|j: int|
            0 <= j < ms.regions().len() ==> (#[trigger] ms.regions()[j]).vpn_range.end.0
                <= LOW_PAGES,
    ensures
        ms.clear(a, trap_ctx_range()),
{
    lemma_trap_ctx_slot();
    let range = trap_ctx_range();
    let page = VirtPageNum(0xf_ffff_ffff_fffe);
    assert(trampoline_vpn().key() != LOW_PAGES) by {
        assert(0xf_ffff_ffff_ffffu64 % 0x800_0000 == 0x7ff_ffff) by (bit_vector);
    }
    if ms.translation(a, page) is Some {
        assert(key_taken(ms, page.key()));
        let (j, w) = choose|j: int, w: int|
            0 <= j < ms.regions().len() && #[trigger] ms.regions()[j].covers(w) && VirtPageNum(
                w as u64,
            ).key() == LOW_PAGES;
        assert(ms.regions()[j].vpn_range.end.0 <= LOW_PAGES);
        assert(w < LOW_PAGES);
        assert(VirtPageNum(w as u64).key() == w);
    }
    assert forall|v: int| #[trigger] range.spec_contains(v) implies ms.translation(
        a,
        VirtPageNum(v as u64),
    ) is None by {
        assert(v == 0xf_ffff_ffff_fffe);
    }
}

/// Whether the regions of `ms` are those of the image `data`: one framed
/// region for each segment to load, in their order, with the permissions of
/// the segment; then the user stack, readable and writable in user mode;
/// then the page of the trap context, readable and writable by the kernel
/// only.
pub open spec fn image_mapped(data: Seq<u8>, ms: MemorySet) -> bool {
    let header = spec_header(data);
    let segs = loadable(data, header, header.ph_count as int);
    let n = segs.len() as int;
    &&& ms.regions().len() == n + 2
    &&& forall|j: int|
        0 <= j < n ==> region_is(
            #[trigger] ms.regions()[j],
            segment_range(segs[j]),
            segment_permission(segs[j].flags),
        )
    &&& region_is(
        ms.regions()[n],
        va_range(VirtAddr(stack_bottom(segs) as u64), VirtAddr(stack_top(segs) as u64)),
        MapPermission { bits: PERM_R | PERM_W | PERM_U },
    )
    &&& region_is(ms.regions()[n + 1], trap_ctx_range(), MapPermission { bits: PERM_R | PERM_W })
}

/// The segments to load of the image `data`.
pub open spec fn segments_of(data: Seq<u8>) -> Seq<ProgramHeader> {
    loadable(data, spec_header(data), spec_header(data).ph_count as int)
}

/// What loading the image `data` gives: the address space `ms` over arena
/// `a1`, built starting in arena `a0`, with the regions of the image, each
/// segment placed in its region; the initial stack pointer `user_sp`, the
/// address just past the user stack; and the address `entry` at which
/// execution starts.
pub open spec fn elf_loaded(
    data: Seq<u8>,
    trampoline: PhysPageNum,
    a0: FrameArena,
    ms: MemorySet,
    a1: FrameArena,
    user_sp: u64,
    entry: u64,
) -> bool {
    &&& built(a0, ms, a1, trampoline)
    &&& entry == spec_header(data).entry
    &&& user_sp == stack_top(segments_of(data))
    &&& image_mapped(data, ms)
    &&& segments_placed(data, segments_of(data), ms, a1)
    &&& a1.free_count() >= a0.free_count() - frames_for(data)
}

/// Adding a region to an address space that was built from nothing leaves
/// it one.
pub proof fn lemma_add_keeps_built(
    a0: FrameArena,
    ms: MemorySet,
    a: FrameArena,
    ms1: MemorySet,
    a1: FrameArena,
    range: VpnRange,
    map_type: MapType,
    perm: MapPermission,
    trampoline: PhysPageNum,
)
    requires
        built(a0, ms, a, trampoline),
        ms.clear(a, range),
        range.start.0 <= range.end.0,
        region_added(ms, a, ms1, a1, range, map_type, perm),
    ensures
        built(a0, ms1, a1, trampoline),
{
    ms1.lemma_arena_wf(a1);
    assert forall|k: int| 0 <= k < range.spec_len() implies (#[trigger] nth_page(
        range.start,
        k,
    )).key() != trampoline_vpn().key() by {
        if nth_page(range.start, k).key() == trampoline_vpn().key() {
            lemma_same_key_same_walk(a, ms.table().root(), nth_page(range.start, k), trampoline_vpn());
            assert(range.spec_contains(range.start.0 + k));
        }
    }
    assert(ms1.translation(a1, trampoline_vpn()) == ms.translation(a, trampoline_vpn()));
    assert(a1.allocated() =~= a0.allocated().union(ms1.owned()));
    lemma_added_nothing_stray(ms, a, ms1, a1, range, map_type, perm);
    let changed = ms1.table().owned().union(frame_set_of_last(ms1));
    assert forall|q: int| !ms1.owned().contains(q) implies #[trigger] a1.frame(q) == a0.frame(q) by {
        if frame_set_of_last(ms1).contains(q) {
            let n = choose|n: int|
                0 <= n < ms1.regions().last().data_frames@.len()
                    && #[trigger] ms1.regions().last().data_frames@[n].ppn.0 == q;
            assert(ms1.regions()[ms1.regions().len() - 1].data_frames@[n].ppn.0 == q);
            assert(ms1.data_frames().contains(q));
        }
        assert(!changed.contains(q));
        assert(a1.frame(q) == a.frame(q));
        assert(a.frame(q) == a0.frame(q));
    }
}

/// The frames of the last region of `ms`.
pub open spec fn frame_set_of_last(ms: MemorySet) -> Set<int> {
    crate::mm::memory_set::frame_set(ms.regions().last().data_frames@)
}

/// Adds a region over `range` if the pages of `range` are clear.
pub fn add_region(
    ms: &mut MemorySet,
    arena: &mut FrameArena,
    range: VpnRange,
    map_type: MapType,
    perm: MapPermission,
) -> (r: Result<(), LoadError>)
    requires
        old(ms).wf(*old(arena)),
        range.start.0 <= range.end.0,
    ensures
        final(arena).wf(),
        final(arena).first_frame() == old(arena).first_frame(),
        final(arena).end_frame() == old(arena).end_frame(),
        r == Err::<(), LoadError>(LoadError::BadLayout) <==> !old(ms).clear(*old(arena), range),
        r == Err::<(), LoadError>(LoadError::BadLayout) ==> *final(ms) == *old(ms) && *final(arena)
            == *old(arena),
        r != Err::<(), LoadError>(LoadError::InvalidElf),
        r == Err::<(), LoadError>(LoadError::OutOfFrames) ==> final(arena).free_count() == 0,
        old(arena).free_count() >= frames_needed(range, map_type) && old(ms).clear(
            *old(arena),
            range,
        ) ==> r is Ok,
        r is Ok ==> region_added(
            *old(ms),
            *old(arena),
            *final(ms),
            *final(arena),
            range,
            map_type,
            perm,
        ),
{
    proof {
        old(ms).lemma_arena_wf(*old(arena));
    }
    if !ms.is_clear(arena, &range) {
        return Err(LoadError::BadLayout);
    }
    match ms.push(arena, range, map_type, perm) {
        Ok(()) => Ok(()),
        Err(OutOfFrames) => Err(LoadError::OutOfFrames),
    }
}

/// The byte at virtual address `va` of region `area`, as arena `a` holds
/// it in the frame that backs the page of `va`.
pub open spec fn region_byte(a: FrameArena, area: MapArea, va: int) -> u8 {
    a.frame(area.frame_of(va / (PAGE_SIZE as int)))[va % (PAGE_SIZE as int)]
}

/// Whether region `area` holds the segment of `ph` as arena `a` stands: the
/// bytes of the segment that the image `data` holds, at the addresses of
/// the segment, and zero in every other byte of its pages.
pub open spec fn segment_placed(data: Seq<u8>, ph: ProgramHeader, area: MapArea, a: FrameArena) -> bool {
    forall|va: int|
        area.covers(va / (PAGE_SIZE as int)) ==> #[trigger] region_byte(a, area, va) == if ph.vaddr
            <= va < ph.vaddr + ph.file_size {
            data[ph.offset + (va - ph.vaddr)]
        } else {
            0u8
        }
}

/// Whether the first regions of `ms` hold the segments `segs`, each its own.
pub open spec fn segments_placed(
    data: Seq<u8>,
    segs: Seq<ProgramHeader>,
    ms: MemorySet,
    a: FrameArena,
) -> bool {
    forall|j: int|
        0 <= j < segs.len() ==> segment_placed(data, #[trigger] segs[j], ms.regions()[j], a)
}

/// Segments stay where they were placed when regions are added after
/// theirs and the arena changes in none of the frames of their regions.
pub proof fn lemma_placed_kept(
    data: Seq<u8>,
    segs: Seq<ProgramHeader>,
    ms: MemorySet,
    a: FrameArena,
    ms1: MemorySet,
    a1: FrameArena,
)
    requires
        segments_placed(data, segs, ms, a),
        ms.wf(a),
        segs.len() <= ms.regions().len() <= ms1.regions().len(),
        forall|j: int| 0 <= j < ms.regions().len() ==> #[trigger] ms1.regions()[j] == ms.regions()[j],
        forall|q: int| ms.data_frames().contains(q) ==> #[trigger] a1.frame(q) == a.frame(q),
        forall|j: int| 0 <= j < segs.len() ==> (#[trigger] ms.regions()[j]).map_type == MapType::Framed,
    ensures
        segments_placed(data, segs, ms1, a1),
{
    assert forall|j: int| 0 <= j < segs.len() implies segment_placed(
        data,
        #[trigger] segs[j],
        ms1.regions()[j],
        a1,
    ) by {
        let area = ms.regions()[j];
        assert(ms1.regions()[j] == area);
        assert(segment_placed(data, segs[j], area, a));
        lemma_region_facts(ms, a, j);
        assert forall|va: int| area.covers(va / (PAGE_SIZE as int)) implies #[trigger] region_byte(
            a1,
            area,
            va,
        ) == region_byte(a, area, va) by {
            let n = va / (PAGE_SIZE as int) - area.vpn_range.start.0;
            let q = area.data_frames@[n].ppn.0 as int;
            assert(ms.regions()[j].data_frames@[n].ppn.0 == q);
            assert(ms.data_frames().contains(q));
        }
    }
}

/// Segments stay where they were placed when the arena changes in none of
/// the frames of their regions.
pub proof fn lemma_placed_untouched(
    data: Seq<u8>,
    segs: Seq<ProgramHeader>,
    ms: MemorySet,
    a: FrameArena,
    a1: FrameArena,
)
    requires
        segments_placed(data, segs, ms, a),
        ms.wf(a),
        segs.len() <= ms.regions().len(),
        forall|j: int| 0 <= j < segs.len() ==> (#[trigger] ms.regions()[j]).map_type == MapType::Framed,
        forall|j: int, n: int|
            0 <= j < segs.len() && 0 <= n < ms.regions()[j].data_frames@.len() ==> a1.frame(
                (#[trigger] ms.regions()[j].data_frames@[n]).ppn.0 as int,
            ) == a.frame(ms.regions()[j].data_frames@[n].ppn.0 as int),
    ensures
        segments_placed(data, segs, ms, a1),
{
    assert forall|j: int| 0 <= j < segs.len() implies segment_placed(
        data,
        #[trigger] segs[j],
        ms.regions()[j],
        a1,
    ) by {
        let area = ms.regions()[j];
        assert(segment_placed(data, segs[j], area, a));
        lemma_region_facts(ms, a, j);
        assert forall|va: int| area.covers(va / (PAGE_SIZE as int)) implies #[trigger] region_byte(
            a1,
            area,
            va,
        ) == region_byte(a, area, va) by {
            let n = va / (PAGE_SIZE as int) - area.vpn_range.start.0;
            assert(a1.frame(ms.regions()[j].data_frames@[n].ppn.0 as int) == a.frame(
                ms.regions()[j].data_frames@[n].ppn.0 as int,
            ));
        }
    }
}

/// Adding a region changes none of the frames that backed regions before.
pub proof fn lemma_added_keeps_frames(
    ms: MemorySet,
    a: FrameArena,
    ms1: MemorySet,
    a1: FrameArena,
    range: VpnRange,
    map_type: MapType,
    perm: MapPermission,
)
    requires
        ms.wf(a),
        region_added(ms, a, ms1, a1, range, map_type, perm),
    ensures
        forall|q: int| ms.data_frames().contains(q) ==> #[trigger] a1.frame(q) == a.frame(q),
{
    assert forall|q: int| ms.data_frames().contains(q) implies #[trigger] a1.frame(q) == a.frame(
        q,
    ) by {
        let (i, n) = choose|i: int, n: int|
            0 <= i < ms.regions().len() && 0 <= n < ms.regions()[i].data_frames@.len()
                && #[trigger] ms.regions()[i].data_frames@[n].ppn.0 == q;
        let last = ms1.regions().len() - 1;
        assert(ms1.regions()[i] == ms.regions()[i]);
        assert(ms1.regions()[i].data_frames@[n].ppn.0 == q);
        assert(ms1.data_frames().contains(q));
        ms1.lemma_data_frame_not_table(a1, q);
        if frame_set(ms1.regions().last().data_frames@).contains(q) {
            let m = choose|m: int|
                0 <= m < ms1.regions().last().data_frames@.len()
                    && #[trigger] ms1.regions().last().data_frames@[m].ppn.0 == q;
            ms1.lemma_data_frames_distinct(a1, i, n, last, m);
        }
    }
}

/// Copies `data` into the frames of the framed region `idx` of `ms`, to
/// the virtual addresses from `vaddr` on, which must lie in the region.
pub fn copy_data(ms: &MemorySet, arena: &mut FrameArena, idx: usize, vaddr: u64, data: &[u8])
    requires
        ms.wf(*old(arena)),
        idx < ms.regions().len(),
        ms.regions()[idx as int].map_type == MapType::Framed,
        vaddr + data@.len() <= u64::MAX,
        data@.len() > 0 ==> ms.regions()[idx as int].vpn_range.start.0 * PAGE_SIZE <= vaddr
            && vaddr + data@.len() <= ms.regions()[idx as int].vpn_range.end.0 * PAGE_SIZE,
    ensures
        ms.wf(*final(arena)),
        final(arena).allocation() == old(arena).allocation(),
        same_outside(*old(arena), *final(arena), frame_set(ms.regions()[idx as int].data_frames@)),
        forall|v: VirtPageNum| #[trigger] ms.translation(*final(arena), v) == ms.translation(
            *old(arena),
            v,
        ),
        forall|k: int|
            0 <= k < data@.len() ==> #[trigger] region_byte(
                *final(arena),
                ms.regions()[idx as int],
                vaddr + k,
            ) == data@[k],
        forall|va: int|
            ms.regions()[idx as int].covers(va / (PAGE_SIZE as int)) && !(vaddr <= va < vaddr
                + data@.len()) ==> #[trigger] region_byte(*final(arena), ms.regions()[idx as int], va)
                == region_byte(*old(arena), ms.regions()[idx as int], va),
{
    let ghost a0 = *arena;
    let ghost area = ms.regions()[idx as int];
    let ghost frames = frame_set(area.data_frames@);
    let len: usize = data.len();
    let start_vpn: u64 = ms.area(idx).vpn_range.start.0;
    let mut done: usize = 0;
    proof {
        lemma_region_facts(*ms, a0, idx as int);
    }
    if len == 0 {
        return ;
    }
    while done < len
        invariant
            done <= len,
            len == data@.len(),
            len > 0,
            vaddr + len <= u64::MAX,
            idx < ms.regions().len(),
            area == ms.regions()[idx as int],
            area.wf(),
            area.map_type == MapType::Framed,
            start_vpn == area.vpn_range.start.0,
            area.vpn_range.start.0 * PAGE_SIZE <= vaddr,
            vaddr + len <= area.vpn_range.end.0 * PAGE_SIZE,
            frames == frame_set(area.data_frames@),
            arena.wf(),
            arena.allocation() == a0.allocation(),
            a0.wf(),
            forall|n: int|
                0 <= n < area.data_frames@.len() ==> a0.allocated().contains(
                    (#[trigger] area.data_frames@[n]).ppn.0 as int,
                ),
            forall|n: int, k: int|
                0 <= n < k < area.data_frames@.len() ==> (#[trigger] area.data_frames@[n]).ppn != (
                #[trigger] area.data_frames@[k]).ppn,
            same_outside(a0, *arena, frames),
            forall|k: int|
                0 <= k < done ==> #[trigger] region_byte(*arena, area, vaddr + k) == data@[k],
            forall|va: int|
                area.covers(va / (PAGE_SIZE as int)) && !(vaddr <= va < vaddr + done)
                    ==> #[trigger] region_byte(*arena, area, va) == region_byte(a0, area, va),
        decreases len - done,
    {
        let va: u64 = vaddr + done as u64;
        let page: u64 = va / PAGE_SIZE;
        let off: usize = (va % PAGE_SIZE) as usize;
        let room: usize = PAGE_SIZE as usize - off;
        let chunk: usize = if len - done < room {
            len - done
        } else {
            room
        };
        let fi: usize = (page - start_vpn) as usize;
        let ppn = ms.area(idx).data_frames[fi].ppn;
        let ghost a = *arena;
        let ghost p = ppn.0 as int;
        proof {
            assert(a0.allocated().contains(area.data_frames@[fi as int].ppn.0 as int));
            a0.lemma_allocated_contained(p);
            a.lemma_frame_len(p);
            assert(frames.contains(p));
        }
        arena.store(ppn, off, vstd::slice::slice_subrange(data, done, done + chunk));
        proof {
            let b = *arena;
            assert forall|q: int| !frames.contains(q) implies #[trigger] b.frame(q) == a0.frame(
                q,
            ) by {
                assert(b.frame(q) == a.frame(q));
            }
            assert forall|w: int|
                area.covers(w / (PAGE_SIZE as int)) implies #[trigger] region_byte(b, area, w)
                == if va <= w < va + chunk {
                data@[w - vaddr]
            } else {
                region_byte(a, area, w)
            } by {
                let wp = w / (PAGE_SIZE as int);
                let wf = area.frame_of(wp);
                if wp == page {
                    assert(wf == p);
                } else {
                    let n = wp - start_vpn;
                    if n < fi {
                        assert(area.data_frames@[n].ppn != area.data_frames@[fi as int].ppn);
                    } else {
                        assert(area.data_frames@[fi as int].ppn != area.data_frames@[n].ppn);
                    }
                    assert(b.frame(wf) == a.frame(wf));
                }
            }
            assert forall|k: int| 0 <= k < done + chunk implies #[trigger] region_byte(
                b,
                area,
                vaddr + k,
            ) == data@[k] by {
                assert(area.covers((vaddr + k) / (PAGE_SIZE as int)));
                if k < done {
                    assert(region_byte(a, area, vaddr + k) == data@[k]);
                }
            }
            assert forall|w: int|
                area.covers(w / (PAGE_SIZE as int)) && !(vaddr <= w < vaddr + done
                    + chunk) implies #[trigger] region_byte(b, area, w) == region_byte(
                a0,
                area,
                w,
            ) by {
                assert(region_byte(a, area, w) == region_byte(a0, area, w));
            }
        }
        done = done + chunk;
    }
    proof {
        assert forall|q: int| frames.contains(q) implies !ms.table().owned().contains(q) by {
            let n = choose|n: int|
                0 <= n < area.data_frames@.len() && #[trigger] area.data_frames@[n].ppn.0 == q;
            assert(ms.regions()[idx as int].data_frames@[n].ppn.0 == q);
            assert(ms.data_frames().contains(q));
            ms.lemma_data_frame_not_table(a0, q);
        }
        assert forall|q: int| ms.owned().contains(q) implies arena.allocated().contains(q) by {
            ms.lemma_owned_allocated(a0, q);
        }
        ms.lemma_untouched(a0, *arena, frames);
    }
}

/// Copying the bytes of a segment into the region just added for it, which
/// is still zero, places the segment, and leaves the address space built
/// and the segments placed before where they were.
pub proof fn lemma_copy_keeps(
    data: Seq<u8>,
    segs: Seq<ProgramHeader>,
    ph: ProgramHeader,
    ms: MemorySet,
    a: FrameArena,
    a1: FrameArena,
    a0: FrameArena,
    trampoline: PhysPageNum,
)
    requires
        built(a0, ms, a, trampoline),
        segments_placed(data, segs, ms, a),
        segment_ok(data, ph),
        ms.regions().len() == segs.len() + 1,
        forall|j: int| 0 <= j < ms.regions().len() ==> (#[trigger] ms.regions()[j]).map_type == MapType::Framed,
        ms.regions().last().vpn_range == segment_range(ph),
        forall|n: int|
            0 <= n < ms.regions().last().data_frames@.len() ==> a.frame(
                (#[trigger] ms.regions().last().data_frames@[n]).ppn.0 as int,
            ) == zero_frame(),
        ms.wf(a1),
        a1.allocation() == a.allocation(),
        same_outside(a, a1, frame_set(ms.regions().last().data_frames@)),
        forall|v: VirtPageNum| #[trigger] ms.translation(a1, v) == ms.translation(a, v),
        forall|k: int|
            0 <= k < ph.file_size ==> #[trigger] region_byte(a1, ms.regions().last(), ph.vaddr + k)
                == data.subrange(ph.offset as int, ph.offset + ph.file_size)[k],
        forall|va: int|
            ms.regions().last().covers(va / (PAGE_SIZE as int)) && !(ph.vaddr <= va < ph.vaddr
                + ph.file_size) ==> #[trigger] region_byte(a1, ms.regions().last(), va)
                == region_byte(a, ms.regions().last(), va),
    ensures
        built(a0, ms, a1, trampoline),
        segments_placed(data, segs.push(ph), ms, a1),
{
    let last = ms.regions().len() - 1;
    let area = ms.regions()[last];
    lemma_region_facts(ms, a, last);
    ms.lemma_arena_wf(a1);
    assert forall|q: int| !ms.owned().contains(q) implies #[trigger] a1.frame(q) == a0.frame(q) by {
        if frame_set(area.data_frames@).contains(q) {
            let n = choose|n: int|
                0 <= n < area.data_frames@.len() && #[trigger] area.data_frames@[n].ppn.0 == q;
            assert(ms.regions()[last].data_frames@[n].ppn.0 == q);
            assert(ms.data_frames().contains(q));
        }
        assert(a1.frame(q) == a.frame(q));
    }
    assert forall|j: int| 0 <= j < segs.push(ph).len() implies segment_placed(
        data,
        #[trigger] segs.push(ph)[j],
        ms.regions()[j],
        a1,
    ) by {
        if j < segs.len() {
            let r = ms.regions()[j];
            assert(segment_placed(data, segs[j], r, a));
            lemma_region_facts(ms, a, j);
            assert forall|va: int| r.covers(va / (PAGE_SIZE as int)) implies #[trigger] region_byte(
                a1,
                r,
                va,
            ) == region_byte(a, r, va) by {
                let n = va / (PAGE_SIZE as int) - r.vpn_range.start.0;
                let q = r.data_frames@[n].ppn.0 as int;
                if frame_set(area.data_frames@).contains(q) {
                    let m = choose|m: int|
                        0 <= m < area.data_frames@.len() && #[trigger] area.data_frames@[m].ppn.0
                            == q;
                    ms.lemma_data_frames_distinct(a, j, n, last, m);
                }
            }
        } else {
            assert forall|va: int| area.covers(va / (PAGE_SIZE as int)) implies #[trigger] region_byte(
                a1,
                area,
                va,
            ) == if ph.vaddr <= va < ph.vaddr + ph.file_size {
                data[ph.offset + (va - ph.vaddr)]
            } else {
                0u8
            } by {
                if ph.vaddr <= va < ph.vaddr + ph.file_size {
                    assert(region_byte(a1, area, ph.vaddr + (va - ph.vaddr)) == data.subrange(
                        ph.offset as int,
                        ph.offset + ph.file_size,
                    )[va - ph.vaddr]);
                } else {
                    let n = va / (PAGE_SIZE as int) - area.vpn_range.start.0;
                    assert(a.frame(area.data_frames@[n].ppn.0 as int) == zero_frame());
                }
            }
        }
    }
}

/// The permissions of a segment with flags `flags`.
pub fn segment_perm(flags: u32) -> (r: MapPermission)
    ensures
        r == segment_permission(flags),
{
    let mut bits: u8 = PERM_U;
    if flags & PF_R != 0 {
        bits = bits | PERM_R;
    }
    if flags & PF_W != 0 {
        bits = bits | PERM_W;
    }
    if flags & PF_X != 0 {
        bits = bits | PERM_X;
    }
    proof {
        assert(forall|b: u8| #[trigger] (b | 0u8) == b) by (bit_vector);
    }
    MapPermission { bits }
}

/// Whether every program header of `data` lies within it and describes an
/// acceptable segment if it describes one to load.
pub fn check_headers(data: &[u8], header: &ElfHeader) -> (r: bool)
    ensures
        r == headers_ok(data@, *header, header.ph_count as int),
{
    let mut i: u16 = 0;
    while i < header.ph_count
        invariant
            i <= header.ph_count,
            headers_ok(data@, *header, i as int),
        decreases header.ph_count - i,
    {
        match program_header(data, header, i) {
            None => {
                assert(!has_program_header(data@, *header, i as int));
                return false;
            },
            Some(ph) => {
                if ph.kind == PT_LOAD {
                    let len: u64 = data.len() as u64;
                    if ph.mem_size > u64::MAX - ph.vaddr || ph.offset > len || ph.file_size > len
                        - ph.offset || ph.file_size > ph.mem_size {
                        assert(has_program_header(data@, *header, i as int));
                        assert(!segment_ok(data@, spec_program_header(data@, *header, i as int)));
                        return false;
                    }
                    assert(segment_ok(data@, ph));
                }
                assert(ph == spec_program_header(data@, *header, i as int));
                assert(has_program_header(data@, *header, i as int));
                assert forall|j: int| 0 <= j < i + 1 implies #[trigger] has_program_header(
                    data@,
                    *header,
                    j,
                ) && (spec_program_header(data@, *header, j).kind == PT_LOAD ==> segment_ok(
                    data@,
                    spec_program_header(data@, *header, j),
                )) by {
                    if j < i {
                        assert(has_program_header(data@, *header, j));
                    } else {
                        assert(j == i);
                        assert(spec_program_header(data@, *header, j) == ph);
                    }
                }
            },
        }
        i = i + 1;
    }
    true
}

impl MemorySet {
    /// Builds the address space of a task from its ELF image `elf_data`:
    /// the trampoline page, mapped to frame `trampoline`; one region of
    /// fresh frames for each segment to load, holding the bytes of the
    /// segment; above the last segment and one unmapped guard page, the
    /// user stack; and below the trampoline, the page of the trap context.
    /// Returns the address space, the initial stack pointer and the address
    /// at which execution starts. It succeeds for every well-formed image
    /// that is laid out in the customary way, if the arena has frames enough.
    pub fn from_elf(arena: &mut FrameArena, elf_data: &[u8], trampoline: PhysPageNum) -> (r: Result<
        (MemorySet, u64, u64),
        LoadError,
    >)
        requires
            old(arena).wf(),
        ensures
            final(arena).wf(),
            final(arena).first_frame() == old(arena).first_frame(),
            final(arena).end_frame() == old(arena).end_frame(),
            r == Err::<(MemorySet, u64, u64), LoadError>(LoadError::InvalidElf) <==> !elf_valid(
                elf_data@,
            ),
            r == Err::<(MemorySet, u64, u64), LoadError>(LoadError::InvalidElf) ==> *final(arena)
                == *old(arena),
            r == Err::<(MemorySet, u64, u64), LoadError>(LoadError::OutOfFrames) ==> final(arena).free_count() == 0,
            elf_valid(elf_data@) && image_fits(elf_data@) && old(arena).free_count() >= frames_for(
                elf_data@,
            ) ==> r is Ok,
            r matches Ok((ms, user_sp, entry)) ==> elf_loaded(
                elf_data@,
                trampoline,
                *old(arena),
                ms,
                *final(arena),
                user_sp,
                entry,
            ),
    {
        let ghost a0 = *arena;
        let header = match parse_header(elf_data) {
            None => {
                return Err(LoadError::InvalidElf);
            },
            Some(header) => header,
        };
        if !check_headers(elf_data, &header) {
            return Err(LoadError::InvalidElf);
        }
        let ghost segs = segments_of(elf_data@);
        let ghost owed = image_fits(elf_data@) && a0.free_count() >= frames_for(elf_data@);
        let mut ms = match MemorySet::new_bare(arena) {
            None => {
                return Err(LoadError::OutOfFrames);
            },
            Some(ms) => ms,
        };
        let ghost a_bare = *arena;
        let ghost ms_bare = ms;
        assert(ms.translation(a_bare, trampoline_vpn()) is None);
        let mapped = ms.map_trampoline(arena, trampoline);
        proof {
            ms.lemma_arena_wf(*arena);
        }
        match mapped {
            Err(OutOfFrames) => {
                return Err(LoadError::OutOfFrames);
            },
            Ok(()) => {},
        }
        proof {
            assert(ms.translation(*arena, trampoline_vpn()) == Some(trampoline_entry(trampoline)));
            assert(arena.allocated() =~= a0.allocated().union(ms.owned()));
            assert forall|q: int| !ms.owned().contains(q) implies #[trigger] arena.frame(q)
                == a0.frame(q) by {
                assert(arena.frame(q) == a_bare.frame(q));
                assert(a_bare.frame(q) == a0.frame(q));
            }
            assert forall|p: int| ms.owned().contains(p) implies !a0.allocated().contains(p) by {
                if !ms_bare.owned().contains(p) {
                    assert(!a_bare.allocated().contains(p));
                }
            }
            assert(built(a0, ms, *arena, trampoline));
        }
        let mut max_end_vpn: u64 = 0;
        let mut i: u16 = 0;
        while i < header.ph_count
            invariant
                i <= header.ph_count,
                a0 == *old(arena),
                has_header(elf_data@),
                header == spec_header(elf_data@),
                headers_ok(elf_data@, header, header.ph_count as int),
                segs == segments_of(elf_data@),
                owed == (image_fits(elf_data@) && a0.free_count() >= frames_for(elf_data@)),
                arena.first_frame() == a0.first_frame(),
                arena.end_frame() == a0.end_frame(),
                built(a0, ms, *arena, trampoline),
                arena.free_count() >= a0.free_count() - 3 - 3 * pages_of(
                    loadable(elf_data@, header, i as int),
                ),
                max_end_vpn == last_end(loadable(elf_data@, header, i as int)),
                ms.regions().len() == loadable(elf_data@, header, i as int).len(),
                segments_placed(elf_data@, loadable(elf_data@, header, i as int), ms, *arena),
                forall|j: int|
                    0 <= j < ms.regions().len() ==> region_is(
                        #[trigger] ms.regions()[j],
                        segment_range(loadable(elf_data@, header, i as int)[j]),
                        segment_permission(loadable(elf_data@, header, i as int)[j].flags),
                    ),
            decreases header.ph_count - i,
        {
            assert(has_program_header(elf_data@, header, i as int));
            let ph = program_header(elf_data, &header, i).unwrap();
            if ph.kind == PT_LOAD {
                let range = VpnRange {
                    start: VirtAddr(ph.vaddr).floor(),
                    end: VirtAddr(ph.vaddr + ph.mem_size).ceil(),
                };
                let perm = segment_perm(ph.flags);
                let ghost ms_before = ms;
                let ghost a_before = *arena;
                let ghost segs_before = loadable(elf_data@, header, i as int);
                proof {
                    lemma_loadable_prefix(elf_data@, header, i as int, i + 1);
                    lemma_loadable_prefix(elf_data@, header, i + 1, header.ph_count as int);
                    if owed {
                        let idx = segs_before.len() as int;
                        assert(loadable(elf_data@, header, i + 1)[idx] == ph);
                        assert(segs[idx] == ph);
                        assert forall|j: int| 0 <= j < ms.regions().len() implies (
                        #[trigger] ms.regions()[j]).vpn_range.end.0 <= LOW_PAGES && apart(
                            ms.regions()[j].vpn_range,
                            range,
                        ) by {
                            assert(segs[j] == segs_before[j]);
                            assert(apart(segment_range(segs[j]), segment_range(segs[idx])));
                        }
                        lemma_low_range_clear(a0, ms, *arena, trampoline, range);
                        let next = loadable(elf_data@, header, i + 1);
                        assert(next.drop_last() =~= segs_before);
                        assert(next.last() == ph);
                        assert(range == segment_range(ph));
                        assert(pages_of(next) == pages_of(segs_before) + range.spec_len());
                        assert(arena.free_count() >= 3 * range.spec_len());
                    }
                }
                match add_region(&mut ms, arena, range, MapType::Framed, perm) {
                    Err(e) => {
                        return Err(e);
                    },
                    Ok(()) => {},
                }
                let ghost a_added = *arena;
                proof {
                    lemma_add_keeps_built(
                        a0,
                        ms_before,
                        a_before,
                        ms,
                        a_added,
                        range,
                        MapType::Framed,
                        perm,
                        trampoline,
                    );
                    lemma_added_keeps_frames(
                        ms_before,
                        a_before,
                        ms,
                        a_added,
                        range,
                        MapType::Framed,
                        perm,
                    );
                    lemma_placed_kept(elf_data@, segs_before, ms_before, a_before, ms, a_added);
                }
                let last: usize = ms.area_count() - 1;
                let total: usize = elf_data.len();
                assert(segment_ok(elf_data@, ph));
                let bytes = vstd::slice::slice_subrange(
                    elf_data,
                    ph.offset as usize,
                    (ph.offset + ph.file_size) as usize,
                );
                copy_data(&ms, arena, last, ph.vaddr, bytes);
                proof {
                    lemma_copy_keeps(
                        elf_data@,
                        segs_before,
                        ph,
                        ms,
                        a_added,
                        *arena,
                        a0,
                        trampoline,
                    );
                    assert(loadable(elf_data@, header, i + 1).drop_last() =~= segs_before);
                }
                max_end_vpn = range.end.0;
            }
            i = i + 1;
        }
        proof {
            if owed {
                assert forall|j: int| 0 <= j < ms.regions().len() implies (
                #[trigger] ms.regions()[j]).vpn_range.end.0 <= LOW_PAGES && apart(
                    ms.regions()[j].vpn_range,
                    stack_range(segs),
                ) by {
                    assert(apart(segment_range(segs[j]), stack_range(segs)));
                }
            }
        }
        if max_end_vpn > (u64::MAX - PAGE_SIZE - USER_STACK_SIZE) / PAGE_SIZE {
            return Err(LoadError::BadLayout);
        }
        let user_stack_bottom: u64 = max_end_vpn * PAGE_SIZE + PAGE_SIZE;
        let user_stack_top: u64 = user_stack_bottom + USER_STACK_SIZE;
        let stack = VpnRange {
            start: VirtAddr(user_stack_bottom).floor(),
            end: VirtAddr(user_stack_top).ceil(),
        };
        let ghost ms_before = ms;
        let ghost a_before = *arena;
        proof {
            assert(stack == stack_range(segs));
            if owed {
                lemma_low_range_clear(a0, ms, *arena, trampoline, stack);
            }
        }
        match add_region(
            &mut ms,
            arena,
            stack,
            MapType::Framed,
            MapPermission { bits: PERM_R | PERM_W | PERM_U },
        ) {
            Err(e) => {
                return Err(e);
            },
            Ok(()) => {},
        }
        proof {
            lemma_add_keeps_built(
                a0,
                ms_before,
                a_before,
                ms,
                *arena,
                stack,
                MapType::Framed,
                MapPermission { bits: PERM_R | PERM_W | PERM_U },
                trampoline,
            );
            lemma_added_keeps_frames(
                ms_before,
                a_before,
                ms,
                *arena,
                stack,
                MapType::Framed,
                MapPermission { bits: PERM_R | PERM_W | PERM_U },
            );
            lemma_placed_kept(elf_data@, segs, ms_before, a_before, ms, *arena);
        }
        let ctx_range = VpnRange {
            start: VirtAddr(TRAP_CONTEXT).floor(),
            end: VirtAddr(TRAMPOLINE).ceil(),
        };
        let ghost ms_before2 = ms;
        let ghost a_before2 = *arena;
        proof {
            assert(ctx_range == trap_ctx_range());
            if owed {
                assert forall|j: int| 0 <= j < ms.regions().len() implies (
                #[trigger] ms.regions()[j]).vpn_range.end.0 <= LOW_PAGES by {
                    if j < ms_before.regions().len() {
                        assert(ms.regions()[j] == ms_before.regions()[j]);
                    }
                }
                lemma_trap_ctx_clear(a0, ms, *arena, trampoline);
            }
        }
        match add_region(
            &mut ms,
            arena,
            ctx_range,
            MapType::Framed,
            MapPermission { bits: PERM_R | PERM_W },
        ) {
            Err(e) => {
                return Err(e);
            },
            Ok(()) => {},
        }
        proof {
            lemma_add_keeps_built(
                a0,
                ms_before2,
                a_before2,
                ms,
                *arena,
                ctx_range,
                MapType::Framed,
                MapPermission { bits: PERM_R | PERM_W },
                trampoline,
            );
            lemma_added_keeps_frames(
                ms_before2,
                a_before2,
                ms,
                *arena,
                ctx_range,
                MapType::Framed,
                MapPermission { bits: PERM_R | PERM_W },
            );
            lemma_placed_kept(elf_data@, segs, ms_before2, a_before2, ms, *arena);
        }
        Ok((ms, user_stack_top, header.entry))
    }
}

/// Where the parts of the kernel image lie in physical memory, as the
/// linker placed them, and where physical memory ends.
#[derive(Clone, Copy, Debug, PartialEq, Eq, Structural)]
pub struct KernelLayout {
    pub stext: u64,
    pub etext: u64,
    pub srodata: u64,
    pub erodata: u64,
    pub sdata: u64,
    pub edata: u64,
    pub sbss_with_stack: u64,
    pub ebss: u64,
    pub ekernel: u64,
    pub memory_end: u64,
    /// The address of the page that holds the trap entry code.
    pub strampoline: u64,
}

/// Whether region `area` maps the addresses from `start` up to `end` to
/// themselves, with permissions `bits`.
pub open spec fn identity_region(area: MapArea, start: u64, end: u64, bits: u8) -> bool {
    area.vpn_range == va_range(VirtAddr(start), VirtAddr(end)) && area.map_type
        == MapType::Identical && area.map_perm == (MapPermission { bits })
}

/// Whether the regions of `ms` are those of the kernel laid out as `layout`
/// says: its code, readable and executable; its constants, readable; its
/// data and its zeroed data with the boot stack, readable and writable; and
/// the rest of physical memory, readable and writable.
pub open spec fn kernel_mapped(layout: KernelLayout, ms: MemorySet) -> bool {
    &&& ms.regions().len() == 5
    &&& identity_region(ms.regions()[0], layout.stext, layout.etext, PERM_R | PERM_X)
    &&& identity_region(ms.regions()[1], layout.srodata, layout.erodata, PERM_R)
    &&& identity_region(ms.regions()[2], layout.sdata, layout.edata, PERM_R | PERM_W)
    &&& identity_region(ms.regions()[3], layout.sbss_with_stack, layout.ebss, PERM_R | PERM_W)
    &&& identity_region(ms.regions()[4], layout.ekernel, layout.memory_end, PERM_R | PERM_W)
}

/// The five ranges of pages of the kernel laid out as `layout` says.
pub open spec fn kernel_ranges(layout: KernelLayout) -> Seq<VpnRange> {
    seq![
        va_range(VirtAddr(layout.stext), VirtAddr(layout.etext)),
        va_range(VirtAddr(layout.srodata), VirtAddr(layout.erodata)),
        va_range(VirtAddr(layout.sdata), VirtAddr(layout.edata)),
        va_range(VirtAddr(layout.sbss_with_stack), VirtAddr(layout.ebss)),
        va_range(VirtAddr(layout.ekernel), VirtAddr(layout.memory_end)),
    ]
}

/// Whether the kernel is laid out so that its address space can be built:
/// each part ends where or after it starts, lies in the low pages, and
/// shares no page with another.
pub open spec fn kernel_fits(layout: KernelLayout) -> bool {
    &&& layout.stext <= layout.etext
    &&& layout.srodata <= layout.erodata
    &&& layout.sdata <= layout.edata
    &&& layout.sbss_with_stack <= layout.ebss
    &&& layout.ekernel <= layout.memory_end
    &&& forall|j: int| 0 <= j < 5 ==> (#[trigger] kernel_ranges(layout)[j]).end.0 <= LOW_PAGES
    &&& forall|i: int, j: int|
        0 <= i < j < 5 ==> apart(
            #[trigger] kernel_ranges(layout)[i],
            #[trigger] kernel_ranges(layout)[j],
        )
}

/// The number of frames that are enough to build the address space of the
/// kernel laid out as `layout` says: those for the tables of its five parts,
/// and three for the root table and the tables of the trampoline.
pub open spec fn kernel_frames(layout: KernelLayout) -> int {
    frames_needed(kernel_ranges(layout)[0], MapType::Identical) + frames_needed(
        kernel_ranges(layout)[1],
        MapType::Identical,
    ) + frames_needed(kernel_ranges(layout)[2], MapType::Identical) + frames_needed(
        kernel_ranges(layout)[3],
        MapType::Identical,
    ) + frames_needed(kernel_ranges(layout)[4], MapType::Identical) + 3
}

/// The frame of the trap entry code.
pub open spec fn trampoline_frame(layout: KernelLayout) -> PhysPageNum {
    PhysPageNum(layout.strampoline / PAGE_SIZE)
}

/// Adds to `ms` a region that maps the addresses from `start` up to `end`
/// to themselves.
fn add_identity(
    ms: &mut MemorySet,
    arena: &mut FrameArena,
    start: u64,
    end: u64,
    bits: u8,
    Ghost(a0): Ghost<FrameArena>,
    Ghost(trampoline): Ghost<PhysPageNum>,
) -> (r: Result<(), LoadError>)
    requires
        built(a0, *old(ms), *old(arena), trampoline),
    ensures
        final(arena).wf(),
        final(arena).first_frame() == old(arena).first_frame(),
        final(arena).end_frame() == old(arena).end_frame(),
        r != Err::<(), LoadError>(LoadError::InvalidElf),
        r == Err::<(), LoadError>(LoadError::OutOfFrames) ==> final(arena).free_count() == 0,
        start <= end && va_range(VirtAddr(start), VirtAddr(end)).end.0 <= LOW_PAGES && (forall|
            j: int,
        |
            0 <= j < old(ms).regions().len() ==> (#[trigger] old(ms).regions()[j]).vpn_range.end.0
                <= LOW_PAGES && apart(
                old(ms).regions()[j].vpn_range,
                va_range(VirtAddr(start), VirtAddr(end)),
            )) && old(arena).free_count() >= frames_needed(
            va_range(VirtAddr(start), VirtAddr(end)),
            MapType::Identical,
        ) ==> r is Ok,
        r is Ok ==> {
            &&& built(a0, *final(ms), *final(arena), trampoline)
            &&& final(arena).free_count() >= old(arena).free_count() - frames_needed(
                va_range(VirtAddr(start), VirtAddr(end)),
                MapType::Identical,
            )
            &&& final(ms).regions().len() == old(ms).regions().len() + 1
            &&& forall|i: int|
                0 <= i < old(ms).regions().len() ==> #[trigger] final(ms).regions()[i] == old(ms).regions()[i]
            &&& identity_region(final(ms).regions().last(), start, end, bits)
        },
{
    if start > end {
        return Err(LoadError::BadLayout);
    }
    let range = VpnRange { start: VirtAddr(start).floor(), end: VirtAddr(end).ceil() };
    let ghost ms0 = *ms;
    let ghost a = *arena;
    proof {
        if range.end.0 <= LOW_PAGES && (forall|j: int|
            0 <= j < ms0.regions().len() ==> (#[trigger] ms0.regions()[j]).vpn_range.end.0
                <= LOW_PAGES && apart(ms0.regions()[j].vpn_range, range)) {
            lemma_low_range_clear(a0, ms0, a, trampoline, range);
        }
    }
    let r = add_region(ms, arena, range, MapType::Identical, MapPermission { bits });
    proof {
        if r is Ok {
            lemma_add_keeps_built(
                a0,
                ms0,
                a,
                *ms,
                *arena,
                range,
                MapType::Identical,
                MapPermission { bits },
                trampoline,
            );
        }
    }
    r
}

impl MemorySet {
    /// Builds the address space of the kernel: the trampoline page, and
    /// every part of the kernel image and the rest of physical memory
    /// mapped to itself.
    pub fn new_kernel(arena: &mut FrameArena, layout: &KernelLayout) -> (r: Result<
        MemorySet,
        LoadError,
    >)
        requires
            old(arena).wf(),
        ensures
            final(arena).wf(),
            final(arena).first_frame() == old(arena).first_frame(),
            final(arena).end_frame() == old(arena).end_frame(),
            r != Err::<MemorySet, LoadError>(LoadError::InvalidElf),
            r == Err::<MemorySet, LoadError>(LoadError::OutOfFrames) ==> final(arena).free_count()
                == 0,
            kernel_fits(*layout) && old(arena).free_count() >= kernel_frames(*layout) ==> r is Ok,
            r matches Ok(ms) ==> built(*old(arena), ms, *final(arena), trampoline_frame(*layout))
                && kernel_mapped(*layout, ms),
    {
        let ghost a0 = *arena;
        let trampoline = PhysAddr(layout.strampoline).floor();
        let mut ms = match MemorySet::new_bare(arena) {
            None => {
                return Err(LoadError::OutOfFrames);
            },
            Some(ms) => ms,
        };
        let ghost a_bare = *arena;
        let ghost ms_bare = ms;
        assert(ms.translation(a_bare, trampoline_vpn()) is None);
        let mapped = ms.map_trampoline(arena, trampoline);
        proof {
            ms.lemma_arena_wf(*arena);
        }
        match mapped {
            Err(OutOfFrames) => {
                return Err(LoadError::OutOfFrames);
            },
            Ok(()) => {},
        }
        proof {
            assert(ms.translation(*arena, trampoline_vpn()) == Some(trampoline_entry(trampoline)));
            assert(arena.allocated() =~= a0.allocated().union(ms.owned()));
            assert forall|q: int| !ms.owned().contains(q) implies #[trigger] arena.frame(q)
                == a0.frame(q) by {
                assert(arena.frame(q) == a_bare.frame(q));
                assert(a_bare.frame(q) == a0.frame(q));
            }
            assert forall|p: int| ms.owned().contains(p) implies !a0.allocated().contains(p) by {
                if !ms_bare.owned().contains(p) {
                    assert(!a_bare.allocated().contains(p));
                }
            }
            assert(built(a0, ms, *arena, trampoline));
        }
        let ghost ranges = kernel_ranges(*layout);
        proof {
            assert(ranges[0] == va_range(VirtAddr(layout.stext), VirtAddr(layout.etext)));
            assert(ranges[1] == va_range(VirtAddr(layout.srodata), VirtAddr(layout.erodata)));
            assert(ranges[2] == va_range(VirtAddr(layout.sdata), VirtAddr(layout.edata)));
            assert(ranges[3] == va_range(VirtAddr(layout.sbss_with_stack), VirtAddr(layout.ebss)));
            assert(ranges[4] == va_range(VirtAddr(layout.ekernel), VirtAddr(layout.memory_end)));
            if kernel_fits(*layout) {
                assert forall|i: int, j: int| 0 <= i < 5 && 0 <= j < 5 && i != j implies apart(
                    ranges[i],
                    ranges[j],
                ) by {
                    if i < j {
                        assert(apart(kernel_ranges(*layout)[i], kernel_ranges(*layout)[j]));
                    } else {
                        assert(apart(kernel_ranges(*layout)[j], kernel_ranges(*layout)[i]));
                    }
                }
            }
        }
        match add_identity(
            &mut ms,
            arena,
            layout.stext,
            layout.etext,
            PERM_R | PERM_X,
            Ghost(a0),
            Ghost(trampoline),
        ) {
            Err(e) => {
                return Err(e);
            },
            Ok(()) => {},
        }
        match add_identity(
            &mut ms,
            arena,
            layout.srodata,
            layout.erodata,
            PERM_R,
            Ghost(a0),
            Ghost(trampoline),
        ) {
            Err(e) => {
                return Err(e);
            },
            Ok(()) => {},
        }
        match add_identity(
            &mut ms,
            arena,
            layout.sdata,
            layout.edata,
            PERM_R | PERM_W,
            Ghost(a0),
            Ghost(trampoline),
        ) {
            Err(e) => {
                return Err(e);
            },
            Ok(()) => {},
        }
        match add_identity(
            &mut ms,
            arena,
            layout.sbss_with_stack,
            layout.ebss,
            PERM_R | PERM_W,
            Ghost(a0),
            Ghost(trampoline),
        ) {
            Err(e) => {
                return Err(e);
            },
            Ok(()) => {},
        }
        match add_identity(
            &mut ms,
            arena,
            layout.ekernel,
            layout.memory_end,
            PERM_R | PERM_W,
            Ghost(a0),
            Ghost(trampoline),
        ) {
            Err(e) => {
                return Err(e);
            },
            Ok(()) => {},
        }
        Ok(ms)
    }
}

} // verus!
