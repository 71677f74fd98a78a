//! Address spaces: a page table together with the regions mapped in it.

use vstd::prelude::*;
use crate::config::{PAGE_SIZE, TRAMPOLINE};
use crate::mm::address::{
    lemma_key_determined_by_indexes, page_ceil, page_floor, PhysPageNum, VirtAddr, VirtPageNum,
    VPN_SPACE,
};
use crate::mm::frame_allocator::{zero_frame, FrameArena, FrameTracker, OutOfFrames};
use crate::mm::page_table::{
    has_l2, lemma_entry_fields, lemma_tree_untouched, lemma_with_valid, same_outside,
    tables_kept, tables_needed,
    walk, PTEFlags, PageTable, PageTableEntry, PTE_V,
};

verus! {

/// Permission bit: the region may be read.
pub const PERM_R: u8 = 0x02;

/// Permission bit: the region may be written.
pub const PERM_W: u8 = 0x04;

/// Permission bit: instructions may be fetched from the region.
pub const PERM_X: u8 = 0x08;

/// Permission bit: the region is accessible in user mode.
pub const PERM_U: u8 = 0x10;

/// The permissions of a region, in the bit positions of the table entry flags.
#[derive(Clone, Copy, Debug, PartialEq, Eq, Structural)]
pub struct MapPermission {
    pub bits: u8,
}

/// How the pages of a region are backed.
#[derive(Clone, Copy, Debug, PartialEq, Eq, Structural)]
pub enum MapType {
    /// Each page is mapped to the frame with the same number.
    Identical,
    /// Each page is mapped to a frame of its own, taken from the arena.
    Framed,
}

/// A range of virtual pages, from `start` up to but not including `end`.
#[derive(Clone, Copy, Debug, PartialEq, Eq, Structural)]
pub struct VpnRange {
    pub start: VirtPageNum,
    pub end: VirtPageNum,
}

impl VpnRange {
    /// Whether the range holds page number `v`.
    pub open spec fn spec_contains(&self, v: int) -> bool {
        self.start.0 <= v < self.end.0
    }

    /// The number of pages in the range.
    pub open spec fn spec_len(&self) -> nat {
        if self.start.0 < self.end.0 {
            (self.end.0 - self.start.0) as nat
        } else {
            0
        }
    }

    /// The pages that both ranges hold: from the later start to the earlier end.
    pub open spec fn spec_intersection(&self, other: VpnRange) -> VpnRange {
        VpnRange {
            start: if self.start.0 >= other.start.0 {
                self.start
            } else {
                other.start
            },
            end: if self.end.0 <= other.end.0 {
                self.end
            } else {
                other.end
            },
        }
    }

    /// Whether the range holds no page.
    pub fn is_empty(&self) -> (r: bool)
        ensures
            r == (self.spec_len() == 0),
            r == !(self.start.0 < self.end.0),
    {
        !(self.start.0 < self.end.0)
    }

    /// The number of pages in the range.
    pub fn len(&self) -> (r: u64)
        ensures
            r == self.spec_len(),
    {
        if self.start.0 < self.end.0 {
            self.end.0 - self.start.0
        } else {
            0
        }
    }

    /// The pages that both ranges hold.
    pub fn intersection(&self, other: &VpnRange) -> (r: VpnRange)
        ensures
            r == self.spec_intersection(*other),
            forall|v: int| r.spec_contains(v) <==> self.spec_contains(v) && other.spec_contains(v),
    {
        VpnRange {
            start: if self.start.0 >= other.start.0 {
                self.start
            } else {
                other.start
            },
            end: if self.end.0 <= other.end.0 {
                self.end
            } else {
                other.end
            },
        }
    }
}

/// The pages that the addresses from `start_va` up to `end_va` touch.
pub open spec fn va_range(start_va: VirtAddr, end_va: VirtAddr) -> VpnRange {
    VpnRange {
        start: VirtPageNum(page_floor(start_va.0 as int) as u64),
        end: VirtPageNum(page_ceil(end_va.0 as int) as u64),
    }
}

/// The page of the trampoline.
pub open spec fn trampoline_vpn() -> VirtPageNum {
    VirtPageNum(TRAMPOLINE / PAGE_SIZE)
}

/// The table entry of the trampoline page when it is mapped to frame `ppn`.
pub open spec fn trampoline_entry(ppn: PhysPageNum) -> PageTableEntry {
    PageTableEntry::spec_new(ppn, PTEFlags { bits: PERM_R | PERM_X }.spec_with(PTE_V))
}

/// Why an address space could not be built.
#[derive(Clone, Copy, Debug, PartialEq, Eq, Structural)]
pub enum LoadError {
    /// The image is not a well-formed ELF image.
    InvalidElf,
    /// A region to be mapped is too long, or one of its pages is mapped
    /// already, or an address left the range of its type.
    BadLayout,
    /// The arena ran out of frames.
    OutOfFrames,
}

/// What adding a region over `range`, backed as `map_type` says and with
/// permissions `perm`, does to an address space: `ms0` over arena `a0`
/// before, `ms1` over `a1` after. The address space has one more region;
/// the frames and table pages it took were free before; what it held for
/// pages that share no table slot with the region is as before.
pub open spec fn region_added(
    ms0: MemorySet,
    a0: FrameArena,
    ms1: MemorySet,
    a1: FrameArena,
    range: VpnRange,
    map_type: MapType,
    perm: MapPermission,
) -> bool {
    &&& ms1.wf(a1)
    &&& ms1.table().root() == ms0.table().root()
    &&& ms1.regions().len() == ms0.regions().len() + 1
    &&& forall|i: int|
        0 <= i < ms0.regions().len() ==> #[trigger] ms1.regions()[i] == ms0.regions()[i]
    &&& ms1.regions().last().vpn_range == range
    &&& ms1.regions().last().map_type == map_type
    &&& ms1.regions().last().map_perm == perm
    &&& forall|v: VirtPageNum|
        (forall|k: int|
            0 <= k < range.spec_len() ==> (#[trigger] nth_page(range.start, k)).key() != v.key())
            ==> #[trigger] ms1.translation(a1, v) == ms0.translation(a0, v)
    &&& ms0.owned().subset_of(ms1.owned())
    &&& ms0.data_frames().subset_of(ms1.data_frames())
    &&& forall|p: int|
        ms1.owned().contains(p) && !ms0.owned().contains(p) ==> !a0.allocated().contains(p)
    &&& a1.allocated() == a0.allocated().union(ms1.owned())
    &&& same_outside(
        a0,
        a1,
        ms1.table().owned().union(frame_set(ms1.regions().last().data_frames@)),
    )
    &&& forall|n: int|
        0 <= n < ms1.regions().last().data_frames@.len() ==> a1.frame(
            (#[trigger] ms1.regions().last().data_frames@[n]).ppn.0 as int,
        ) == zero_frame()
    &&& a1.free_count() >= a0.free_count() - frames_missing(
        a0,
        ms0.table().root(),
        range,
        map_type,
    )
    &&& a1.free_count() >= a0.free_count() - frames_needed(range, map_type)
    &&& tables_kept(a0, a1, ms0.table().root())
}

/// The number of last-level tables that hold the entries of the `m` pages
/// from page `start` on: each holds those of 512 pages in a row.
pub open spec fn table_groups(start: int, m: int) -> int {
    if m <= 0 {
        0
    } else {
        (start + m - 1) / 512 - start / 512 + 1
    }
}

/// The number of frames that are enough to map `range` backed as
/// `map_type` says: one for each page of a framed region, and two for each
/// last-level table that holds entries of its pages.
pub open spec fn frames_needed(range: VpnRange, map_type: MapType) -> int {
    (if map_type == MapType::Framed {
        range.spec_len() as int
    } else {
        0
    }) + 2 * table_groups(range.start.0 as int, range.spec_len() as int)
}

/// Whether the `k`-th page from page `start` on is the first of the range,
/// or the first whose entry lies in its last-level table.
pub open spec fn starts_table(start: int, k: int) -> bool {
    k == 0 || (start + k) % 512 == 0
}

/// The number of last-level tables that hold entries of the `m` pages from
/// page `start` on and that the walk from `root` does not reach in arena `a`.
pub open spec fn missing_groups(a: FrameArena, root: int, start: int, m: int) -> int
    decreases m,
{
    if m <= 0 {
        0
    } else {
        missing_groups(a, root, start, m - 1) + if starts_table(start, m - 1) && !has_l2(
            a,
            root,
            VirtPageNum((start + m - 1) as u64).spec_index(0),
            VirtPageNum((start + m - 1) as u64).spec_index(1),
        ) {
            1int
        } else {
            0int
        }
    }
}

/// The number of frames that are enough to map the first `m` pages from
/// page `start` on in the table rooted at `root`, as arena `a` stands: one
/// for each page if they are backed by frames of their own, and two for
/// each last-level table that is not there yet.
pub open spec fn frames_lacking(
    a: FrameArena,
    root: int,
    start: int,
    map_type: MapType,
    m: int,
) -> int {
    (if map_type == MapType::Framed {
        m
    } else {
        0
    }) + 2 * missing_groups(a, root, start, m)
}

/// The number of frames that are enough to map `range` in the table rooted
/// at `root`, as arena `a` stands.
pub open spec fn frames_missing(
    a: FrameArena,
    root: int,
    range: VpnRange,
    map_type: MapType,
) -> int {
    frames_lacking(a, root, range.start.0 as int, map_type, range.spec_len() as int)
}

/// The tables that are not there yet are among the tables that hold the
/// entries, and more pages lack no fewer tables.
pub proof fn lemma_missing_groups(a: FrameArena, root: int, start: int, m: int, n: int)
    requires
        0 <= start,
        0 <= m <= n,
    ensures
        0 <= missing_groups(a, root, start, m) <= missing_groups(a, root, start, n),
        missing_groups(a, root, start, n) <= table_groups(start, n),
    decreases n,
{
    if n > 0 {
        lemma_groups_step(start, n - 1);
        if m < n {
            lemma_missing_groups(a, root, start, m, n - 1);
        } else {
            lemma_missing_groups(a, root, start, n - 1, n - 1);
        }
    }
}

/// Whether the walk from `root` in arena `a` reaches the last-level table
/// that holds the entry of page `v`.
pub open spec fn table_reached(a: FrameArena, root: int, v: int) -> bool {
    has_l2(a, root, VirtPageNum(v as u64).spec_index(0), VirtPageNum(v as u64).spec_index(1))
}

/// Pages whose last-level tables are all there lack no table.
pub proof fn lemma_no_table_missing(a: FrameArena, root: int, start: int, m: int)
    requires
        forall|v: int| start <= v < start + m ==> #[trigger] table_reached(a, root, v),
    ensures
        missing_groups(a, root, start, m) == 0,
    decreases m,
{
    if m > 0 {
        lemma_no_table_missing(a, root, start, m - 1);
        assert(table_reached(a, root, start + m - 1));
    }
}

/// The frames that are enough for a range as the arena stands are no more
/// than those that are enough for it in any case.
pub proof fn lemma_frames_missing_bound(
    a: FrameArena,
    root: int,
    range: VpnRange,
    map_type: MapType,
)
    ensures
        0 <= frames_missing(a, root, range, map_type) <= frames_needed(range, map_type),
{
    lemma_missing_groups(a, root, range.start.0 as int, 0, range.spec_len() as int);
}

/// One more page needs at most one more table, and none if its entry lies
/// in the table of the page before it.
pub proof fn lemma_groups_step(start: int, m: int)
    requires
        0 <= start,
        0 <= m,
    ensures
        table_groups(start, m + 1) - table_groups(start, m) == if m == 0 || (start + m) % 512 == 0 {
            1int
        } else {
            0int
        },
{
}

/// A page whose number is no multiple of 512 uses the same tables as the
/// page before it.
pub proof fn lemma_same_tables(start: VirtPageNum, m: int)
    requires
        m > 0,
        start.0 + m <= u64::MAX,
        (start.0 + m) % 512 != 0,
    ensures
        nth_page(start, m).spec_index(0) == nth_page(start, m - 1).spec_index(0),
        nth_page(start, m).spec_index(1) == nth_page(start, m - 1).spec_index(1),
{
    let v = start.0 + m;
    assert(v / 0x200 == (v - 1) / 0x200);
    assert(v / 0x4_0000 == (v - 1) / 0x4_0000);
}

/// The `m`-th page from `start` on.
pub open spec fn nth_page(start: VirtPageNum, m: int) -> VirtPageNum {
    VirtPageNum((start.0 + m) as u64)
}

/// The frame that backs the `k`-th page of a region that starts at page
/// `start`, is backed as `map_type` says and holds the frames `frames`.
pub open spec fn backing(map_type: MapType, start: VirtPageNum, frames: Seq<FrameTracker>, k: int) -> int {
    match map_type {
        MapType::Identical => start.0 + k,
        MapType::Framed => frames[k].ppn.0 as int,
    }
}

/// The page numbers of a set of frame handles.
pub open spec fn frame_set(frames: Seq<FrameTracker>) -> Set<int> {
    Set::new(|p: int| exists|n: int| 0 <= n < frames.len() && #[trigger] frames[n].ppn.0 == p)
}

/// A contiguous range of virtual pages mapped with one set of permissions.
pub struct MapArea {
    pub vpn_range: VpnRange,
    pub data_frames: Vec<FrameTracker>,
    pub map_type: MapType,
    pub map_perm: MapPermission,
}

impl MapArea {
    /// The region is consistent: its range is ordered and short enough that
    /// no two of its pages share a table slot, and it holds one frame per
    /// page if it is framed, and none otherwise.
    pub open spec fn wf(&self) -> bool {
        &&& self.vpn_range.start.0 <= self.vpn_range.end.0
        &&& self.vpn_range.end.0 - self.vpn_range.start.0 <= VPN_SPACE
        &&& match self.map_type {
            MapType::Framed => self.data_frames@.len() == self.vpn_range.end.0
                - self.vpn_range.start.0,
            MapType::Identical => self.data_frames@.len() == 0,
        }
    }

    /// Whether the region holds page number `v`.
    pub open spec fn covers(&self, v: int) -> bool {
        self.vpn_range.spec_contains(v)
    }

    /// The frame that backs page number `v` of the region.
    pub open spec fn frame_of(&self, v: int) -> int {
        match self.map_type {
            MapType::Identical => v,
            MapType::Framed => self.data_frames@[v - self.vpn_range.start.0].ppn.0 as int,
        }
    }

    /// The table entry of page number `v` of the region.
    pub open spec fn entry_for(&self, v: int) -> PageTableEntry {
        PageTableEntry::spec_new(
            PhysPageNum(self.frame_of(v) as u64),
            PTEFlags { bits: self.map_perm.bits }.spec_with(PTE_V),
        )
    }

    /// The pages of this region that lie in `other`.
    pub fn intersection(&self, other: &VpnRange) -> (r: VpnRange)
        ensures
            r == self.vpn_range.spec_intersection(*other),
            forall|v: int| r.spec_contains(v) <==> self.covers(v) && other.spec_contains(v),
    {
        self.vpn_range.intersection(other)
    }
}

/// Pages whose numbers share a table slot are looked up alike.
pub proof fn lemma_same_key_same_walk(a: FrameArena, root: int, v: VirtPageNum, w: VirtPageNum)
    requires
        v.key() == w.key(),
    ensures
        walk(a, root, v) == walk(a, root, w),
{
    lemma_key_determined_by_indexes(v, w);
}

/// Two different pages less than 2^27 apart use different table slots.
pub proof fn lemma_near_pages_distinct_keys(start: VirtPageNum, m: int, n: int)
    requires
        0 <= m < VPN_SPACE,
        0 <= n < VPN_SPACE,
        m != n,
        start.0 + m <= u64::MAX,
        start.0 + n <= u64::MAX,
    ensures
        nth_page(start, m).key() != nth_page(start, n).key(),
{
    let x = start.0 + m;
    let y = start.0 + n;
    assert(x == (x / 0x800_0000) * 0x800_0000 + x % 0x800_0000);
    assert(y == (y / 0x800_0000) * 0x800_0000 + y % 0x800_0000);
}

/// One address space: a page table and the regions mapped in it.
pub struct MemorySet {
    page_table: PageTable,
    areas: Vec<MapArea>,
}

impl MemorySet {
    /// The page table of the address space.
    pub closed spec fn table(&self) -> PageTable {
        self.page_table
    }

    /// The regions of the address space, in the order they were added.
    pub closed spec fn regions(&self) -> Seq<MapArea> {
        self.areas@
    }

    /// The frames that back the pages of framed regions.
    pub open spec fn data_frames(&self) -> Set<int> {
        Set::new(
            |p: int|
                exists|i: int, n: int|
                    0 <= i < self.regions().len() && 0 <= n < self.regions()[i].data_frames@.len()
                        && #[trigger] self.regions()[i].data_frames@[n].ppn.0 == p,
        )
    }

    /// All frames the address space owns: those of its tables and those of its regions.
    pub open spec fn owned(&self) -> Set<int> {
        self.table().owned().union(self.data_frames())
    }

    /// Whether `range` has at most 2^27 pages and none of them is mapped.
    pub open spec fn clear(&self, a: FrameArena, range: VpnRange) -> bool {
        range.spec_len() <= VPN_SPACE && forall|v: int| #[trigger]
            range.spec_contains(v) ==> self.translation(a, VirtPageNum(v as u64)) is None
    }

    /// What the address space holds for page `vpn`.
    pub open spec fn translation(&self, a: FrameArena, vpn: VirtPageNum) -> Option<PageTableEntry> {
        self.table().translation(a, vpn)
    }

    /// The address space is consistent with arena `a`: its table is well
    /// formed, every page of every region is mapped as the region says, no
    /// two regions share a table slot, and the frames of the regions are
    /// allocated, distinct, and none of them is a table page.
    #[verifier::opaque]
    pub open spec fn wf(&self, a: FrameArena) -> bool {
        &&& self.table().wf(a)
        &&& forall|i: int| 0 <= i < self.regions().len() ==> (#[trigger] self.regions()[i]).wf()
        &&& forall|i: int, v: int|
            0 <= i < self.regions().len() && #[trigger] self.regions()[i].covers(v)
                ==> self.translation(a, VirtPageNum(v as u64)) == Some(
                self.regions()[i].entry_for(v),
            )
        &&& forall|i: int, j: int, v: int, w: int|
            0 <= i < self.regions().len() && 0 <= j < self.regions().len() && i != j
                && #[trigger] self.regions()[i].covers(v) && #[trigger] self.regions()[j].covers(w)
                ==> VirtPageNum(v as u64).key() != VirtPageNum(w as u64).key()
        &&& forall|i: int, n: int|
            0 <= i < self.regions().len() && 0 <= n < self.regions()[i].data_frames@.len() ==> {
                &&& a.allocated().contains(
                    (#[trigger] self.regions()[i].data_frames@[n]).ppn.0 as int,
                )
                &&& !self.table().owned().contains(self.regions()[i].data_frames@[n].ppn.0 as int)
            }
        &&& forall|i: int, n: int, j: int, m: int|
            0 <= i < self.regions().len() && 0 <= n < self.regions()[i].data_frames@.len() && 0
                <= j < self.regions().len() && 0 <= m < self.regions()[j].data_frames@.len() && (i
                != j || n != m) ==> (#[trigger] self.regions()[i].data_frames@[n]).ppn != (
            #[trigger] self.regions()[j].data_frames@[m]).ppn
    }

    /// A consistent address space lives in a consistent arena, and its table
    /// is well formed.
    pub proof fn lemma_arena_wf(&self, a: FrameArena)
        requires
            self.wf(a),
        ensures
            a.wf(),
            self.table().wf(a),
    {
        reveal(MemorySet::wf);
    }

    /// Every region of a consistent address space is consistent, and each of
    /// its pages is mapped as the region says.
    pub proof fn lemma_region_wf(&self, a: FrameArena, i: int)
        requires
            self.wf(a),
            0 <= i < self.regions().len(),
        ensures
            self.regions()[i].wf(),
            forall|v: int| #[trigger]
                self.regions()[i].covers(v) ==> self.translation(a, VirtPageNum(v as u64)) == Some(
                    self.regions()[i].entry_for(v),
                ),
    {
        reveal(MemorySet::wf);
    }

    /// A page of a framed region is mapped to the region's frame for it, a
    /// frame of the arena that is not a table page, with the valid bit and
    /// exactly the region's permissions.
    pub proof fn lemma_framed_page(&self, a: FrameArena, i: int, v: int)
        requires
            self.wf(a),
            0 <= i < self.regions().len(),
            self.regions()[i].covers(v),
            self.regions()[i].map_type == MapType::Framed,
        ensures
            self.translation(a, VirtPageNum(v as u64)) == Some(self.regions()[i].entry_for(v)),
            self.regions()[i].entry_for(v).spec_ppn().0 == self.regions()[i].frame_of(v),
            self.data_frames().contains(self.regions()[i].frame_of(v)),
            !self.table().owned().contains(self.regions()[i].frame_of(v)),
            a.contains(self.regions()[i].frame_of(v)),
            self.regions()[i].entry_for(v).spec_is_valid(),
            self.regions()[i].entry_for(v).spec_readable() == (self.regions()[i].map_perm.bits
                & PERM_R != 0),
            self.regions()[i].entry_for(v).spec_writable() == (self.regions()[i].map_perm.bits
                & PERM_W != 0),
            self.regions()[i].entry_for(v).spec_executable() == (self.regions()[i].map_perm.bits
                & PERM_X != 0),
            self.regions()[i].entry_for(v).spec_user() == (self.regions()[i].map_perm.bits & PERM_U
                != 0),
    {
        reveal(MemorySet::wf);
        let area = self.regions()[i];
        assert(area.wf());
        let n = v - area.vpn_range.start.0;
        let f = area.data_frames@[n].ppn;
        assert(self.regions()[i].data_frames@[n].ppn.0 == f.0);
        assert(a.allocated().contains(f.0 as int));
        a.lemma_allocated_contained(f.0 as int);
        a.lemma_frame_len(f.0 as int);
        let flags = PTEFlags { bits: area.map_perm.bits };
        lemma_entry_fields(f, flags.spec_with(PTE_V));
        lemma_with_valid(flags);
    }

    /// No page lies in two regions, and no two pages of different regions
    /// share a table slot.
    pub proof fn lemma_regions_apart(&self, a: FrameArena, i: int, j: int, v: int, w: int)
        requires
            self.wf(a),
            0 <= i < self.regions().len(),
            0 <= j < self.regions().len(),
            i != j,
            self.regions()[i].covers(v),
            self.regions()[j].covers(w),
        ensures
            v != w,
            VirtPageNum(v as u64).key() != VirtPageNum(w as u64).key(),
    {
        reveal(MemorySet::wf);
    }

    /// The frames of the regions are all different.
    pub proof fn lemma_data_frames_distinct(&self, a: FrameArena, i: int, n: int, j: int, m: int)
        requires
            self.wf(a),
            0 <= i < self.regions().len(),
            0 <= n < self.regions()[i].data_frames@.len(),
            0 <= j < self.regions().len(),
            0 <= m < self.regions()[j].data_frames@.len(),
            i != j || n != m,
        ensures
            self.regions()[i].data_frames@[n].ppn != self.regions()[j].data_frames@[m].ppn,
    {
        reveal(MemorySet::wf);
    }

    /// A frame that backs a page of a region is not a table page.
    pub proof fn lemma_data_frame_not_table(&self, a: FrameArena, p: int)
        requires
            self.wf(a),
            self.data_frames().contains(p),
        ensures
            !self.table().owned().contains(p),
    {
        reveal(MemorySet::wf);
        let (i, n) = choose|i: int, n: int|
            0 <= i < self.regions().len() && 0 <= n < self.regions()[i].data_frames@.len()
                && #[trigger] self.regions()[i].data_frames@[n].ppn.0 == p;
        assert(!self.table().owned().contains(self.regions()[i].data_frames@[n].ppn.0 as int));
    }

    /// Every frame the address space owns is an allocated frame of the arena.
    pub proof fn lemma_owned_allocated(&self, a: FrameArena, p: int)
        requires
            self.wf(a),
            self.owned().contains(p),
        ensures
            a.allocated().contains(p),
            a.contains(p),
    {
        reveal(MemorySet::wf);
        if self.table().owned().contains(p) {
            self.table().lemma_owned_allocated(a, p);
        } else {
            let (i, n) = choose|i: int, n: int|
                0 <= i < self.regions().len() && 0 <= n < self.regions()[i].data_frames@.len()
                    && #[trigger] self.regions()[i].data_frames@[n].ppn.0 == p;
            assert(a.allocated().contains(self.regions()[i].data_frames@[n].ppn.0 as int));
        }
        a.lemma_allocated_contained(p);
    }

    /// The address space stays consistent, and holds the same for every page,
    /// when the arena changes only in frames that are not its table pages and
    /// none of its frames is given back.
    pub proof fn lemma_untouched(&self, a: FrameArena, b: FrameArena, changed: Set<int>)
        requires
            self.wf(a),
            b.wf(),
            same_outside(a, b, changed),
            changed.disjoint(self.table().owned()),
            self.owned().subset_of(b.allocated()),
        ensures
            self.wf(b),
            forall|v: VirtPageNum| #[trigger] self.translation(b, v) == self.translation(a, v),
    {
        reveal(MemorySet::wf);
        assert forall|q: int| self.table().owned().contains(q) implies #[trigger] b.frame(q)
            == a.frame(q) by {
            assert(!changed.contains(q));
        }
        assert(self.table().owned().subset_of(b.allocated())) by {
            assert forall|q: int| self.table().owned().contains(q) implies b.allocated().contains(
                q,
            ) by {
                assert(self.owned().contains(q));
            }
        }
        lemma_tree_untouched(a, b, self.table().root(), self.table().owned());
        assert forall|i: int, n: int|
            0 <= i < self.regions().len() && 0 <= n < self.regions()[i].data_frames@.len() implies {
            &&& b.allocated().contains((#[trigger] self.regions()[i].data_frames@[n]).ppn.0 as int)
            &&& !self.table().owned().contains(self.regions()[i].data_frames@[n].ppn.0 as int)
        } by {
            assert(self.data_frames().contains(self.regions()[i].data_frames@[n].ppn.0 as int));
            assert(self.owned().contains(self.regions()[i].data_frames@[n].ppn.0 as int));
        }
        assert forall|i: int, v: int|
            0 <= i < self.regions().len() && #[trigger] self.regions()[i].covers(
                v,
            ) implies self.translation(b, VirtPageNum(v as u64)) == Some(
            self.regions()[i].entry_for(v),
        ) by {
            assert(walk(b, self.table().root(), VirtPageNum(v as u64)) == walk(
                a,
                self.table().root(),
                VirtPageNum(v as u64),
            ));
        }
    }

    /// An address space with an empty page table and no region, or nothing
    /// when the arena has no frame for the root table.
    pub fn new_bare(arena: &mut FrameArena) -> (r: Option<MemorySet>)
        requires
            old(arena).wf(),
        ensures
            final(arena).wf(),
            r is Some <==> old(arena).free_count() > 0,
            r is None ==> final(arena).allocation() == old(arena).allocation(),
            r matches Some(ms) ==> {
                &&& ms.wf(*final(arena))
                &&& ms.regions().len() == 0
                &&& ms.owned() == set![ms.table().root()]
                &&& !old(arena).allocated().contains(ms.table().root())
                &&& final(arena).allocated() == old(arena).allocated().insert(ms.table().root())
                &&& final(arena).free_count() == old(arena).free_count() - 1
                &&& forall|v: VirtPageNum| #[trigger] ms.translation(*final(arena), v) is None
            },
            same_outside(
                *old(arena),
                *final(arena),
                if r is Some {
                    r.unwrap().owned()
                } else {
                    Set::empty()
                },
            ),
    {
        match PageTable::new(arena) {
            None => None,
            Some(page_table) => {
                let ms = MemorySet { page_table, areas: Vec::new() };
                proof {
                    reveal(MemorySet::wf);
                    assert(ms.data_frames() =~= Set::<int>::empty());
                    assert(ms.owned() =~= set![ms.table().root()]);
                }
                Some(ms)
            },
        }
    }

    /// Maps the pages of `range` with permissions `perm`, each to the frame
    /// with its own number or to a fresh zeroed frame, and records them as a
    /// new region. The pages must not be mapped yet. Fails when the arena
    /// runs out of frames on the way, which it does not if it has three free
    /// frames for every page; after a failure the address space is of no
    /// further use.
    pub fn push(
        &mut self,
        arena: &mut FrameArena,
        range: VpnRange,
        map_type: MapType,
        perm: MapPermission,
    ) -> (r: Result<(), OutOfFrames>)
        requires
            old(self).wf(*old(arena)),
            range.start.0 <= range.end.0,
            range.end.0 - range.start.0 <= VPN_SPACE,
            forall|v: int| #[trigger]
                range.spec_contains(v) ==> old(self).translation(
                    *old(arena),
                    VirtPageNum(v as u64),
                ) is None,
        ensures
            final(arena).wf(),
            final(arena).first_frame() == old(arena).first_frame(),
            final(arena).end_frame() == old(arena).end_frame(),
            old(arena).free_count() >= frames_missing(
                *old(arena),
                old(self).table().root(),
                range,
                map_type,
            ) ==> r is Ok,
            old(arena).free_count() >= frames_needed(range, map_type) ==> r is Ok,
            r is Err ==> final(arena).free_count() == 0,
            r is Ok ==> region_added(
                *old(self),
                *old(arena),
                *final(self),
                *final(arena),
                range,
                map_type,
                perm,
            ),
    {
        let n_pages: u64 = range.len();
        let start = range.start;
        let flags = PTEFlags { bits: perm.bits };
        let ghost a0 = *arena;
        let ghost ms0 = *old(self);
        let mut frames: Vec<FrameTracker> = Vec::new();
        let mut m: u64 = 0;
        proof {
            lemma_push_start(ms0, a0, range, map_type, flags);
        }
        while m < n_pages
            invariant
                m <= n_pages,
                n_pages == range.spec_len(),
                range.start.0 + n_pages == range.end.0,
                start == range.start,
                flags.bits == perm.bits,
                a0 == *old(arena),
                ms0 == *old(self),
                self.areas == ms0.areas,
                arena.wf(),
                arena.first_frame() == a0.first_frame(),
                arena.end_frame() == a0.end_frame(),
                push_progress(
                    ms0,
                    a0,
                    *arena,
                    self.page_table,
                    range,
                    map_type,
                    flags,
                    frames@,
                    m as int,
                ),
            decreases n_pages - m,
        {
            let vpn = VirtPageNum(start.0 + m);
            let ghost a = *arena;
            let ghost pt = self.page_table;
            let ghost fr = frames@;
            proof {
                lemma_push_ready(ms0, a0, a, pt, range, map_type, flags, fr, m as int);
            }
            match map_page(&mut self.page_table, arena, &mut frames, vpn, map_type, flags) {
                Err(e) => {
                    return Err(e);
                },
                Ok(()) => {},
            }
            proof {
                lemma_push_step(
                    ms0,
                    a0,
                    a,
                    pt,
                    range,
                    map_type,
                    flags,
                    fr,
                    m as int,
                    *arena,
                    self.page_table,
                    frames@,
                );
            }
            m = m + 1;
        }
        let ghost a_end = *arena;
        let ghost frames_end = frames@;
        let area = MapArea { vpn_range: range, data_frames: frames, map_type, map_perm: perm };
        self.areas.push(area);
        proof {
            assert(self.regions() =~= ms0.regions().push(area));
            lemma_push_finish(ms0, a0, a_end, *self, range, map_type, perm, flags);
        }
        Ok(())
    }

    /// Adds a region of fresh zeroed frames that covers the addresses from
    /// `start_va` up to `end_va`, with permissions `perm`.
    pub fn insert_framed_area(
        &mut self,
        arena: &mut FrameArena,
        start_va: VirtAddr,
        end_va: VirtAddr,
        perm: MapPermission,
    ) -> (r: Result<(), OutOfFrames>)
        requires
            old(self).wf(*old(arena)),
            start_va.0 <= end_va.0,
            va_range(start_va, end_va).spec_len() <= VPN_SPACE,
            forall|v: int| #[trigger]
                va_range(start_va, end_va).spec_contains(v) ==> old(self).translation(
                    *old(arena),
                    VirtPageNum(v as u64),
                ) is None,
        ensures
            final(arena).wf(),
            final(arena).first_frame() == old(arena).first_frame(),
            final(arena).end_frame() == old(arena).end_frame(),
            old(arena).free_count() >= frames_missing(
                *old(arena),
                old(self).table().root(),
                va_range(start_va, end_va),
                MapType::Framed,
            ) ==> r is Ok,
            old(arena).free_count() >= frames_needed(va_range(start_va, end_va), MapType::Framed)
                ==> r is Ok,
            r is Err ==> final(arena).free_count() == 0,
            r is Ok ==> region_added(
                *old(self),
                *old(arena),
                *final(self),
                *final(arena),
                va_range(start_va, end_va),
                MapType::Framed,
                perm,
            ),
    {
        let range = VpnRange { start: start_va.floor(), end: end_va.ceil() };
        self.push(arena, range, MapType::Framed, perm)
    }

    /// Removes the `idx`-th region: unmaps its pages and gives its frames
    /// back to the arena.
    pub fn remove_area(&mut self, arena: &mut FrameArena, idx: usize)
        requires
            old(self).wf(*old(arena)),
            idx < old(self).regions().len(),
        ensures
            final(self).wf(*final(arena)),
            final(arena).first_frame() == old(arena).first_frame(),
            final(arena).end_frame() == old(arena).end_frame(),
            final(self).table() == old(self).table(),
            final(self).regions() == old(self).regions().remove(idx as int),
            forall|k: int|
                0 <= k < old(self).regions()[idx as int].vpn_range.spec_len() ==> final(self).translation(
                    *final(arena),
                    #[trigger] nth_page(old(self).regions()[idx as int].vpn_range.start, k),
                ) is None,
            forall|v: VirtPageNum|
                (forall|k: int|
                    0 <= k < old(self).regions()[idx as int].vpn_range.spec_len() ==> (
                    #[trigger] nth_page(old(self).regions()[idx as int].vpn_range.start, k)).key()
                        != v.key()) ==> #[trigger] final(self).translation(*final(arena), v) == old(self).translation(*old(arena), v),
            final(arena).allocated() == old(arena).allocated().difference(
                frame_set(old(self).regions()[idx as int].data_frames@),
            ),
            final(self).owned() == old(self).owned().difference(
                frame_set(old(self).regions()[idx as int].data_frames@),
            ),
            final(arena).free_count() == old(arena).free_count() + old(self).regions()[idx as int].data_frames@.len(),
            same_outside(*old(arena), *final(arena), final(self).table().owned()),
            tables_kept(*old(arena), *final(arena), old(self).table().root()),
    {
        let ghost a0 = *arena;
        let ghost ms0 = *old(self);
        let ghost gone = ms0.regions()[idx as int];
        let area = self.areas.remove(idx);
        let MapArea { vpn_range, data_frames, map_type: _, map_perm: _ } = area;
        let mut frames = data_frames;
        let start = vpn_range.start;
        let n_pages: u64 = vpn_range.len();
        let mut m: u64 = 0;
        proof {
            lemma_region_facts(ms0, a0, idx as int);
        }
        while m < n_pages
            invariant
                m <= n_pages,
                n_pages == gone.vpn_range.spec_len(),
                start == gone.vpn_range.start,
                start.0 + n_pages == gone.vpn_range.end.0,
                n_pages <= VPN_SPACE,
                self.page_table == ms0.page_table,
                self.areas@ == ms0.regions().remove(idx as int),
                arena.wf(),
                arena.allocation() == a0.allocation(),
                self.page_table.wf(*arena),
                same_outside(a0, *arena, ms0.table().owned()),
                tables_kept(a0, *arena, ms0.table().root()),
                forall|k: int|
                    0 <= k < n_pages ==> ms0.translation(a0, #[trigger] nth_page(start, k)) is Some,
                forall|k: int|
                    0 <= k < m ==> self.page_table.translation(
                        *arena,
                        #[trigger] nth_page(start, k),
                    ) is None,
                forall|v: VirtPageNum|
                    (forall|k: int| 0 <= k < m ==> (#[trigger] nth_page(start, k)).key() != v.key())
                        ==> #[trigger] self.page_table.translation(*arena, v) == ms0.translation(
                        a0,
                        v,
                    ),
            decreases n_pages - m,
        {
            let vpn = VirtPageNum(start.0 + m);
            let ghost a = *arena;
            proof {
                assert(vpn == nth_page(start, m as int));
                assert forall|k: int| 0 <= k < m implies (#[trigger] nth_page(start, k)).key()
                    != vpn.key() by {
                    lemma_near_pages_distinct_keys(start, k, m as int);
                }
                assert(self.page_table.translation(a, vpn) == ms0.translation(a0, vpn));
            }
            self.page_table.unmap(arena, vpn);
            proof {
                let root = ms0.table().root();
                assert forall|k: int| 0 <= k < m + 1 implies self.page_table.translation(
                    *arena,
                    #[trigger] nth_page(start, k),
                ) is None by {
                    if k < m {
                        assert(self.page_table.translation(a, nth_page(start, k)) is None);
                    }
                }
                assert forall|v: VirtPageNum|
                    (forall|k: int|
                        0 <= k < m + 1 ==> (#[trigger] nth_page(start, k)).key()
                            != v.key()) implies #[trigger] self.page_table.translation(*arena, v)
                    == ms0.translation(a0, v) by {
                    assert(nth_page(start, m as int).key() != v.key());
                    assert(self.page_table.translation(a, v) == ms0.translation(a0, v));
                }
                assert forall|q: int|
                    !ms0.table().owned().contains(q) implies #[trigger] arena.frame(q) == a0.frame(
                    q,
                ) by {
                    assert(a.frame(q) == a0.frame(q));
                }
            }
            m = m + 1;
        }
        let ghost a_mid = *arena;
        proof {
            lemma_skip_all_empty(gone.data_frames@);
            assert(a_mid.allocated() =~= a0.allocated().difference(
                frame_set(gone.data_frames@.skip(frames@.len() as int)),
            ));
        }
        while frames.len() > 0
            invariant
                arena.wf(),
                arena.first_frame() == a0.first_frame(),
                arena.end_frame() == a0.end_frame(),
                self.page_table == ms0.page_table,
                self.areas@ == ms0.regions().remove(idx as int),
                frames@.len() <= gone.data_frames@.len(),
                frames@ == gone.data_frames@.take(frames@.len() as int),
                forall|n: int|
                    0 <= n < gone.data_frames@.len() ==> a0.allocated().contains(
                        (#[trigger] gone.data_frames@[n]).ppn.0 as int,
                    ),
                forall|n: int, k: int|
                    0 <= n < k < gone.data_frames@.len() ==> (#[trigger] gone.data_frames@[n]).ppn
                        != (#[trigger] gone.data_frames@[k]).ppn,
                arena.allocated() == a0.allocated().difference(
                    frame_set(gone.data_frames@.skip(frames@.len() as int)),
                ),
                arena.free_count() == a0.free_count() + gone.data_frames@.len() - frames@.len(),
                forall|q: int| #[trigger] arena.frame(q) == a_mid.frame(q),
            decreases frames@.len(),
        {
            let f = frames.pop().unwrap();
            proof {
                let n = frames@.len() as int;
                assert(frames@ =~= gone.data_frames@.take(n));
                lemma_skip_step(gone.data_frames@, n);
            }
            arena.frame_dealloc(f);
            proof {
                let n = frames@.len() as int;
                assert(arena.allocated() =~= a0.allocated().difference(
                    frame_set(gone.data_frames@.skip(n)),
                ));
            }
        }
        proof {
            assert(gone.data_frames@.skip(0) =~= gone.data_frames@);
            lemma_remove_finish(ms0, a0, a_mid, *arena, *self, idx as int);
            assert(tables_kept(a_mid, *arena, ms0.table().root()));
        }
    }

    /// Whether `range` has at most 2^27 pages and none of them is mapped.
    pub fn is_clear(&self, arena: &FrameArena, range: &VpnRange) -> (r: bool)
        requires
            arena.wf(),
        ensures
            r == self.clear(*arena, *range),
    {
        if range.len() > VPN_SPACE {
            return false;
        }
        let mut vpn: u64 = range.start.0;
        if !(range.start.0 < range.end.0) {
            return true;
        }
        while vpn < range.end.0
            invariant
                arena.wf(),
                range.start.0 <= vpn <= range.end.0,
                forall|v: int|
                    #[trigger] range.spec_contains(v) && v < vpn ==> self.translation(
                        *arena,
                        VirtPageNum(v as u64),
                    ) is None,
            decreases range.end.0 - vpn,
        {
            if self.page_table.translate(arena, VirtPageNum(vpn)).is_some() {
                assert(range.spec_contains(vpn as int));
                return false;
            }
            vpn = vpn + 1;
        }
        true
    }

    /// Maps the trampoline page, the highest page of the address space, to
    /// frame `ppn`, readable and executable. The page is shared: it belongs
    /// to no region and its frame is not owned. It must not be mapped yet.
    /// Fails, changing no mapping, when the arena runs out of frames for the
    /// table pages needed, which it does not if two are free.
    pub fn map_trampoline(&mut self, arena: &mut FrameArena, ppn: PhysPageNum) -> (r: Result<
        (),
        OutOfFrames,
    >)
        requires
            old(self).wf(*old(arena)),
            old(self).translation(*old(arena), trampoline_vpn()) is None,
        ensures
            final(self).wf(*final(arena)),
            final(arena).first_frame() == old(arena).first_frame(),
            final(arena).end_frame() == old(arena).end_frame(),
            final(self).table().root() == old(self).table().root(),
            final(self).regions() == old(self).regions(),
            old(arena).free_count() >= 2 ==> r is Ok,
            final(arena).free_count() >= old(arena).free_count() - 2,
            r is Err ==> final(arena).free_count() == 0,
            forall|v: VirtPageNum| #[trigger]
                final(self).translation(*final(arena), v) == if r is Ok && v.key()
                    == trampoline_vpn().key() {
                    Some(trampoline_entry(ppn))
                } else {
                    old(self).translation(*old(arena), v)
                },
            old(self).owned().subset_of(final(self).owned()),
            final(self).data_frames() == old(self).data_frames(),
            forall|p: int|
                final(self).owned().contains(p) && !old(self).owned().contains(p) ==> !old(
                    arena,
                ).allocated().contains(p),
            final(arena).allocated() == old(arena).allocated().union(final(self).owned()),
            same_outside(*old(arena), *final(arena), final(self).table().owned()),
    {
        let ghost a0 = *arena;
        let ghost ms0 = *old(self);
        proof {
            reveal(MemorySet::wf);
        }
        let r = self.page_table.map(
            arena,
            VirtAddr(TRAMPOLINE).floor(),
            ppn,
            PTEFlags { bits: PERM_R | PERM_X },
        );
        proof {
            assert(VirtAddr(TRAMPOLINE).spec_floor() == trampoline_vpn());
            let regions = self.regions();
            assert forall|i: int, v: int|
                0 <= i < regions.len() && #[trigger] regions[i].covers(v) implies self.translation(
                *arena,
                VirtPageNum(v as u64),
            ) == Some(regions[i].entry_for(v)) by {
                assert(ms0.translation(a0, VirtPageNum(v as u64)) == Some(
                    regions[i].entry_for(v),
                ));
                if VirtPageNum(v as u64).key() == trampoline_vpn().key() {
                    lemma_same_key_same_walk(
                        a0,
                        ms0.table().root(),
                        VirtPageNum(v as u64),
                        trampoline_vpn(),
                    );
                }
            }
            assert forall|i: int, n: int|
                0 <= i < regions.len() && 0 <= n < regions[i].data_frames@.len() implies {
                &&& arena.allocated().contains((#[trigger] regions[i].data_frames@[n]).ppn.0 as int)
                &&& !self.table().owned().contains(regions[i].data_frames@[n].ppn.0 as int)
            } by {
                let p = regions[i].data_frames@[n].ppn.0 as int;
                assert(a0.allocated().contains(p));
                assert(!ms0.table().owned().contains(p));
            }
            assert(self.data_frames() =~= ms0.data_frames());
            assert forall|p: int| ms0.data_frames().contains(p) implies a0.allocated().contains(
                p,
            ) by {
                let (i, n) = choose|i: int, n: int|
                    0 <= i < regions.len() && 0 <= n < regions[i].data_frames@.len()
                        && #[trigger] regions[i].data_frames@[n].ppn.0 == p;
                assert(a0.allocated().contains(regions[i].data_frames@[n].ppn.0 as int));
            }
            assert(arena.allocated() =~= a0.allocated().union(self.owned()));
        }
        r
    }

    /// The token that names the page table of this address space.
    pub fn satp(&self) -> (r: u64)
        ensures
            r == self.table().spec_satp(),
    {
        self.page_table.satp()
    }

    /// Looks page `vpn` up in the page table.
    pub fn translate(&self, arena: &FrameArena, vpn: VirtPageNum) -> (r: Option<PageTableEntry>)
        requires
            arena.wf(),
        ensures
            r == self.translation(*arena, vpn),
    {
        self.page_table.translate(arena, vpn)
    }

    /// Whether frame `ppn` backs a page of one of the regions.
    pub fn has_data_frame(&self, ppn: PhysPageNum) -> (r: bool)
        ensures
            r == self.data_frames().contains(ppn.0 as int),
    {
        let mut i: usize = 0;
        while i < self.areas.len()
            invariant
                i <= self.areas@.len(),
                forall|j: int, n: int|
                    0 <= j < i && 0 <= n < self.areas@[j].data_frames@.len() ==> (
                    #[trigger] self.areas@[j].data_frames@[n]).ppn.0 != ppn.0,
            decreases self.areas@.len() - i,
        {
            let mut n: usize = 0;
            while n < self.areas[i].data_frames.len()
                invariant
                    i < self.areas@.len(),
                    n <= self.areas@[i as int].data_frames@.len(),
                    forall|j: int, m: int|
                        0 <= j < i && 0 <= m < self.areas@[j].data_frames@.len() ==> (
                        #[trigger] self.areas@[j].data_frames@[m]).ppn.0 != ppn.0,
                    forall|m: int|
                        0 <= m < n ==> (#[trigger] self.areas@[i as int].data_frames@[m]).ppn.0
                            != ppn.0,
                decreases self.areas@[i as int].data_frames@.len() - n,
            {
                if self.areas[i].data_frames[n].ppn.0 == ppn.0 {
                    assert(self.regions()[i as int].data_frames@[n as int].ppn.0 == ppn.0);
                    return true;
                }
                n = n + 1;
            }
            i = i + 1;
        }
        proof {
            if self.data_frames().contains(ppn.0 as int) {
                let (j, m) = choose|j: int, m: int|
                    0 <= j < self.regions().len() && 0 <= m < self.regions()[j].data_frames@.len()
                        && #[trigger] self.regions()[j].data_frames@[m].ppn.0 == ppn.0;
                assert(self.areas@[j].data_frames@[m].ppn.0 != ppn.0);
            }
        }
        false
    }

    /// The `i`-th region.
    pub fn area(&self, i: usize) -> (r: &MapArea)
        requires
            i < self.regions().len(),
        ensures
            *r == self.regions()[i as int],
    {
        &self.areas[i]
    }

    /// The number of regions.
    pub fn area_count(&self) -> (r: usize)
        ensures
            r == self.regions().len(),
    {
        self.areas.len()
    }

    /// The range of pages of the `i`-th region.
    pub fn area_range(&self, i: usize) -> (r: VpnRange)
        requires
            i < self.regions().len(),
        ensures
            r == self.regions()[i as int].vpn_range,
    {
        self.areas[i].vpn_range
    }
}

/// What mapping one page of a region does: arena `a`, table `pt` and the
/// region's frames `fr` before, `a2`, `pt2` and `fr2` after.
pub open spec fn page_mapped(
    a: FrameArena,
    pt: PageTable,
    fr: Seq<FrameTracker>,
    a2: FrameArena,
    pt2: PageTable,
    fr2: Seq<FrameTracker>,
    vpn: VirtPageNum,
    map_type: MapType,
    flags: PTEFlags,
) -> bool {
    let fresh = match map_type {
        MapType::Identical => Set::<int>::empty(),
        MapType::Framed => set![fr2.last().ppn.0 as int],
    };
    let target = match map_type {
        MapType::Identical => vpn.0,
        MapType::Framed => fr2.last().ppn.0,
    };
    &&& a2.wf()
    &&& a2.first_frame() == a.first_frame()
    &&& a2.end_frame() == a.end_frame()
    &&& pt2.wf(a2)
    &&& pt2.root() == pt.root()
    &&& pt.owned().subset_of(pt2.owned())
    &&& forall|p: int| pt2.owned().contains(p) && !pt.owned().contains(p) ==> !a.allocated().contains(p)
    &&& a2.free_count() == a.free_count() - (if map_type == MapType::Framed {
        1int
    } else {
        0int
    }) - tables_needed(a, pt.root(), vpn)
    &&& match map_type {
        MapType::Identical => fr2 == fr,
        MapType::Framed => fr2 == fr.push(fr2.last()) && !a.allocated().contains(
            fr2.last().ppn.0 as int,
        ) && !pt2.owned().contains(fr2.last().ppn.0 as int) && a2.frame(fr2.last().ppn.0 as int)
            == zero_frame(),
    }
    &&& a2.allocated() == a.allocated().union(pt2.owned()).union(fresh)
    &&& same_outside(a, a2, pt2.owned().union(fresh))
    &&& tables_kept(a, a2, pt.root())
    &&& forall|v: VirtPageNum| #[trigger]
        walk(a2, pt.root(), v) == if v.key() == vpn.key() {
            Some(PageTableEntry::spec_new(PhysPageNum(target), flags.spec_with(PTE_V)))
        } else {
            walk(a, pt.root(), v)
        }
}

/// Maps one page of a region: to the frame with its own number, or to a
/// fresh zeroed frame whose handle is added to `frames`.
fn map_page(
    page_table: &mut PageTable,
    arena: &mut FrameArena,
    frames: &mut Vec<FrameTracker>,
    vpn: VirtPageNum,
    map_type: MapType,
    flags: PTEFlags,
) -> (r: Result<(), OutOfFrames>)
    requires
        old(page_table).wf(*old(arena)),
        old(page_table).translation(*old(arena), vpn) is None,
    ensures
        final(arena).wf(),
        final(arena).first_frame() == old(arena).first_frame(),
        final(arena).end_frame() == old(arena).end_frame(),
        r is Ok <==> old(arena).free_count() >= (if map_type == MapType::Framed {
            1int
        } else {
            0int
        }) + tables_needed(*old(arena), old(page_table).root(), vpn),
        r is Err ==> final(arena).free_count() == 0,
        r is Ok ==> page_mapped(
            *old(arena),
            *old(page_table),
            old(frames)@,
            *final(arena),
            *final(page_table),
            final(frames)@,
            vpn,
            map_type,
            flags,
        ),
{
    let ghost a = *arena;
    let ghost root = page_table.root();
    let ghost owned_a = page_table.owned();
    let ppn: PhysPageNum;
    match map_type {
        MapType::Identical => {
            ppn = PhysPageNum(vpn.0);
        },
        MapType::Framed => {
            match arena.frame_alloc() {
                None => {
                    return Err(OutOfFrames);
                },
                Some(frame) => {
                    ppn = frame.ppn;
                    frames.push(frame);
                    proof {
                        assert(!owned_a.contains(ppn.0 as int));
                        lemma_tree_untouched(a, *arena, root, owned_a);
                    }
                },
            }
        },
    }
    let ghost a1 = *arena;
    proof {
        assert(walk(a1, root, vpn) == walk(a, root, vpn));
    }
    let r = page_table.map(arena, vpn, ppn, flags);
    proof {
        if r is Ok {
            let a2 = *arena;
            let fresh = match map_type {
                MapType::Identical => Set::<int>::empty(),
                MapType::Framed => set![ppn.0 as int],
            };
            assert(a2.allocated() =~= a.allocated().union(page_table.owned()).union(fresh));
            assert forall|q: int|
                !page_table.owned().union(fresh).contains(q) implies #[trigger] a2.frame(q)
                == a.frame(q) by {
                assert(a2.frame(q) == a1.frame(q));
            }
            assert forall|v: VirtPageNum| #[trigger]
                walk(a2, root, v) == if v.key() == vpn.key() {
                    Some(PageTableEntry::spec_new(ppn, flags.spec_with(PTE_V)))
                } else {
                    walk(a, root, v)
                } by {
                assert(walk(a1, root, v) == walk(a, root, v));
                assert(page_table.translation(a2, v) == walk(a2, root, v));
            }
            if map_type == MapType::Framed {
                assert(frames@ =~= old(frames)@.push(frames@.last()));
                assert(a2.frame(ppn.0 as int) == a1.frame(ppn.0 as int));
            }
            assert(tables_kept(a, a1, root));
            assert(tables_kept(a, a2, root));
        }
    }
    r
}

/// How far the mapping of a new region has got: the first `m` pages of
/// `range` are mapped in table `pt` over arena `a`, to the frames `frames`
/// if the region is framed, and everything else is as in the address space
/// `ms0` over arena `a0`, from which the mapping started.
#[verifier::opaque]
pub open spec fn push_progress(
    ms0: MemorySet,
    a0: FrameArena,
    a: FrameArena,
    pt: PageTable,
    range: VpnRange,
    map_type: MapType,
    flags: PTEFlags,
    frames: Seq<FrameTracker>,
    m: int,
) -> bool {
    let pt0 = ms0.table();
    let start = range.start;
    let n_pages = range.spec_len() as int;
    &&& 0 <= m <= n_pages <= VPN_SPACE
    &&& range.start.0 + n_pages == range.end.0
    &&& ms0.wf(a0)
    &&& a.wf()
    &&& pt.wf(a)
    &&& pt.root() == pt0.root()
    &&& map_type == MapType::Framed ==> frames.len() == m
    &&& map_type == MapType::Identical ==> frames.len() == 0
    &&& forall|k: int|
        0 <= k < m ==> pt.translation(a, #[trigger] nth_page(start, k)) == Some(
            PageTableEntry::spec_new(
                PhysPageNum(backing(map_type, start, frames, k) as u64),
                flags.spec_with(PTE_V),
            ),
        )
    &&& forall|k: int| m <= k < n_pages ==> pt.translation(a, #[trigger] nth_page(start, k)) is None
    &&& forall|v: VirtPageNum|
        (forall|k: int| 0 <= k < m ==> (#[trigger] nth_page(start, k)).key() != v.key())
            ==> #[trigger] pt.translation(a, v) == pt0.translation(a0, v)
    &&& pt0.owned().subset_of(pt.owned())
    &&& forall|p: int|
        pt.owned().contains(p) ==> pt0.owned().contains(p) || !a0.allocated().contains(p)
    &&& forall|k: int|
        0 <= k < frames.len() ==> {
            &&& a.allocated().contains((#[trigger] frames[k]).ppn.0 as int)
            &&& !a0.allocated().contains(frames[k].ppn.0 as int)
            &&& !pt.owned().contains(frames[k].ppn.0 as int)
        }
    &&& forall|j: int, k: int|
        0 <= j < k < frames.len() ==> (#[trigger] frames[j]).ppn != (#[trigger] frames[k]).ppn
    &&& a.allocated() == a0.allocated().union(pt.owned()).union(frame_set(frames))
    &&& same_outside(a0, a, pt.owned().union(frame_set(frames)))
    &&& a.free_count() >= a0.free_count() - frames_lacking(
        a0,
        pt0.root(),
        range.start.0 as int,
        map_type,
        m,
    )
    &&& tables_kept(a0, a, pt0.root())
    &&& forall|k: int|
        0 <= k < frames.len() ==> a.frame((#[trigger] frames[k]).ppn.0 as int) == zero_frame()
}

/// Before any page of the new region is mapped, nothing has changed.
proof fn lemma_push_start(
    ms0: MemorySet,
    a0: FrameArena,
    range: VpnRange,
    map_type: MapType,
    flags: PTEFlags,
)
    requires
        ms0.wf(a0),
        range.start.0 <= range.end.0,
        range.end.0 - range.start.0 <= VPN_SPACE,
        forall|v: int| #[trigger]
            range.spec_contains(v) ==> ms0.translation(a0, VirtPageNum(v as u64)) is None,
    ensures
        a0.wf(),
        push_progress(ms0, a0, a0, ms0.table(), range, map_type, flags, Seq::empty(), 0),
{
    reveal(push_progress);
    reveal(MemorySet::wf);
    let frames = Seq::<FrameTracker>::empty();
    assert(frame_set(frames) =~= Set::<int>::empty());
    assert(a0.allocated() =~= a0.allocated().union(ms0.table().owned()).union(frame_set(frames)));
    assert forall|k: int| 0 <= k < range.spec_len() implies ms0.table().translation(
        a0,
        #[trigger] nth_page(range.start, k),
    ) is None by {
        assert(range.spec_contains(range.start.0 + k));
    }
}

/// While pages remain, the next one is still unmapped and the table is well formed.
proof fn lemma_push_next(
    ms0: MemorySet,
    a0: FrameArena,
    a: FrameArena,
    pt: PageTable,
    range: VpnRange,
    map_type: MapType,
    flags: PTEFlags,
    frames: Seq<FrameTracker>,
    m: int,
)
    requires
        push_progress(ms0, a0, a, pt, range, map_type, flags, frames, m),
        m < range.spec_len(),
    ensures
        pt.wf(a),
        pt.translation(a, nth_page(range.start, m)) is None,
        range.start.0 + m < range.end.0,
        frames_lacking(a0, pt.root(), range.start.0 as int, map_type, m) + (if map_type
            == MapType::Framed {
            1int
        } else {
            0int
        }) + tables_needed(a, pt.root(), nth_page(range.start, m)) <= frames_lacking(
            a0,
            pt.root(),
            range.start.0 as int,
            map_type,
            m + 1,
        ) <= frames_missing(a0, pt.root(), range, map_type) <= frames_needed(range, map_type),
        a.free_count() >= a0.free_count() - frames_lacking(
            a0,
            pt.root(),
            range.start.0 as int,
            map_type,
            m,
        ),
{
    let start = range.start;
    let root = pt.root();
    let page = nth_page(start, m);
    let needed = tables_needed(a, root, page);
    assert(needed <= 2 * (missing_groups(a0, root, start.0 as int, m + 1) - missing_groups(
        a0,
        root,
        start.0 as int,
        m,
    )) && 0 <= m && range.start.0 + m < range.end.0 && root == ms0.table().root()) by {
        reveal(push_progress);
        if m > 0 && (start.0 + m) % 512 != 0 {
            let before = nth_page(start, m - 1);
            lemma_same_tables(start, m);
            assert(pt.translation(a, before) is Some);
        } else if has_l2(a0, root, page.spec_index(0), page.spec_index(1)) {
            assert(has_l2(a, root, page.spec_index(0), page.spec_index(1)));
        }
    }
    lemma_missing_groups(a0, root, start.0 as int, m + 1, range.spec_len() as int);
    lemma_frames_missing_bound(a0, root, range, map_type);
    reveal(push_progress);
}

/// While pages remain, the next one can be mapped, and the arena has the
/// frames for it if it had enough for the whole range at the start.
proof fn lemma_push_ready(
    ms0: MemorySet,
    a0: FrameArena,
    a: FrameArena,
    pt: PageTable,
    range: VpnRange,
    map_type: MapType,
    flags: PTEFlags,
    frames: Seq<FrameTracker>,
    m: int,
)
    requires
        push_progress(ms0, a0, a, pt, range, map_type, flags, frames, m),
        m < range.spec_len(),
    ensures
        pt.wf(a),
        pt.root() == ms0.table().root(),
        pt.translation(a, nth_page(range.start, m)) is None,
        range.start.0 + m < range.end.0,
        a0.free_count() >= frames_missing(a0, ms0.table().root(), range, map_type)
            || a0.free_count() >= frames_needed(range, map_type) ==> a.free_count() >= (
        if map_type == MapType::Framed {
            1int
        } else {
            0int
        }) + tables_needed(a, pt.root(), nth_page(range.start, m)),
{
    lemma_push_next(ms0, a0, a, pt, range, map_type, flags, frames, m);
    assert(pt.root() == ms0.table().root()) by {
        reveal(push_progress);
    }
}

/// Mapping the next page advances the progress by one.
proof fn lemma_push_step(
    ms0: MemorySet,
    a0: FrameArena,
    a: FrameArena,
    pt: PageTable,
    range: VpnRange,
    map_type: MapType,
    flags: PTEFlags,
    fr: Seq<FrameTracker>,
    m: int,
    a2: FrameArena,
    pt2: PageTable,
    fr2: Seq<FrameTracker>,
)
    requires
        push_progress(ms0, a0, a, pt, range, map_type, flags, fr, m),
        m < range.spec_len(),
        page_mapped(a, pt, fr, a2, pt2, fr2, nth_page(range.start, m), map_type, flags),
    ensures
        push_progress(ms0, a0, a2, pt2, range, map_type, flags, fr2, m + 1),
{
    lemma_push_next(ms0, a0, a, pt, range, map_type, flags, fr, m);
    reveal(push_progress);
    let pt0 = ms0.table();
    let start = range.start;
    let n_pages = range.spec_len() as int;
    let root = pt.root();
    let vpn = nth_page(start, m);
    let fresh = match map_type {
        MapType::Identical => Set::<int>::empty(),
        MapType::Framed => set![fr2.last().ppn.0 as int],
    };
    assert(frame_set(fr2) =~= frame_set(fr).union(fresh)) by {
        assert forall|p: int| frame_set(fr2).contains(p) <==> frame_set(fr).union(fresh).contains(
            p,
        ) by {
            if frame_set(fr).contains(p) {
                let n = choose|n: int| 0 <= n < fr.len() && #[trigger] fr[n].ppn.0 == p;
                assert(fr2[n].ppn.0 == p);
            }
            if fresh.contains(p) {
                assert(fr2[fr2.len() - 1].ppn.0 == p);
            }
            if frame_set(fr2).contains(p) {
                let n = choose|n: int| 0 <= n < fr2.len() && #[trigger] fr2[n].ppn.0 == p;
                if n < fr.len() {
                    assert(fr[n].ppn.0 == p);
                }
            }
        }
    }
    assert(backing(map_type, start, fr2, m) == match map_type {
        MapType::Identical => vpn.0 as int,
        MapType::Framed => fr2.last().ppn.0 as int,
    });
    assert forall|k: int| 0 <= k < m + 1 implies pt2.translation(
        a2,
        #[trigger] nth_page(start, k),
    ) == Some(
        PageTableEntry::spec_new(
            PhysPageNum(backing(map_type, start, fr2, k) as u64),
            flags.spec_with(PTE_V),
        ),
    ) by {
        if k < m {
            lemma_near_pages_distinct_keys(start, k, m);
            assert(walk(a2, root, nth_page(start, k)) == walk(a, root, nth_page(start, k)));
            assert(backing(map_type, start, fr2, k) == backing(map_type, start, fr, k));
        } else {
            assert(walk(a2, root, vpn) is Some);
        }
    }
    assert forall|k: int| m + 1 <= k < n_pages implies pt2.translation(
        a2,
        #[trigger] nth_page(start, k),
    ) is None by {
        lemma_near_pages_distinct_keys(start, k, m);
        assert(walk(a2, root, nth_page(start, k)) == walk(a, root, nth_page(start, k)));
    }
    assert forall|v: VirtPageNum|
        (forall|k: int|
            0 <= k < m + 1 ==> (#[trigger] nth_page(start, k)).key()
                != v.key()) implies #[trigger] pt2.translation(a2, v) == pt0.translation(a0, v) by {
        assert(nth_page(start, m).key() != v.key());
        assert(walk(a2, root, v) == walk(a, root, v));
        assert(pt.translation(a, v) == pt0.translation(a0, v));
    }
    assert forall|p: int| pt2.owned().contains(p) implies pt0.owned().contains(p)
        || !a0.allocated().contains(p) by {
        if !pt.owned().contains(p) {
            assert(!a.allocated().contains(p));
        }
    }
    assert forall|k: int| 0 <= k < fr2.len() implies {
        &&& a2.allocated().contains((#[trigger] fr2[k]).ppn.0 as int)
        &&& !a0.allocated().contains(fr2[k].ppn.0 as int)
        &&& !pt2.owned().contains(fr2[k].ppn.0 as int)
    } by {
        let p = fr2[k].ppn.0 as int;
        assert(frame_set(fr2).contains(p));
        if k < fr.len() {
            assert(fr[k].ppn.0 == p);
            assert(a.allocated().contains(p));
        }
    }
    assert forall|j: int, k: int| 0 <= j < k < fr2.len() implies (#[trigger] fr2[j]).ppn != (
    #[trigger] fr2[k]).ppn by {
        assert(fr[j].ppn.0 == fr2[j].ppn.0);
        assert(a.allocated().contains(fr[j].ppn.0 as int));
        if k < fr.len() {
            assert(fr[k].ppn.0 == fr2[k].ppn.0);
        }
    }
    assert(a2.allocated() =~= a0.allocated().union(pt2.owned()).union(frame_set(fr2)));
    assert forall|q: int|
        !pt2.owned().union(frame_set(fr2)).contains(q) implies #[trigger] a2.frame(q) == a0.frame(
        q,
    ) by {
        assert(a2.frame(q) == a.frame(q));
        assert(a.frame(q) == a0.frame(q));
    }
    assert forall|k: int| 0 <= k < fr2.len() implies a2.frame((#[trigger] fr2[k]).ppn.0 as int)
        == zero_frame() by {
        let q = fr2[k].ppn.0 as int;
        if k < fr.len() {
            assert(fr[k].ppn.0 == q);
            assert(a.allocated().contains(q));
            assert(!pt2.owned().contains(q));
            assert(!fresh.contains(q));
            assert(a2.frame(q) == a.frame(q));
        }
    }
}

/// Once every page is mapped and the region is recorded, the address space
/// is consistent again and differs from the one before as `push` says.
#[verifier::rlimit(60)]
proof fn lemma_push_finish(
    ms0: MemorySet,
    a0: FrameArena,
    a: FrameArena,
    ms: MemorySet,
    range: VpnRange,
    map_type: MapType,
    perm: MapPermission,
    flags: PTEFlags,
)
    requires
        flags.bits == perm.bits,
        ms.regions().len() == ms0.regions().len() + 1,
        ms.regions() == ms0.regions().push(ms.regions().last()),
        ms.regions().last().vpn_range == range,
        ms.regions().last().map_type == map_type,
        ms.regions().last().map_perm == perm,
        push_progress(
            ms0,
            a0,
            a,
            ms.table(),
            range,
            map_type,
            flags,
            ms.regions().last().data_frames@,
            range.spec_len() as int,
        ),
        forall|v: int| #[trigger]
            range.spec_contains(v) ==> ms0.translation(a0, VirtPageNum(v as u64)) is None,
    ensures
        ms.wf(a),
        ms.table().root() == ms0.table().root(),
        forall|i: int| 0 <= i < ms0.regions().len() ==> #[trigger] ms.regions()[i] == ms0.regions()[i],
        forall|v: VirtPageNum|
            (forall|k: int|
                0 <= k < range.spec_len() ==> (#[trigger] nth_page(range.start, k)).key()
                    != v.key()) ==> #[trigger] ms.translation(a, v) == ms0.translation(a0, v),
        ms0.owned().subset_of(ms.owned()),
        ms0.data_frames().subset_of(ms.data_frames()),
        forall|p: int| ms.owned().contains(p) && !ms0.owned().contains(p) ==> !a0.allocated().contains(p),
        a.allocated() == a0.allocated().union(ms.owned()),
        same_outside(a0, a, ms.table().owned().union(frame_set(ms.regions().last().data_frames@))),
        forall|n: int|
            0 <= n < ms.regions().last().data_frames@.len() ==> a.frame(
                (#[trigger] ms.regions().last().data_frames@[n]).ppn.0 as int,
            ) == zero_frame(),
        a.free_count() >= a0.free_count() - frames_missing(
            a0,
            ms0.table().root(),
            range,
            map_type,
        ),
        a.free_count() >= a0.free_count() - frames_needed(range, map_type),
        tables_kept(a0, a, ms0.table().root()),
{
    lemma_frames_missing_bound(a0, ms0.table().root(), range, map_type);
    reveal(push_progress);
    reveal(MemorySet::wf);
    let pt0 = ms0.table();
    let root = pt0.root();
    let start = range.start;
    let n_pages = range.spec_len() as int;
    let old_regions = ms0.regions();
    let regions = ms.regions();
    let last = old_regions.len() as int;
    let area = regions[last];
    let frames_end = area.data_frames@;
    assert forall|i: int| 0 <= i < old_regions.len() implies #[trigger] regions[i]
        == old_regions[i] by {}
    assert forall|i: int, v: int, k: int|
        0 <= i < old_regions.len() && #[trigger] old_regions[i].covers(v) && 0 <= k
            < n_pages implies (#[trigger] nth_page(start, k)).key() != VirtPageNum(v as u64).key() by {
        if nth_page(start, k).key() == VirtPageNum(v as u64).key() {
            lemma_same_key_same_walk(a0, root, nth_page(start, k), VirtPageNum(v as u64));
            assert(range.spec_contains(start.0 + k));
            assert(ms0.translation(a0, VirtPageNum(v as u64)) == Some(old_regions[i].entry_for(v)));
        }
    }
    assert forall|i: int, v: int|
        0 <= i < regions.len() && #[trigger] regions[i].covers(v) implies ms.translation(
        a,
        VirtPageNum(v as u64),
    ) == Some(regions[i].entry_for(v)) by {
        if i < last {
            assert(old_regions[i].covers(v));
            assert forall|k: int| 0 <= k < n_pages implies (#[trigger] nth_page(start, k)).key()
                != VirtPageNum(v as u64).key() by {}
            assert(ms0.translation(a0, VirtPageNum(v as u64)) == Some(old_regions[i].entry_for(v)));
        } else {
            let k = v - start.0;
            assert(nth_page(start, k) == VirtPageNum(v as u64));
            assert(backing(map_type, start, frames_end, k) == area.frame_of(v));
        }
    }
    assert forall|i: int, j: int, v: int, w: int|
        0 <= i < regions.len() && 0 <= j < regions.len() && i != j && #[trigger] regions[i].covers(
            v,
        ) && #[trigger] regions[j].covers(w) implies VirtPageNum(v as u64).key() != VirtPageNum(
        w as u64,
    ).key() by {
        if i < last && j < last {
            assert(old_regions[i].covers(v) && old_regions[j].covers(w));
        } else if i == last {
            assert(old_regions[j].covers(w));
            assert(nth_page(start, v - start.0) == VirtPageNum(v as u64));
        } else {
            assert(old_regions[i].covers(v));
            assert(nth_page(start, w - start.0) == VirtPageNum(w as u64));
        }
    }
    assert forall|i: int, n: int|
        0 <= i < regions.len() && 0 <= n < regions[i].data_frames@.len() implies {
        &&& a.allocated().contains((#[trigger] regions[i].data_frames@[n]).ppn.0 as int)
        &&& !ms.table().owned().contains(regions[i].data_frames@[n].ppn.0 as int)
    } by {
        if i < last {
            let p = old_regions[i].data_frames@[n].ppn.0 as int;
            assert(a0.allocated().contains(p));
            assert(!pt0.owned().contains(p));
        } else {
            assert(frames_end[n] == regions[i].data_frames@[n]);
        }
    }
    assert forall|i: int, n: int, j: int, k: int|
        0 <= i < regions.len() && 0 <= n < regions[i].data_frames@.len() && 0 <= j < regions.len()
            && 0 <= k < regions[j].data_frames@.len() && (i != j || n != k) implies (
    #[trigger] regions[i].data_frames@[n]).ppn != (#[trigger] regions[j].data_frames@[k]).ppn by {
        if i < last && j < last {
            assert(old_regions[i].data_frames@[n].ppn != old_regions[j].data_frames@[k].ppn);
        } else if i == last && j == last {
            if n < k {
                assert(frames_end[n].ppn != frames_end[k].ppn);
            } else {
                assert(frames_end[k].ppn != frames_end[n].ppn);
            }
        } else if i == last {
            assert(a0.allocated().contains(old_regions[j].data_frames@[k].ppn.0 as int));
            assert(!a0.allocated().contains(frames_end[n].ppn.0 as int));
        } else {
            assert(a0.allocated().contains(old_regions[i].data_frames@[n].ppn.0 as int));
            assert(!a0.allocated().contains(frames_end[k].ppn.0 as int));
        }
    }
    assert forall|i: int| 0 <= i < regions.len() implies (#[trigger] regions[i]).wf() by {
        if i < last {
            assert(old_regions[i].wf());
        }
    }
    assert(ms.wf(a));
    assert forall|p: int| ms.data_frames().contains(p) <==> ms0.data_frames().contains(p)
        || frame_set(frames_end).contains(p) by {
        if ms0.data_frames().contains(p) {
            let (i, n) = choose|i: int, n: int|
                0 <= i < old_regions.len() && 0 <= n < old_regions[i].data_frames@.len()
                    && #[trigger] old_regions[i].data_frames@[n].ppn.0 == p;
            assert(regions[i].data_frames@[n].ppn.0 == p);
        }
        if frame_set(frames_end).contains(p) {
            let n = choose|n: int| 0 <= n < frames_end.len() && #[trigger] frames_end[n].ppn.0 == p;
            assert(regions[last].data_frames@[n].ppn.0 == p);
        }
        if ms.data_frames().contains(p) {
            let (i, n) = choose|i: int, n: int|
                0 <= i < regions.len() && 0 <= n < regions[i].data_frames@.len()
                    && #[trigger] regions[i].data_frames@[n].ppn.0 == p;
            if i < last {
                assert(old_regions[i].data_frames@[n].ppn.0 == p);
            } else {
                assert(frames_end[n].ppn.0 == p);
            }
        }
    }
    assert forall|p: int| ms0.data_frames().contains(p) implies a0.allocated().contains(p) by {
        let (i, n) = choose|i: int, n: int|
            0 <= i < old_regions.len() && 0 <= n < old_regions[i].data_frames@.len()
                && #[trigger] old_regions[i].data_frames@[n].ppn.0 == p;
        assert(a0.allocated().contains(old_regions[i].data_frames@[n].ppn.0 as int));
    }
    assert forall|p: int| frame_set(frames_end).contains(p) implies !a0.allocated().contains(p) by {
        let n = choose|n: int| 0 <= n < frames_end.len() && #[trigger] frames_end[n].ppn.0 == p;
        assert(!a0.allocated().contains(frames_end[n].ppn.0 as int));
    }
    assert(a.allocated() =~= a0.allocated().union(ms.owned()));
    assert forall|v: VirtPageNum|
        (forall|k: int|
            0 <= k < range.spec_len() ==> (#[trigger] nth_page(range.start, k)).key()
                != v.key()) implies #[trigger] ms.translation(a, v) == ms0.translation(a0, v) by {}
}

/// Once the pages of region `idx` are unmapped and its frames given back,
/// the address space without that region is consistent.
proof fn lemma_remove_finish(
    ms0: MemorySet,
    a0: FrameArena,
    a1: FrameArena,
    a: FrameArena,
    ms: MemorySet,
    idx: int,
)
    requires
        ms0.wf(a0),
        0 <= idx < ms0.regions().len(),
        ms.table() == ms0.table(),
        ms.regions() == ms0.regions().remove(idx),
        a1.wf(),
        a1.allocation() == a0.allocation(),
        ms.table().wf(a1),
        same_outside(a0, a1, ms0.table().owned()),
        forall|v: VirtPageNum|
            (forall|k: int|
                0 <= k < ms0.regions()[idx].vpn_range.spec_len() ==> (#[trigger] nth_page(
                    ms0.regions()[idx].vpn_range.start,
                    k,
                )).key() != v.key()) ==> #[trigger] ms.table().translation(a1, v)
                == ms0.translation(a0, v),
        a.wf(),
        a.first_frame() == a0.first_frame(),
        a.end_frame() == a0.end_frame(),
        a.allocated() == a0.allocated().difference(frame_set(ms0.regions()[idx].data_frames@)),
        forall|q: int| #[trigger] a.frame(q) == a1.frame(q),
    ensures
        ms.wf(a),
        forall|v: VirtPageNum| #[trigger] ms.translation(a, v) == ms.table().translation(a1, v),
        ms.owned() == ms0.owned().difference(frame_set(ms0.regions()[idx].data_frames@)),
        same_outside(a0, a, ms.table().owned()),
        tables_kept(a1, a, ms.table().root()),
{
    reveal(MemorySet::wf);
    let pt = ms.table();
    let root = pt.root();
    let old_regions = ms0.regions();
    let regions = ms.regions();
    let gone = old_regions[idx];
    let gone_set = frame_set(gone.data_frames@);
    let start = gone.vpn_range.start;
    assert(gone.wf());
    assert forall|i: int| 0 <= i < regions.len() implies #[trigger] regions[i] == old_regions[if i
        < idx {
        i
    } else {
        i + 1
    }] by {}
    assert forall|p: int| gone_set.contains(p) implies !pt.owned().contains(p)
        && a0.allocated().contains(p) by {
        let n = choose|n: int|
            0 <= n < gone.data_frames@.len() && #[trigger] gone.data_frames@[n].ppn.0 == p;
        assert(!pt.owned().contains(old_regions[idx].data_frames@[n].ppn.0 as int));
    }
    assert(pt.owned().subset_of(a.allocated())) by {
        assert forall|p: int| pt.owned().contains(p) implies a.allocated().contains(p) by {
            pt.lemma_owned_allocated(a1, p);
        }
    }
    lemma_tree_untouched(a1, a, root, pt.owned());
    assert forall|i: int| 0 <= i < regions.len() implies (#[trigger] regions[i]).wf() by {
        let o = if i < idx {
            i
        } else {
            i + 1
        };
        assert(old_regions[o].wf());
    }
    assert forall|i: int, v: int|
        0 <= i < regions.len() && #[trigger] regions[i].covers(v) implies ms.translation(
        a,
        VirtPageNum(v as u64),
    ) == Some(regions[i].entry_for(v)) by {
        let o = if i < idx {
            i
        } else {
            i + 1
        };
        assert(old_regions[o].covers(v));
        assert forall|k: int| 0 <= k < gone.vpn_range.spec_len() implies (#[trigger] nth_page(
            start,
            k,
        )).key() != VirtPageNum(v as u64).key() by {
            assert(old_regions[idx].covers(start.0 + k));
        }
        assert(ms0.translation(a0, VirtPageNum(v as u64)) == Some(old_regions[o].entry_for(v)));
        assert(pt.translation(a1, VirtPageNum(v as u64)) == ms0.translation(
            a0,
            VirtPageNum(v as u64),
        ));
        assert(walk(a, root, VirtPageNum(v as u64)) == walk(a1, root, VirtPageNum(v as u64)));
    }
    assert forall|i: int, j: int, v: int, w: int|
        0 <= i < regions.len() && 0 <= j < regions.len() && i != j && #[trigger] regions[i].covers(
            v,
        ) && #[trigger] regions[j].covers(w) implies VirtPageNum(v as u64).key() != VirtPageNum(
        w as u64,
    ).key() by {
        let oi = if i < idx {
            i
        } else {
            i + 1
        };
        let oj = if j < idx {
            j
        } else {
            j + 1
        };
        assert(old_regions[oi].covers(v) && old_regions[oj].covers(w));
    }
    assert forall|i: int, n: int|
        0 <= i < regions.len() && 0 <= n < regions[i].data_frames@.len() implies {
        &&& a.allocated().contains((#[trigger] regions[i].data_frames@[n]).ppn.0 as int)
        &&& !pt.owned().contains(regions[i].data_frames@[n].ppn.0 as int)
    } by {
        let o = if i < idx {
            i
        } else {
            i + 1
        };
        let p = old_regions[o].data_frames@[n].ppn.0 as int;
        assert(a0.allocated().contains(p));
        if gone_set.contains(p) {
            let k = choose|k: int|
                0 <= k < gone.data_frames@.len() && #[trigger] gone.data_frames@[k].ppn.0 == p;
            assert(old_regions[o].data_frames@[n].ppn != old_regions[idx].data_frames@[k].ppn);
        }
    }
    assert forall|i: int, n: int, j: int, k: int|
        0 <= i < regions.len() && 0 <= n < regions[i].data_frames@.len() && 0 <= j < regions.len()
            && 0 <= k < regions[j].data_frames@.len() && (i != j || n != k) implies (
    #[trigger] regions[i].data_frames@[n]).ppn != (#[trigger] regions[j].data_frames@[k]).ppn by {
        let oi = if i < idx {
            i
        } else {
            i + 1
        };
        let oj = if j < idx {
            j
        } else {
            j + 1
        };
        assert(old_regions[oi].data_frames@[n].ppn != old_regions[oj].data_frames@[k].ppn);
    }
    assert(ms.wf(a));
    assert forall|p: int| ms.data_frames().contains(p) <==> ms0.data_frames().contains(p)
        && !gone_set.contains(p) by {
        if ms.data_frames().contains(p) {
            let (i, n) = choose|i: int, n: int|
                0 <= i < regions.len() && 0 <= n < regions[i].data_frames@.len()
                    && #[trigger] regions[i].data_frames@[n].ppn.0 == p;
            let o = if i < idx {
                i
            } else {
                i + 1
            };
            assert(old_regions[o].data_frames@[n].ppn.0 == p);
            if gone_set.contains(p) {
                let k = choose|k: int|
                    0 <= k < gone.data_frames@.len() && #[trigger] gone.data_frames@[k].ppn.0 == p;
                assert(old_regions[o].data_frames@[n].ppn != old_regions[idx].data_frames@[k].ppn);
            }
        }
        if ms0.data_frames().contains(p) && !gone_set.contains(p) {
            let (o, n) = choose|o: int, n: int|
                0 <= o < old_regions.len() && 0 <= n < old_regions[o].data_frames@.len()
                    && #[trigger] old_regions[o].data_frames@[n].ppn.0 == p;
            if o == idx {
                assert(gone.data_frames@[n].ppn.0 == p);
            } else {
                let i = if o < idx {
                    o
                } else {
                    o - 1
                };
                assert(regions[i].data_frames@[n].ppn.0 == p);
            }
        }
    }
    assert(ms.owned() =~= ms0.owned().difference(gone_set));
    assert forall|q: int| !pt.owned().contains(q) implies #[trigger] a.frame(q) == a0.frame(q) by {
        assert(a.frame(q) == a1.frame(q));
    }
}

/// What a consistent address space says of its `idx`-th region.
pub proof fn lemma_region_facts(ms: MemorySet, a: FrameArena, idx: int)
    requires
        ms.wf(a),
        0 <= idx < ms.regions().len(),
    ensures
        a.wf(),
        ms.table().wf(a),
        ms.regions()[idx].wf(),
        ms.regions()[idx].vpn_range.start.0 + ms.regions()[idx].vpn_range.spec_len()
            == ms.regions()[idx].vpn_range.end.0,
        ms.regions()[idx].vpn_range.spec_len() <= VPN_SPACE,
        forall|k: int|
            0 <= k < ms.regions()[idx].vpn_range.spec_len() ==> ms.translation(
                a,
                #[trigger] nth_page(ms.regions()[idx].vpn_range.start, k),
            ) == Some(ms.regions()[idx].entry_for(ms.regions()[idx].vpn_range.start.0 + k)),
        forall|n: int|
            0 <= n < ms.regions()[idx].data_frames@.len() ==> a.allocated().contains(
                (#[trigger] ms.regions()[idx].data_frames@[n]).ppn.0 as int,
            ),
        forall|n: int, k: int|
            0 <= n < k < ms.regions()[idx].data_frames@.len() ==> (
            #[trigger] ms.regions()[idx].data_frames@[n]).ppn != (
            #[trigger] ms.regions()[idx].data_frames@[k]).ppn,
{
    reveal(MemorySet::wf);
    let area = ms.regions()[idx];
    assert(area.wf());
    assert forall|k: int| 0 <= k < area.vpn_range.spec_len() implies ms.translation(
        a,
        #[trigger] nth_page(area.vpn_range.start, k),
    ) == Some(area.entry_for(area.vpn_range.start.0 + k)) by {
        assert(ms.regions()[idx].covers(area.vpn_range.start.0 + k));
    }
}

/// Nothing is left of a sequence of frames after skipping all of it.
proof fn lemma_skip_all_empty(all: Seq<FrameTracker>)
    ensures
        frame_set(all.skip(all.len() as int)) == Set::<int>::empty(),
{
    assert(all.skip(all.len() as int).len() == 0);
    assert(frame_set(all.skip(all.len() as int)) =~= Set::<int>::empty());
}

/// Of distinct frames, those from the `n`-th on are the `n`-th and those after it.
proof fn lemma_skip_step(all: Seq<FrameTracker>, n: int)
    requires
        0 <= n < all.len(),
        forall|i: int, k: int| 0 <= i < k < all.len() ==> (#[trigger] all[i]).ppn != (#[trigger] all[k]).ppn,
    ensures
        frame_set(all.skip(n)) == frame_set(all.skip(n + 1)).insert(all[n].ppn.0 as int),
        !frame_set(all.skip(n + 1)).contains(all[n].ppn.0 as int),
{
    let p = all[n].ppn.0 as int;
    if frame_set(all.skip(n + 1)).contains(p) {
        let k = choose|k: int| 0 <= k < all.skip(n + 1).len() && #[trigger] all.skip(n + 1)[k].ppn.0 == p;
        assert(all[n + 1 + k].ppn.0 == p);
        assert(all[n].ppn != all[n + 1 + k].ppn);
    }
    assert forall|q: int| frame_set(all.skip(n)).contains(q) <==> frame_set(all.skip(n + 1)).insert(
        p,
    ).contains(q) by {
        if frame_set(all.skip(n)).contains(q) {
            let k = choose|k: int| 0 <= k < all.skip(n).len() && #[trigger] all.skip(n)[k].ppn.0 == q;
            if k > 0 {
                assert(all.skip(n + 1)[k - 1].ppn.0 == q);
            }
        }
        if frame_set(all.skip(n + 1)).contains(q) {
            let k = choose|k: int|
                0 <= k < all.skip(n + 1).len() && #[trigger] all.skip(n + 1)[k].ppn.0 == q;
            assert(all.skip(n)[k + 1].ppn.0 == q);
        }
        if q == p {
            assert(all.skip(n)[0].ppn.0 == q);
        }
    }
    assert(frame_set(all.skip(n)) =~= frame_set(all.skip(n + 1)).insert(p));
}


/// No frame backs two pages: in a consistent address space, two different
/// pages of framed regions are mapped to different frames.
pub proof fn law_frames_not_shared(ms: MemorySet, a: FrameArena, i: int, v: int, j: int, w: int)
    requires
        ms.wf(a),
        0 <= i < ms.regions().len(),
        0 <= j < ms.regions().len(),
        ms.regions()[i].map_type == MapType::Framed,
        ms.regions()[j].map_type == MapType::Framed,
        ms.regions()[i].covers(v),
        ms.regions()[j].covers(w),
        v != w,
    ensures
        ms.translation(a, VirtPageNum(v as u64)) is Some,
        ms.translation(a, VirtPageNum(w as u64)) is Some,
        ms.translation(a, VirtPageNum(v as u64)).unwrap().spec_ppn() != ms.translation(
            a,
            VirtPageNum(w as u64),
        ).unwrap().spec_ppn(),
{
    ms.lemma_framed_page(a, i, v);
    ms.lemma_framed_page(a, j, w);
    ms.lemma_region_wf(a, i);
    ms.lemma_region_wf(a, j);
    ms.lemma_data_frames_distinct(
        a,
        i,
        v - ms.regions()[i].vpn_range.start.0,
        j,
        w - ms.regions()[j].vpn_range.start.0,
    );
}

/// No frame belongs to two tables or regions of one address space, and
/// every frame it owns is one that the arena has handed out.
pub proof fn law_owned_frames(ms: MemorySet, a: FrameArena, p: int)
    requires
        ms.wf(a),
        ms.owned().contains(p),
    ensures
        a.allocated().contains(p),
        ms.table().owned().contains(p) != ms.data_frames().contains(p),
{
    ms.lemma_owned_allocated(a, p);
    if ms.data_frames().contains(p) {
        ms.lemma_data_frame_not_table(a, p);
    }
}

} // verus!
