//! Table entries and the three-level page table.

use vstd::prelude::*;
use crate::mm::address::{PhysPageNum, VirtPageNum, PPN_SPACE, VPN_SPACE};
use crate::mm::address::lemma_key_determined_by_indexes;
use crate::mm::frame_allocator::{lemma_zero_frame_word, FrameArena, FrameTracker, OutOfFrames};

verus! {

/// Flag bit: the entry is valid.
pub const PTE_V: u8 = 0x01;

/// Flag bit: the page may be read.
pub const PTE_R: u8 = 0x02;

/// Flag bit: the page may be written.
pub const PTE_W: u8 = 0x04;

/// Flag bit: instructions may be fetched from the page.
pub const PTE_X: u8 = 0x08;

/// Flag bit: the page is accessible in user mode.
pub const PTE_U: u8 = 0x10;

/// Flag bit: the mapping is global.
pub const PTE_G: u8 = 0x20;

/// Flag bit: the page has been accessed.
pub const PTE_A: u8 = 0x40;

/// Flag bit: the page has been written.
pub const PTE_D: u8 = 0x80;

/// The eight flag bits of a table entry.
#[derive(Clone, Copy, Debug, PartialEq, Eq, Structural)]
pub struct PTEFlags {
    pub bits: u8,
}

impl PTEFlags {
    /// Whether every bit of `mask` is set.
    pub open spec fn spec_contains(&self, mask: u8) -> bool {
        self.bits & mask == mask
    }

    /// The flags with the bits of `mask` added.
    pub open spec fn spec_with(&self, mask: u8) -> PTEFlags {
        PTEFlags { bits: self.bits | mask }
    }

    /// The flags with no bit set.
    pub fn empty() -> (r: Self)
        ensures
            r.bits == 0,
    {
        PTEFlags { bits: 0 }
    }

    /// Whether every bit of `mask` is set.
    pub fn contains(&self, mask: u8) -> (r: bool)
        ensures
            r == self.spec_contains(mask),
    {
        self.bits & mask == mask
    }

    /// The flags with the bits of `mask` added.
    pub fn with(&self, mask: u8) -> (r: Self)
        ensures
            r == self.spec_with(mask),
    {
        PTEFlags { bits: self.bits | mask }
    }
}

/// One 64-bit entry of a table page: a physical page number in bits 10 to 53
/// and flags in bits 0 to 7.
#[derive(Clone, Copy, Debug, PartialEq, Eq, Structural)]
pub struct PageTableEntry {
    pub bits: u64,
}

impl PageTableEntry {
    /// The entry that holds page number `ppn` and `flags`.
    pub open spec fn spec_new(ppn: PhysPageNum, flags: PTEFlags) -> PageTableEntry {
        PageTableEntry { bits: (ppn.0 << 10) | (flags.bits as u64) }
    }

    /// The page number held in the entry.
    pub open spec fn spec_ppn(&self) -> PhysPageNum {
        PhysPageNum((self.bits >> 10) & 0xfff_ffff_ffff)
    }

    /// The flags held in the entry.
    pub open spec fn spec_flags(&self) -> PTEFlags {
        PTEFlags { bits: (self.bits & 0xff) as u8 }
    }

    /// Whether the valid bit is set.
    pub open spec fn spec_is_valid(&self) -> bool {
        self.bits & 0x01 != 0
    }

    /// Whether the read bit is set.
    pub open spec fn spec_readable(&self) -> bool {
        self.bits & 0x02 != 0
    }

    /// Whether the write bit is set.
    pub open spec fn spec_writable(&self) -> bool {
        self.bits & 0x04 != 0
    }

    /// Whether the execute bit is set.
    pub open spec fn spec_executable(&self) -> bool {
        self.bits & 0x08 != 0
    }

    /// Whether the user bit is set.
    pub open spec fn spec_user(&self) -> bool {
        self.bits & 0x10 != 0
    }

    /// The entry that holds page number `ppn` and `flags`.
    pub fn new(ppn: PhysPageNum, flags: PTEFlags) -> (r: Self)
        ensures
            r == Self::spec_new(ppn, flags),
    {
        PageTableEntry { bits: (ppn.0 << 10) | (flags.bits as u64) }
    }

    /// The entry with all bits clear, which is not valid.
    pub fn empty() -> (r: Self)
        ensures
            r.bits == 0,
            !r.spec_is_valid(),
    {
        assert(0u64 & 0x01 == 0) by (bit_vector);
        PageTableEntry { bits: 0 }
    }

    /// The page number held in the entry.
    pub fn ppn(&self) -> (r: PhysPageNum)
        ensures
            r == self.spec_ppn(),
            r.0 < PPN_SPACE,
    {
        let bits: u64 = self.bits;
        assert((bits >> 10) & 0xfff_ffff_ffff < 0x1000_0000_0000) by (bit_vector);
        PhysPageNum((self.bits >> 10) & 0xfff_ffff_ffff)
    }

    /// The flags held in the entry.
    pub fn flags(&self) -> (r: PTEFlags)
        ensures
            r == self.spec_flags(),
    {
        let bits: u64 = self.bits;
        assert(bits & 0xff < 0x100) by (bit_vector);
        PTEFlags { bits: (self.bits & 0xff) as u8 }
    }

    /// Whether the valid bit is set.
    pub fn is_valid(&self) -> (r: bool)
        ensures
            r == self.spec_is_valid(),
    {
        self.bits & 0x01 != 0
    }

    /// Whether the read bit is set.
    pub fn readable(&self) -> (r: bool)
        ensures
            r == self.spec_readable(),
    {
        self.bits & 0x02 != 0
    }

    /// Whether the write bit is set.
    pub fn writable(&self) -> (r: bool)
        ensures
            r == self.spec_writable(),
    {
        self.bits & 0x04 != 0
    }

    /// Whether the execute bit is set.
    pub fn executable(&self) -> (r: bool)
        ensures
            r == self.spec_executable(),
    {
        self.bits & 0x08 != 0
    }

    /// Whether the user bit is set.
    pub fn user(&self) -> (r: bool)
        ensures
            r == self.spec_user(),
    {
        self.bits & 0x10 != 0
    }
}

/// An entry made from a page number below 2^44 and some flags gives both back,
/// and each of its permission bits is the flag's bit.
pub proof fn lemma_entry_fields(ppn: PhysPageNum, flags: PTEFlags)
    requires
        ppn.0 < PPN_SPACE,
    ensures
        PageTableEntry::spec_new(ppn, flags).spec_ppn() == ppn,
        PageTableEntry::spec_new(ppn, flags).spec_flags() == flags,
        PageTableEntry::spec_new(ppn, flags).spec_is_valid() == (flags.bits & PTE_V != 0),
        PageTableEntry::spec_new(ppn, flags).spec_readable() == (flags.bits & PTE_R != 0),
        PageTableEntry::spec_new(ppn, flags).spec_writable() == (flags.bits & PTE_W != 0),
        PageTableEntry::spec_new(ppn, flags).spec_executable() == (flags.bits & PTE_X != 0),
        PageTableEntry::spec_new(ppn, flags).spec_user() == (flags.bits & PTE_U != 0),
{
    let p: u64 = ppn.0;
    let f: u8 = flags.bits;
    assert((((p << 10) | (f as u64)) >> 10) & 0xfff_ffff_ffff == p) by (bit_vector)
        requires
            p < 0x1000_0000_0000,
    ;
    assert((((p << 10) | (f as u64)) & 0xff) as u8 == f) by (bit_vector);
    assert((((p << 10) | (f as u64)) & 0x01 != 0) == (f & 0x01 != 0)) by (bit_vector);
    assert((((p << 10) | (f as u64)) & 0x02 != 0) == (f & 0x02 != 0)) by (bit_vector);
    assert((((p << 10) | (f as u64)) & 0x04 != 0) == (f & 0x04 != 0)) by (bit_vector);
    assert((((p << 10) | (f as u64)) & 0x08 != 0) == (f & 0x08 != 0)) by (bit_vector);
    assert((((p << 10) | (f as u64)) & 0x10 != 0) == (f & 0x10 != 0)) by (bit_vector);
}

/// Adding the valid bit to flags sets it and leaves the permission bits as they were.
pub proof fn lemma_with_valid(flags: PTEFlags)
    ensures
        flags.spec_with(PTE_V).bits & PTE_V != 0,
        (flags.spec_with(PTE_V).bits & PTE_R != 0) == (flags.bits & PTE_R != 0),
        (flags.spec_with(PTE_V).bits & PTE_W != 0) == (flags.bits & PTE_W != 0),
        (flags.spec_with(PTE_V).bits & PTE_X != 0) == (flags.bits & PTE_X != 0),
        (flags.spec_with(PTE_V).bits & PTE_U != 0) == (flags.bits & PTE_U != 0),
{
    let f: u8 = flags.bits;
    assert((f | 0x01) & 0x01 != 0) by (bit_vector);
    assert(((f | 0x01) & 0x02 != 0) == (f & 0x02 != 0)) by (bit_vector);
    assert(((f | 0x01) & 0x04 != 0) == (f & 0x04 != 0)) by (bit_vector);
    assert(((f | 0x01) & 0x08 != 0) == (f & 0x08 != 0)) by (bit_vector);
    assert(((f | 0x01) & 0x10 != 0) == (f & 0x10 != 0)) by (bit_vector);
}

/// The entry stored at index `i` of the table in frame `table`.
pub open spec fn pte_at(a: FrameArena, table: int, i: int) -> PageTableEntry {
    PageTableEntry { bits: a.word(table, i) }
}

/// Whether the root table in frame `root` links a second-level table at index `i0`.
pub open spec fn has_l1(a: FrameArena, root: int, i0: int) -> bool {
    a.contains(root) && 0 <= i0 < 512 && pte_at(a, root, i0).spec_is_valid()
}

/// The frame of the second-level table linked at index `i0` of the root.
pub open spec fn l1(a: FrameArena, root: int, i0: int) -> int {
    pte_at(a, root, i0).spec_ppn().0 as int
}

/// Whether the walk along `i0`, `i1` reaches a third-level table.
pub open spec fn has_l2(a: FrameArena, root: int, i0: int, i1: int) -> bool {
    has_l1(a, root, i0) && a.contains(l1(a, root, i0)) && 0 <= i1 < 512 && pte_at(
        a,
        l1(a, root, i0),
        i1,
    ).spec_is_valid()
}

/// The frame of the third-level table reached along `i0`, `i1`.
pub open spec fn l2(a: FrameArena, root: int, i0: int, i1: int) -> int {
    pte_at(a, l1(a, root, i0), i1).spec_ppn().0 as int
}

/// The last entry of the walk along `i0`, `i1`, `i2`.
pub open spec fn leaf(a: FrameArena, root: int, i0: int, i1: int, i2: int) -> PageTableEntry {
    pte_at(a, l2(a, root, i0, i1), i2)
}

/// Whether the walk along `i0`, `i1`, `i2` ends in a valid entry.
pub open spec fn has_leaf(a: FrameArena, root: int, i0: int, i1: int, i2: int) -> bool {
    has_l2(a, root, i0, i1) && a.contains(l2(a, root, i0, i1)) && 0 <= i2 < 512 && leaf(
        a,
        root,
        i0,
        i1,
        i2,
    ).spec_is_valid()
}

/// What a walk from the table in frame `root` finds for page `vpn`: the last
/// entry if all three levels are present and valid.
pub open spec fn walk(a: FrameArena, root: int, vpn: VirtPageNum) -> Option<PageTableEntry> {
    if has_leaf(a, root, vpn.spec_index(0), vpn.spec_index(1), vpn.spec_index(2)) {
        Some(leaf(a, root, vpn.spec_index(0), vpn.spec_index(1), vpn.spec_index(2)))
    } else {
        None
    }
}

/// The number of table frames that mapping page `vpn` would have to add.
pub open spec fn tables_needed(a: FrameArena, root: int, vpn: VirtPageNum) -> nat {
    if !has_l1(a, root, vpn.spec_index(0)) {
        2
    } else if !has_l2(a, root, vpn.spec_index(0), vpn.spec_index(1)) {
        1
    } else {
        0
    }
}

/// The tables reachable from `root` form a tree made of frames in `owned`:
/// every linked table is an owned, allocated frame, and no frame is linked
/// from two places or is the root.
pub open spec fn tree_wf(a: FrameArena, root: int, owned: Set<int>) -> bool {
    &&& a.wf()
    &&& owned.contains(root)
    &&& owned.subset_of(a.allocated())
    &&& forall|i0: int| #[trigger]
        has_l1(a, root, i0) ==> owned.contains(l1(a, root, i0)) && l1(a, root, i0) != root
    &&& forall|i0: int, i1: int| #[trigger]
        has_l2(a, root, i0, i1) ==> owned.contains(l2(a, root, i0, i1)) && l2(a, root, i0, i1)
            != root
    &&& forall|i0: int, j0: int|
        #![trigger has_l1(a, root, i0), has_l1(a, root, j0)]
        has_l1(a, root, i0) && has_l1(a, root, j0) && l1(a, root, i0) == l1(a, root, j0) ==> i0
            == j0
    &&& forall|i0: int, i1: int, j0: int, j1: int|
        #![trigger has_l2(a, root, i0, i1), has_l2(a, root, j0, j1)]
        has_l2(a, root, i0, i1) && has_l2(a, root, j0, j1) && l2(a, root, i0, i1) == l2(
            a,
            root,
            j0,
            j1,
        ) ==> i0 == j0 && i1 == j1
    &&& forall|i0: int, j0: int, j1: int|
        #![trigger has_l1(a, root, i0), has_l2(a, root, j0, j1)]
        has_l1(a, root, i0) && has_l2(a, root, j0, j1) ==> l1(a, root, i0) != l2(a, root, j0, j1)
}

/// Arena `b` differs from arena `a` in the frames of `changed` at most, and
/// spans the same range.
pub open spec fn same_outside(a: FrameArena, b: FrameArena, changed: Set<int>) -> bool {
    &&& b.first_frame() == a.first_frame()
    &&& b.end_frame() == a.end_frame()
    &&& forall|q: int| !changed.contains(q) ==> #[trigger] b.frame(q) == a.frame(q)
}

/// The tree below `root` reads the same in `a` and in `b`.
pub open spec fn same_tree(a: FrameArena, b: FrameArena, root: int) -> bool {
    &&& forall|i0: int| #[trigger]
        has_l1(b, root, i0) == has_l1(a, root, i0) && (has_l1(a, root, i0) ==> l1(b, root, i0)
            == l1(a, root, i0))
    &&& forall|i0: int, i1: int| #[trigger]
        has_l2(b, root, i0, i1) == has_l2(a, root, i0, i1) && (has_l2(a, root, i0, i1) ==> l2(
            b,
            root,
            i0,
            i1,
        ) == l2(a, root, i0, i1))
}

/// Every table that the walk from `root` reaches in arena `a` it reaches in
/// arena `b` too.
pub open spec fn tables_kept(a: FrameArena, b: FrameArena, root: int) -> bool {
    &&& forall|i0: int| has_l1(a, root, i0) ==> #[trigger] has_l1(b, root, i0)
    &&& forall|i0: int, i1: int| has_l2(a, root, i0, i1) ==> #[trigger] has_l2(b, root, i0, i1)
}

/// The valid bit of an all-zero entry is clear.
proof fn lemma_zero_entry_invalid()
    ensures
        !(PageTableEntry { bits: 0 }).spec_is_valid(),
{
    assert(0u64 & 0x01 == 0) by (bit_vector);
}

/// Linking a fresh, zeroed frame `f` at the unused index `i0` of the root
/// keeps the tree well formed and adds no mapping.
proof fn lemma_link_l1(a: FrameArena, b: FrameArena, root: int, owned: Set<int>, i0: int, f: int)
    requires
        tree_wf(a, root, owned),
        0 <= i0 < 512,
        !has_l1(a, root, i0),
        a.contains(f),
        !a.allocated().contains(f),
        b.wf(),
        b.first_frame() == a.first_frame(),
        b.end_frame() == a.end_frame(),
        b.allocated() == a.allocated().insert(f),
        forall|j: int| 0 <= j < 512 ==> #[trigger] b.word(f, j) == 0,
        b.word(root, i0) == PageTableEntry::spec_new(
            PhysPageNum(f as u64),
            PTEFlags { bits: PTE_V },
        ).bits,
        forall|j: int| 0 <= j < 512 && j != i0 ==> #[trigger] b.word(root, j) == a.word(root, j),
        forall|q: int, j: int| q != root && q != f ==> #[trigger] b.word(q, j) == a.word(q, j),
    ensures
        tree_wf(b, root, owned.insert(f)),
        has_l1(b, root, i0),
        l1(b, root, i0) == f,
        forall|j1: int| !#[trigger] has_l2(b, root, i0, j1),
        forall|j0: int|
            j0 != i0 ==> #[trigger] has_l1(b, root, j0) == has_l1(a, root, j0) && (has_l1(
                a,
                root,
                j0,
            ) ==> l1(b, root, j0) == l1(a, root, j0)),
        forall|j0: int, j1: int| #[trigger]
            has_l2(b, root, j0, j1) == has_l2(a, root, j0, j1) && (has_l2(a, root, j0, j1) ==> l2(
                b,
                root,
                j0,
                j1,
            ) == l2(a, root, j0, j1)),
        forall|v: VirtPageNum| #[trigger] walk(b, root, v) == walk(a, root, v),
{
    a.lemma_frame_len(f);
    a.lemma_allocated_contained(root);
    lemma_entry_fields(PhysPageNum(f as u64), PTEFlags { bits: PTE_V });
    lemma_zero_entry_invalid();
    assert(PTE_V & PTE_V != 0) by (bit_vector);
    assert(f != root);
    assert(has_l1(b, root, i0) && l1(b, root, i0) == f);
    assert forall|j0: int| j0 != i0 implies #[trigger] has_l1(b, root, j0) == has_l1(a, root, j0)
        && (has_l1(a, root, j0) ==> l1(b, root, j0) == l1(a, root, j0)) by {
        if 0 <= j0 < 512 {
            assert(b.word(root, j0) == a.word(root, j0));
        }
    }
    assert forall|j1: int| !#[trigger] has_l2(b, root, i0, j1) by {
        if 0 <= j1 < 512 {
            assert(b.word(f, j1) == 0);
        }
    }
    assert forall|j0: int, j1: int| #[trigger]
        has_l2(b, root, j0, j1) == has_l2(a, root, j0, j1) && (has_l2(a, root, j0, j1) ==> l2(
            b,
            root,
            j0,
            j1,
        ) == l2(a, root, j0, j1)) by {
        if j0 != i0 {
            assert(has_l1(b, root, j0) == has_l1(a, root, j0));
            if has_l1(a, root, j0) {
                let t = l1(a, root, j0);
                assert(owned.contains(t));
                assert(a.allocated().contains(t));
                assert(b.word(t, j1) == a.word(t, j1));
            }
        } else {
            assert(!has_l2(b, root, i0, j1));
        }
    }
    assert forall|j0: int, j1: int, j2: int|
        has_l2(a, root, j0, j1) implies #[trigger] leaf(b, root, j0, j1, j2) == leaf(
            a,
            root,
            j0,
            j1,
            j2,
        ) by {
        let t = l2(a, root, j0, j1);
        assert(has_l2(b, root, j0, j1));
        assert(owned.contains(t));
        assert(a.allocated().contains(t));
        assert(b.word(t, j2) == a.word(t, j2));
    }
    assert forall|v: VirtPageNum| #[trigger] walk(b, root, v) == walk(a, root, v) by {
        let j0 = v.spec_index(0);
        let j1 = v.spec_index(1);
        let j2 = v.spec_index(2);
        assert(has_l2(b, root, j0, j1) == has_l2(a, root, j0, j1));
        if has_l2(a, root, j0, j1) {
            assert(leaf(b, root, j0, j1, j2) == leaf(a, root, j0, j1, j2));
        }
    }
    let owned2 = owned.insert(f);
    assert forall|j0: int| #[trigger] has_l1(b, root, j0) implies owned2.contains(l1(b, root, j0))
        && l1(b, root, j0) != root by {
        if j0 != i0 {
            assert(has_l1(a, root, j0));
        }
    }
    assert forall|j0: int, j1: int| #[trigger] has_l2(b, root, j0, j1) implies owned2.contains(
        l2(b, root, j0, j1),
    ) && l2(b, root, j0, j1) != root by {
        assert(has_l2(a, root, j0, j1));
    }
    assert forall|j0: int, k0: int|
        #![trigger has_l1(b, root, j0), has_l1(b, root, k0)]
        has_l1(b, root, j0) && has_l1(b, root, k0) && l1(b, root, j0) == l1(
            b,
            root,
            k0,
        ) implies j0 == k0 by {
        if j0 != i0 {
            assert(has_l1(a, root, j0));
            assert(a.allocated().contains(l1(a, root, j0)));
        }
        if k0 != i0 {
            assert(has_l1(a, root, k0));
            assert(a.allocated().contains(l1(a, root, k0)));
        }
    }
    assert forall|j0: int, j1: int, k0: int, k1: int|
        #![trigger has_l2(b, root, j0, j1), has_l2(b, root, k0, k1)]
        has_l2(b, root, j0, j1) && has_l2(b, root, k0, k1) && l2(b, root, j0, j1) == l2(
            b,
            root,
            k0,
            k1,
        ) implies j0 == k0 && j1 == k1 by {
        assert(has_l2(a, root, j0, j1));
        assert(has_l2(a, root, k0, k1));
    }
    assert forall|j0: int, k0: int, k1: int|
        #![trigger has_l1(b, root, j0), has_l2(b, root, k0, k1)]
        has_l1(b, root, j0) && has_l2(b, root, k0, k1) implies l1(b, root, j0) != l2(
            b,
            root,
            k0,
            k1,
        ) by {
        assert(has_l2(a, root, k0, k1));
        assert(a.allocated().contains(l2(a, root, k0, k1)));
        if j0 != i0 {
            assert(has_l1(a, root, j0));
        }
    }
}

/// Linking a fresh, zeroed frame `f` at the unused index `i1` of the
/// second-level table reached through `i0` keeps the tree well formed and
/// adds no mapping.
proof fn lemma_link_l2(
    a: FrameArena,
    b: FrameArena,
    root: int,
    owned: Set<int>,
    i0: int,
    i1: int,
    f: int,
)
    requires
        tree_wf(a, root, owned),
        0 <= i1 < 512,
        has_l1(a, root, i0),
        !has_l2(a, root, i0, i1),
        a.contains(f),
        !a.allocated().contains(f),
        b.wf(),
        b.first_frame() == a.first_frame(),
        b.end_frame() == a.end_frame(),
        b.allocated() == a.allocated().insert(f),
        forall|j: int| 0 <= j < 512 ==> #[trigger] b.word(f, j) == 0,
        b.word(l1(a, root, i0), i1) == PageTableEntry::spec_new(
            PhysPageNum(f as u64),
            PTEFlags { bits: PTE_V },
        ).bits,
        forall|j: int|
            0 <= j < 512 && j != i1 ==> #[trigger] b.word(l1(a, root, i0), j) == a.word(
                l1(a, root, i0),
                j,
            ),
        forall|q: int, j: int|
            q != l1(a, root, i0) && q != f ==> #[trigger] b.word(q, j) == a.word(q, j),
    ensures
        tree_wf(b, root, owned.insert(f)),
        has_l2(b, root, i0, i1),
        l2(b, root, i0, i1) == f,
        forall|j0: int| #[trigger]
            has_l1(b, root, j0) == has_l1(a, root, j0) && (has_l1(a, root, j0) ==> l1(b, root, j0)
                == l1(a, root, j0)),
        forall|j2: int| 0 <= j2 < 512 ==> !#[trigger] has_leaf(b, root, i0, i1, j2),
        forall|v: VirtPageNum| #[trigger] walk(b, root, v) == walk(a, root, v),
        tables_kept(a, b, root),
{
    let t1 = l1(a, root, i0);
    a.lemma_frame_len(f);
    a.lemma_allocated_contained(root);
    lemma_entry_fields(PhysPageNum(f as u64), PTEFlags { bits: PTE_V });
    lemma_zero_entry_invalid();
    assert(PTE_V & PTE_V != 0) by (bit_vector);
    assert(owned.contains(t1) && t1 != root);
    assert(a.allocated().contains(t1));
    assert(f != root && f != t1);
    assert forall|j0: int| #[trigger]
        has_l1(b, root, j0) == has_l1(a, root, j0) && (has_l1(a, root, j0) ==> l1(b, root, j0)
            == l1(a, root, j0)) by {
        assert(b.word(root, j0) == a.word(root, j0));
    }
    assert(has_l1(b, root, i0) && l1(b, root, i0) == t1);
    a.lemma_allocated_contained(t1);
    assert(has_l2(b, root, i0, i1) && l2(b, root, i0, i1) == f);
    assert forall|j0: int, j1: int| !(j0 == i0 && j1 == i1) implies #[trigger] has_l2(
        b,
        root,
        j0,
        j1,
    ) == has_l2(a, root, j0, j1) && (has_l2(a, root, j0, j1) ==> l2(b, root, j0, j1) == l2(
        a,
        root,
        j0,
        j1,
    )) by {
        assert(has_l1(b, root, j0) == has_l1(a, root, j0));
        if has_l1(a, root, j0) {
            let t = l1(a, root, j0);
            assert(owned.contains(t));
            assert(a.allocated().contains(t));
            if t == t1 {
                assert(j0 == i0);
                if 0 <= j1 < 512 {
                    assert(b.word(t1, j1) == a.word(t1, j1));
                }
            } else {
                assert(b.word(t, j1) == a.word(t, j1));
            }
        }
    }
    assert forall|j0: int, j1: int, j2: int|
        has_l2(a, root, j0, j1) implies #[trigger] leaf(b, root, j0, j1, j2) == leaf(
            a,
            root,
            j0,
            j1,
            j2,
        ) by {
        let t = l2(a, root, j0, j1);
        assert(has_l2(b, root, j0, j1) && l2(b, root, j0, j1) == t);
        assert(owned.contains(t));
        assert(a.allocated().contains(t));
        assert(has_l1(a, root, i0));
        assert(t != t1);
        assert(b.word(t, j2) == a.word(t, j2));
    }
    assert forall|j2: int| 0 <= j2 < 512 implies !#[trigger] has_leaf(b, root, i0, i1, j2) by {
        assert(b.word(f, j2) == 0);
    }
    assert forall|v: VirtPageNum| #[trigger] walk(b, root, v) == walk(a, root, v) by {
        let j0 = v.spec_index(0);
        let j1 = v.spec_index(1);
        let j2 = v.spec_index(2);
        if j0 == i0 && j1 == i1 {
            assert(!has_leaf(b, root, i0, i1, j2));
        } else {
            assert(has_l2(b, root, j0, j1) == has_l2(a, root, j0, j1));
            if has_l2(a, root, j0, j1) {
                assert(leaf(b, root, j0, j1, j2) == leaf(a, root, j0, j1, j2));
            }
        }
    }
    let owned2 = owned.insert(f);
    assert forall|j0: int| #[trigger] has_l1(b, root, j0) implies owned2.contains(l1(b, root, j0))
        && l1(b, root, j0) != root by {
        assert(has_l1(a, root, j0));
    }
    assert forall|j0: int, j1: int| #[trigger] has_l2(b, root, j0, j1) implies owned2.contains(
        l2(b, root, j0, j1),
    ) && l2(b, root, j0, j1) != root by {
        if !(j0 == i0 && j1 == i1) {
            assert(has_l2(a, root, j0, j1));
        }
    }
    assert forall|j0: int, k0: int|
        #![trigger has_l1(b, root, j0), has_l1(b, root, k0)]
        has_l1(b, root, j0) && has_l1(b, root, k0) && l1(b, root, j0) == l1(
            b,
            root,
            k0,
        ) implies j0 == k0 by {
        assert(has_l1(a, root, j0));
        assert(has_l1(a, root, k0));
    }
    assert forall|j0: int, j1: int, k0: int, k1: int|
        #![trigger has_l2(b, root, j0, j1), has_l2(b, root, k0, k1)]
        has_l2(b, root, j0, j1) && has_l2(b, root, k0, k1) && l2(b, root, j0, j1) == l2(
            b,
            root,
            k0,
            k1,
        ) implies j0 == k0 && j1 == k1 by {
        if !(j0 == i0 && j1 == i1) {
            assert(has_l2(a, root, j0, j1));
            assert(a.allocated().contains(l2(a, root, j0, j1)));
        }
        if !(k0 == i0 && k1 == i1) {
            assert(has_l2(a, root, k0, k1));
            assert(a.allocated().contains(l2(a, root, k0, k1)));
        }
    }
    assert forall|j0: int, k0: int, k1: int|
        #![trigger has_l1(b, root, j0), has_l2(b, root, k0, k1)]
        has_l1(b, root, j0) && has_l2(b, root, k0, k1) implies l1(b, root, j0) != l2(
            b,
            root,
            k0,
            k1,
        ) by {
        assert(has_l1(a, root, j0));
        assert(a.allocated().contains(l1(a, root, j0)));
        if !(k0 == i0 && k1 == i1) {
            assert(has_l2(a, root, k0, k1));
        }
    }
}

/// Overwriting the last-level entry that a walk for `vpn` reaches changes
/// what is found for the pages that share `vpn`'s slot, and nothing else.
proof fn lemma_set_leaf(
    a: FrameArena,
    b: FrameArena,
    root: int,
    owned: Set<int>,
    vpn: VirtPageNum,
    e: PageTableEntry,
)
    requires
        tree_wf(a, root, owned),
        has_l2(a, root, vpn.spec_index(0), vpn.spec_index(1)),
        b.wf(),
        b.first_frame() == a.first_frame(),
        b.end_frame() == a.end_frame(),
        b.allocated() == a.allocated(),
        b.word(l2(a, root, vpn.spec_index(0), vpn.spec_index(1)), vpn.spec_index(2)) == e.bits,
        forall|j: int|
            0 <= j < 512 && j != vpn.spec_index(2) ==> #[trigger] b.word(
                l2(a, root, vpn.spec_index(0), vpn.spec_index(1)),
                j,
            ) == a.word(l2(a, root, vpn.spec_index(0), vpn.spec_index(1)), j),
        forall|q: int, j: int|
            q != l2(a, root, vpn.spec_index(0), vpn.spec_index(1)) ==> #[trigger] b.word(q, j)
                == a.word(q, j),
    ensures
        tree_wf(b, root, owned),
        same_tree(a, b, root),
        forall|v: VirtPageNum| #[trigger]
            walk(b, root, v) == if v.key() == vpn.key() {
                if e.spec_is_valid() {
                    Some(e)
                } else {
                    None
                }
            } else {
                walk(a, root, v)
            },
{
    let i0 = vpn.spec_index(0);
    let i1 = vpn.spec_index(1);
    let i2 = vpn.spec_index(2);
    let t2 = l2(a, root, i0, i1);
    assert(owned.contains(t2) && t2 != root);
    assert(a.allocated().contains(t2));
    a.lemma_allocated_contained(t2);
    assert forall|j0: int| #[trigger]
        has_l1(b, root, j0) == has_l1(a, root, j0) && (has_l1(a, root, j0) ==> l1(b, root, j0)
            == l1(a, root, j0)) by {
        assert(b.word(root, j0) == a.word(root, j0));
    }
    assert forall|j0: int, j1: int| #[trigger]
        has_l2(b, root, j0, j1) == has_l2(a, root, j0, j1) && (has_l2(a, root, j0, j1) ==> l2(
            b,
            root,
            j0,
            j1,
        ) == l2(a, root, j0, j1)) by {
        assert(has_l1(b, root, j0) == has_l1(a, root, j0));
        if has_l1(a, root, j0) {
            let t = l1(a, root, j0);
            assert(has_l2(a, root, i0, i1));
            assert(t != t2);
            assert(b.word(t, j1) == a.word(t, j1));
        }
    }
    assert forall|v: VirtPageNum| #[trigger]
        walk(b, root, v) == if v.key() == vpn.key() {
            if e.spec_is_valid() {
                Some(e)
            } else {
                None
            }
        } else {
            walk(a, root, v)
        } by {
        let j0 = v.spec_index(0);
        let j1 = v.spec_index(1);
        let j2 = v.spec_index(2);
        lemma_key_determined_by_indexes(v, vpn);
        assert(has_l2(b, root, j0, j1) == has_l2(a, root, j0, j1));
        if has_l2(a, root, j0, j1) {
            let t = l2(a, root, j0, j1);
            assert(l2(b, root, j0, j1) == t);
            assert(owned.contains(t));
            assert(a.allocated().contains(t));
            a.lemma_allocated_contained(t);
            if t == t2 {
                assert(j0 == i0 && j1 == i1);
                if j2 != i2 {
                    assert(b.word(t2, j2) == a.word(t2, j2));
                }
            } else {
                assert(b.word(t, j2) == a.word(t, j2));
            }
        }
    }
    assert forall|j0: int| #[trigger] has_l1(b, root, j0) implies owned.contains(l1(b, root, j0))
        && l1(b, root, j0) != root by {
        assert(has_l1(a, root, j0));
    }
    assert forall|j0: int, j1: int| #[trigger] has_l2(b, root, j0, j1) implies owned.contains(
        l2(b, root, j0, j1),
    ) && l2(b, root, j0, j1) != root by {
        assert(has_l2(a, root, j0, j1));
    }
    assert forall|j0: int, k0: int|
        #![trigger has_l1(b, root, j0), has_l1(b, root, k0)]
        has_l1(b, root, j0) && has_l1(b, root, k0) && l1(b, root, j0) == l1(
            b,
            root,
            k0,
        ) implies j0 == k0 by {
        assert(has_l1(a, root, j0));
        assert(has_l1(a, root, k0));
    }
    assert forall|j0: int, j1: int, k0: int, k1: int|
        #![trigger has_l2(b, root, j0, j1), has_l2(b, root, k0, k1)]
        has_l2(b, root, j0, j1) && has_l2(b, root, k0, k1) && l2(b, root, j0, j1) == l2(
            b,
            root,
            k0,
            k1,
        ) implies j0 == k0 && j1 == k1 by {
        assert(has_l2(a, root, j0, j1));
        assert(has_l2(a, root, k0, k1));
    }
    assert forall|j0: int, k0: int, k1: int|
        #![trigger has_l1(b, root, j0), has_l2(b, root, k0, k1)]
        has_l1(b, root, j0) && has_l2(b, root, k0, k1) implies l1(b, root, j0) != l2(
            b,
            root,
            k0,
            k1,
        ) by {
        assert(has_l1(a, root, j0));
        assert(has_l2(a, root, k0, k1));
    }
}

/// A tree stays well formed, and every walk through it finds the same, when
/// the arena changes only in frames the tree does not own and no owned frame
/// is given back.
pub proof fn lemma_tree_untouched(a: FrameArena, b: FrameArena, root: int, owned: Set<int>)
    requires
        tree_wf(a, root, owned),
        b.wf(),
        b.first_frame() == a.first_frame(),
        b.end_frame() == a.end_frame(),
        owned.subset_of(b.allocated()),
        forall|q: int| owned.contains(q) ==> #[trigger] b.frame(q) == a.frame(q),
    ensures
        tree_wf(b, root, owned),
        same_tree(a, b, root),
        forall|v: VirtPageNum| #[trigger] walk(b, root, v) == walk(a, root, v),
{
    assert(b.frame(root) == a.frame(root));
    assert forall|j0: int| #[trigger]
        has_l1(b, root, j0) == has_l1(a, root, j0) && (has_l1(a, root, j0) ==> l1(b, root, j0)
            == l1(a, root, j0)) by {
        assert(b.word(root, j0) == a.word(root, j0));
    }
    assert forall|j0: int, j1: int| #[trigger]
        has_l2(b, root, j0, j1) == has_l2(a, root, j0, j1) && (has_l2(a, root, j0, j1) ==> l2(
            b,
            root,
            j0,
            j1,
        ) == l2(a, root, j0, j1)) by {
        assert(has_l1(b, root, j0) == has_l1(a, root, j0));
        if has_l1(a, root, j0) {
            let t = l1(a, root, j0);
            assert(owned.contains(t));
            assert(b.frame(t) == a.frame(t));
            assert(b.word(t, j1) == a.word(t, j1));
        }
    }
    assert forall|v: VirtPageNum| #[trigger] walk(b, root, v) == walk(a, root, v) by {
        let j0 = v.spec_index(0);
        let j1 = v.spec_index(1);
        let j2 = v.spec_index(2);
        assert(has_l2(b, root, j0, j1) == has_l2(a, root, j0, j1));
        if has_l2(a, root, j0, j1) {
            let t = l2(a, root, j0, j1);
            assert(owned.contains(t));
            assert(b.frame(t) == a.frame(t));
            assert(b.word(t, j2) == a.word(t, j2));
        }
    }
    assert forall|j0: int| #[trigger] has_l1(b, root, j0) implies owned.contains(l1(b, root, j0))
        && l1(b, root, j0) != root by {
        assert(has_l1(a, root, j0));
    }
    assert forall|j0: int, j1: int| #[trigger] has_l2(b, root, j0, j1) implies owned.contains(
        l2(b, root, j0, j1),
    ) && l2(b, root, j0, j1) != root by {
        assert(has_l2(a, root, j0, j1));
    }
    assert forall|j0: int, k0: int|
        #![trigger has_l1(b, root, j0), has_l1(b, root, k0)]
        has_l1(b, root, j0) && has_l1(b, root, k0) && l1(b, root, j0) == l1(
            b,
            root,
            k0,
        ) implies j0 == k0 by {
        assert(has_l1(a, root, j0));
        assert(has_l1(a, root, k0));
    }
    assert forall|j0: int, j1: int, k0: int, k1: int|
        #![trigger has_l2(b, root, j0, j1), has_l2(b, root, k0, k1)]
        has_l2(b, root, j0, j1) && has_l2(b, root, k0, k1) && l2(b, root, j0, j1) == l2(
            b,
            root,
            k0,
            k1,
        ) implies j0 == k0 && j1 == k1 by {
        assert(has_l2(a, root, j0, j1));
        assert(has_l2(a, root, k0, k1));
    }
    assert forall|j0: int, k0: int, k1: int|
        #![trigger has_l1(b, root, j0), has_l2(b, root, k0, k1)]
        has_l1(b, root, j0) && has_l2(b, root, k0, k1) implies l1(b, root, j0) != l2(
            b,
            root,
            k0,
            k1,
        ) by {
        assert(has_l1(a, root, j0));
        assert(has_l2(a, root, k0, k1));
    }
}

/// The mode field of an address-space token: three-level paging.
pub const SATP_MODE_SV39: u64 = 0x8000_0000_0000_0000;

/// A three-level page table. Its table pages are frames of the arena; the
/// table owns the frames it has taken for them, unless it was made from a
/// token, in which case it owns nothing and only reads.
pub struct PageTable {
    root_ppn: PhysPageNum,
    frames: Vec<FrameTracker>,
}

impl PageTable {
    /// The frame of the root table.
    pub closed spec fn root(&self) -> int {
        self.root_ppn.0 as int
    }

    /// The frames this table owns.
    pub closed spec fn owned(&self) -> Set<int> {
        Set::new(
            |p: int| exists|i: int| 0 <= i < self.frames@.len() && #[trigger] self.frames@[i].ppn.0 == p,
        )
    }

    /// No frame is owned twice.
    pub closed spec fn frames_distinct(&self) -> bool {
        forall|i: int, j: int|
            0 <= i < j < self.frames@.len() ==> #[trigger] self.frames@[i].ppn != #[trigger] self.frames@[j].ppn
    }

    /// The table is a tree of owned, allocated frames of arena `a`.
    pub open spec fn wf(&self, a: FrameArena) -> bool {
        tree_wf(a, self.root(), self.owned()) && self.frames_distinct()
    }

    /// What the table holds for page `vpn`.
    pub open spec fn translation(&self, a: FrameArena, vpn: VirtPageNum) -> Option<PageTableEntry> {
        walk(a, self.root(), vpn)
    }

    /// The table as a map from slot to valid entry.
    pub open spec fn mappings(&self, a: FrameArena) -> Map<int, PageTableEntry> {
        Map::new(
            |k: int| 0 <= k < VPN_SPACE && walk(a, self.root(), VirtPageNum(k as u64)) is Some,
            |k: int| walk(a, self.root(), VirtPageNum(k as u64)).unwrap(),
        )
    }

    /// The token that names this table: the paging mode and the root frame.
    pub open spec fn spec_satp(&self) -> u64 {
        SATP_MODE_SV39 | (self.root() as u64)
    }

    /// What the table holds for a page is what the map holds for its slot.
    pub proof fn lemma_translation_is_lookup(&self, a: FrameArena, vpn: VirtPageNum)
        ensures
            0 <= vpn.key() < VPN_SPACE,
            self.translation(a, vpn) == if self.mappings(a).contains_key(vpn.key()) {
                Some(self.mappings(a)[vpn.key()])
            } else {
                None
            },
    {
        let c = VirtPageNum(vpn.key() as u64);
        assert(c.key() == vpn.key());
        lemma_key_determined_by_indexes(vpn, c);
    }

    /// A table that owns its frames owns its root, and every frame it owns is
    /// an allocated frame of the arena.
    pub proof fn lemma_owned_allocated(&self, a: FrameArena, p: int)
        requires
            self.wf(a),
            self.owned().contains(p),
        ensures
            a.allocated().contains(p),
            a.contains(p),
            self.owned().contains(self.root()),
    {
        a.lemma_allocated_contained(p);
    }

    /// A new, empty table, or nothing when the arena has no frame for its root.
    pub fn new(arena: &mut FrameArena) -> (r: Option<PageTable>)
        requires
            old(arena).wf(),
        ensures
            final(arena).wf(),
            r is Some <==> old(arena).free_count() > 0,
            r is None ==> final(arena).allocation() == old(arena).allocation(),
            r matches Some(pt) ==> {
                &&& pt.wf(*final(arena))
                &&& pt.owned() == set![pt.root()]
                &&& !old(arena).allocated().contains(pt.root())
                &&& final(arena).allocated() == old(arena).allocated().insert(pt.root())
                &&& final(arena).free_count() == old(arena).free_count() - 1
                &&& forall|v: VirtPageNum| #[trigger] pt.translation(*final(arena), v) is None
            },
            same_outside(
                *old(arena),
                *final(arena),
                if r is Some {
                    r.unwrap().owned()
                } else {
                    Set::empty()
                },
            ),
    {
        match arena.frame_alloc() {
            None => None,
            Some(frame) => {
                let pt = PageTable { root_ppn: frame.ppn, frames: vec![frame] };
                proof {
                    let root = pt.root();
                    assert(pt.frames@[0].ppn.0 == root);
                    assert(pt.owned() =~= set![root]);
                    lemma_zero_entry_invalid();
                    assert forall|j: int| !#[trigger] has_l1(*arena, root, j) by {
                        if 0 <= j < 512 {
                            lemma_zero_frame_word(j);
                        }
                    }
                }
                Some(pt)
            },
        }
    }

    /// A read-only table rooted at the frame that `satp` names. It owns no
    /// frame.
    pub fn from_satp(satp: u64) -> (r: PageTable)
        ensures
            r.root() == satp & 0xfff_ffff_ffff,
            r.owned() == Set::<int>::empty(),
    {
        let r = PageTable { root_ppn: PhysPageNum(satp & 0xfff_ffff_ffff), frames: Vec::new() };
        assert(r.owned() =~= Set::<int>::empty());
        r
    }

    /// The token that names this table.
    pub fn satp(&self) -> (r: u64)
        ensures
            r == self.spec_satp(),
    {
        SATP_MODE_SV39 | self.root_ppn.0
    }

    /// The frame of the root table.
    pub fn root_ppn(&self) -> (r: PhysPageNum)
        ensures
            r.0 == self.root(),
    {
        self.root_ppn
    }

    /// Looks page `vpn` up: the entry at the end of the walk, if the walk gets
    /// there through frames of the arena and the entry is valid.
    pub fn translate(&self, arena: &FrameArena, vpn: VirtPageNum) -> (r: Option<PageTableEntry>)
        requires
            arena.wf(),
        ensures
            r == self.translation(*arena, vpn),
    {
        let idx = vpn.indexes();
        if !arena.has_frame(self.root_ppn) {
            return None;
        }
        let e0 = PageTableEntry { bits: arena.read_word(self.root_ppn, idx[0]) };
        if !e0.is_valid() {
            return None;
        }
        let t1 = e0.ppn();
        if !arena.has_frame(t1) {
            return None;
        }
        let e1 = PageTableEntry { bits: arena.read_word(t1, idx[1]) };
        if !e1.is_valid() {
            return None;
        }
        let t2 = e1.ppn();
        if !arena.has_frame(t2) {
            return None;
        }
        let e2 = PageTableEntry { bits: arena.read_word(t2, idx[2]) };
        if e2.is_valid() {
            Some(e2)
        } else {
            None
        }
    }

    /// Takes a fresh frame, links it as a table at index `idx` of the table
    /// in frame `table`, and keeps its handle.
    fn link_table(&mut self, arena: &mut FrameArena, table: PhysPageNum, idx: usize) -> (r: Option<
        PhysPageNum,
    >)
        requires
            old(arena).wf(),
            old(arena).allocated().contains(table.0 as int),
            old(self).owned().subset_of(old(arena).allocated()),
            old(self).frames_distinct(),
            idx < 512,
        ensures
            final(arena).wf(),
            final(self).root() == old(self).root(),
            final(self).frames_distinct(),
            final(arena).first_frame() == old(arena).first_frame(),
            final(arena).end_frame() == old(arena).end_frame(),
            r is Some <==> old(arena).free_count() > 0,
            r is None ==> *final(self) == *old(self) && *final(arena) == *old(arena),
            r matches Some(f) ==> {
                &&& old(arena).contains(f.0 as int)
                &&& !old(arena).allocated().contains(f.0 as int)
                &&& final(self).owned() == old(self).owned().insert(f.0 as int)
                &&& final(arena).allocated() == old(arena).allocated().insert(f.0 as int)
                &&& final(arena).free_count() == old(arena).free_count() - 1
                &&& forall|j: int| 0 <= j < 512 ==> #[trigger] final(arena).word(f.0 as int, j) == 0
                &&& final(arena).word(table.0 as int, idx as int) == PageTableEntry::spec_new(
                    f,
                    PTEFlags { bits: PTE_V },
                ).bits
                &&& forall|j: int|
                    0 <= j < 512 && j != idx ==> #[trigger] final(arena).word(table.0 as int, j)
                        == old(arena).word(table.0 as int, j)
                &&& forall|q: int|
                    q != table.0 && q != f.0 ==> #[trigger] final(arena).frame(q) == old(
                        arena,
                    ).frame(q)
            },
    {
        proof {
            old(arena).lemma_allocated_contained(table.0 as int);
        }
        if arena.free_frames() == 0 {
            return None;
        }
        match arena.frame_alloc() {
            None => None,
            Some(frame) => {
                let f = frame.ppn;
                let ghost mid = *arena;
                let entry = PageTableEntry::new(f, PTEFlags { bits: PTE_V });
                arena.write_word(table, idx, entry.bits);
                let ghost before = self.frames@;
                self.frames.push(frame);
                proof {
                    assert forall|j: int| 0 <= j < 512 implies #[trigger] arena.word(f.0 as int, j)
                        == 0 by {
                        lemma_zero_frame_word(j);
                        assert(arena.frame(f.0 as int) == mid.frame(f.0 as int));
                    }
                    assert(self.frames@ =~= before.push(frame));
                    assert forall|p: int| self.owned().contains(p) <==> old(self).owned().insert(
                        f.0 as int,
                    ).contains(p) by {
                        if old(self).owned().contains(p) {
                            let i = choose|i: int|
                                0 <= i < before.len() && #[trigger] before[i].ppn.0 == p;
                            assert(self.frames@[i].ppn.0 == p);
                        }
                        if p == f.0 as int {
                            assert(self.frames@[before.len() as int].ppn.0 == p);
                        }
                        if self.owned().contains(p) && p != f.0 as int {
                            let i = choose|i: int|
                                0 <= i < self.frames@.len() && #[trigger] self.frames@[i].ppn.0 == p;
                            assert(before[i].ppn.0 == p);
                        }
                    }
                    assert(self.owned() =~= old(self).owned().insert(f.0 as int));
                    assert forall|i: int, j: int|
                        0 <= i < j < self.frames@.len() implies #[trigger] self.frames@[i].ppn
                        != #[trigger] self.frames@[j].ppn by {
                        if j == before.len() {
                            assert(before[i].ppn.0 == self.frames@[i].ppn.0);
                            assert(old(self).owned().contains(before[i].ppn.0 as int));
                        }
                    }
                }
                Some(f)
            },
        }
    }

    /// Installs the entry `vpn -> ppn` with `flags` and the valid bit, adding
    /// the tables that the walk to it lacks. Fails, leaving every mapping as
    /// it was, when the arena runs out of frames for those tables.
    pub fn map(
        &mut self,
        arena: &mut FrameArena,
        vpn: VirtPageNum,
        ppn: PhysPageNum,
        flags: PTEFlags,
    ) -> (r: Result<(), OutOfFrames>)
        requires
            old(self).wf(*old(arena)),
            old(self).translation(*old(arena), vpn) is None,
        ensures
            final(self).wf(*final(arena)),
            final(self).root() == old(self).root(),
            old(self).owned().subset_of(final(self).owned()),
            forall|p: int|
                final(self).owned().contains(p) && !old(self).owned().contains(p) ==> !old(
                    arena,
                ).allocated().contains(p),
            final(arena).allocated() == old(arena).allocated().union(final(self).owned()),
            same_outside(*old(arena), *final(arena), final(self).owned()),
            tables_kept(*old(arena), *final(arena), old(self).root()),
            r is Ok <==> old(arena).free_count() >= tables_needed(
                *old(arena),
                old(self).root(),
                vpn,
            ),
            r is Ok ==> final(arena).free_count() == old(arena).free_count() - tables_needed(
                *old(arena),
                old(self).root(),
                vpn,
            ),
            r is Err ==> final(arena).free_count() == 0,
            forall|v: VirtPageNum| #[trigger]
                final(self).translation(*final(arena), v) == if r is Ok && v.key() == vpn.key() {
                    Some(PageTableEntry::spec_new(ppn, flags.spec_with(PTE_V)))
                } else {
                    old(self).translation(*old(arena), v)
                },
            final(self).mappings(*final(arena)) == if r is Ok {
                old(self).mappings(*old(arena)).insert(
                    vpn.key(),
                    PageTableEntry::spec_new(ppn, flags.spec_with(PTE_V)),
                )
            } else {
                old(self).mappings(*old(arena))
            },
    {
        let idx = vpn.indexes();
        let root = self.root_ppn;
        let ghost a0 = *arena;
        let ghost owned0 = self.owned();
        let ghost r0 = root.0 as int;
        proof {
            a0.lemma_allocated_contained(r0);
        }
        let e0 = PageTableEntry { bits: arena.read_word(root, idx[0]) };
        let t1: PhysPageNum = if e0.is_valid() {
            e0.ppn()
        } else {
            match self.link_table(arena, root, idx[0]) {
                None => {
                    proof {
                        assert(self.mappings(*arena) =~= old(self).mappings(a0));
                    }
                    return Err(OutOfFrames);
                },
                Some(f) => {
                    proof {
                        lemma_link_l1(a0, *arena, r0, owned0, idx[0] as int, f.0 as int);
                    }
                    f
                },
            }
        };
        let ghost a1 = *arena;
        let ghost owned1 = self.owned();
        proof {
            assert(tables_kept(a0, a1, r0));
            assert(has_l1(a1, r0, idx[0] as int) && l1(a1, r0, idx[0] as int) == t1.0);
            assert(owned1.contains(t1.0 as int));
            a1.lemma_allocated_contained(t1.0 as int);
            assert forall|v: VirtPageNum| #[trigger] walk(a1, r0, v) == walk(a0, r0, v) by {}
        }
        let e1 = PageTableEntry { bits: arena.read_word(t1, idx[1]) };
        let t2: PhysPageNum = if e1.is_valid() {
            e1.ppn()
        } else {
            match self.link_table(arena, t1, idx[1]) {
                None => {
                    proof {
                        assert forall|k: int| #[trigger]
                            self.mappings(*arena).contains_key(k) == old(self).mappings(
                                a0,
                            ).contains_key(k) && (self.mappings(*arena).contains_key(k)
                                ==> self.mappings(*arena)[k] == old(self).mappings(a0)[k]) by {
                            assert(walk(a1, r0, VirtPageNum(k as u64)) == walk(
                                a0,
                                r0,
                                VirtPageNum(k as u64),
                            ));
                        }
                        assert(self.mappings(*arena) =~= old(self).mappings(a0));
                    }
                    return Err(OutOfFrames);
                },
                Some(f) => {
                    proof {
                        lemma_link_l2(
                            a1,
                            *arena,
                            r0,
                            owned1,
                            idx[0] as int,
                            idx[1] as int,
                            f.0 as int,
                        );
                    }
                    f
                },
            }
        };
        let ghost a2 = *arena;
        let ghost owned2 = self.owned();
        proof {
            assert(tables_kept(a1, a2, r0));
            assert(tables_kept(a0, a2, r0));
            assert(has_l2(a2, r0, idx[0] as int, idx[1] as int) && l2(
                a2,
                r0,
                idx[0] as int,
                idx[1] as int,
            ) == t2.0);
            assert(owned2.contains(t2.0 as int));
            a2.lemma_allocated_contained(t2.0 as int);
            assert forall|v: VirtPageNum| #[trigger] walk(a2, r0, v) == walk(a0, r0, v) by {
                assert(walk(a1, r0, v) == walk(a0, r0, v));
            }
        }
        let entry = PageTableEntry::new(ppn, flags.with(PTE_V));
        arena.write_word(t2, idx[2], entry.bits);
        proof {
            lemma_set_leaf(a2, *arena, r0, owned2, vpn, entry);
            lemma_new_entry_valid(ppn, flags);
            assert forall|v: VirtPageNum| #[trigger]
                self.translation(*arena, v) == if v.key() == vpn.key() {
                    Some(entry)
                } else {
                    old(self).translation(a0, v)
                } by {
                assert(walk(a2, r0, v) == walk(a0, r0, v));
            }
            let m0 = old(self).mappings(a0);
            let m1 = self.mappings(*arena);
            assert forall|k: int| #[trigger]
                m1.contains_key(k) == m0.insert(vpn.key(), entry).contains_key(k) && (
                m1.contains_key(k) ==> m1[k] == m0.insert(vpn.key(), entry)[k]) by {
                let c = VirtPageNum(k as u64);
                if 0 <= k < VPN_SPACE {
                    assert(c.key() == k);
                    assert(walk(a2, r0, c) == walk(a0, r0, c));
                }
            }
            assert(m1 =~= m0.insert(vpn.key(), entry));
        }
        Ok(())
    }

    /// Clears the entry of page `vpn`, which must be mapped.
    pub fn unmap(&mut self, arena: &mut FrameArena, vpn: VirtPageNum)
        requires
            old(self).wf(*old(arena)),
            old(self).translation(*old(arena), vpn) is Some,
        ensures
            *final(self) == *old(self),
            final(self).wf(*final(arena)),
            final(arena).allocation() == old(arena).allocation(),
            same_outside(*old(arena), *final(arena), final(self).owned()),
            tables_kept(*old(arena), *final(arena), old(self).root()),
            forall|v: VirtPageNum| #[trigger]
                final(self).translation(*final(arena), v) == if v.key() == vpn.key() {
                    None
                } else {
                    old(self).translation(*old(arena), v)
                },
            final(self).mappings(*final(arena)) == old(self).mappings(*old(arena)).remove(
                vpn.key(),
            ),
    {
        let idx = vpn.indexes();
        let root = self.root_ppn;
        let ghost a0 = *arena;
        let ghost r0 = root.0 as int;
        proof {
            a0.lemma_allocated_contained(r0);
        }
        let e0 = PageTableEntry { bits: arena.read_word(root, idx[0]) };
        let t1 = e0.ppn();
        let e1 = PageTableEntry { bits: arena.read_word(t1, idx[1]) };
        let t2 = e1.ppn();
        proof {
            assert(has_l2(a0, r0, idx[0] as int, idx[1] as int));
            assert(self.owned().contains(t2.0 as int));
        }
        let entry = PageTableEntry::empty();
        arena.write_word(t2, idx[2], entry.bits);
        proof {
            lemma_set_leaf(a0, *arena, r0, self.owned(), vpn, entry);
            let m0 = old(self).mappings(a0);
            let m1 = self.mappings(*arena);
            assert forall|k: int| #[trigger]
                m1.contains_key(k) == m0.remove(vpn.key()).contains_key(k) && (m1.contains_key(k)
                    ==> m1[k] == m0.remove(vpn.key())[k]) by {
                let c = VirtPageNum(k as u64);
                if 0 <= k < VPN_SPACE {
                    assert(c.key() == k);
                }
            }
            assert(m1 =~= m0.remove(vpn.key()));
        }
    }
}

/// An entry made with the valid bit is valid, whatever its page number.
pub proof fn lemma_new_entry_valid(ppn: PhysPageNum, flags: PTEFlags)
    ensures
        PageTableEntry::spec_new(ppn, flags.spec_with(PTE_V)).spec_is_valid(),
{
    let p: u64 = ppn.0;
    let f: u8 = flags.bits;
    assert(((p << 10) | ((f | 0x01) as u64)) & 0x01 != 0) by (bit_vector);
}

/// The token of a table whose root lies below 2^44 names that root.
pub proof fn lemma_satp_names_root(root: u64)
    requires
        root < PPN_SPACE,
    ensures
        (SATP_MODE_SV39 | root) & 0xfff_ffff_ffff == root,
{
    assert((0x8000_0000_0000_0000u64 | root) & 0xfff_ffff_ffff == root) by (bit_vector)
        requires
            root < 0x1000_0000_0000,
    ;
}


/// Looking a page up after it has been mapped finds an entry with exactly
/// the page number and the flags that were given, and the valid bit: if
/// table `pt1` over arena `a1` is table `pt0` over `a0` with `vpn` mapped
/// to `ppn` with `flags`, then `pt1` holds for `vpn` an entry whose page
/// number is `ppn` and whose flags are `flags` with the valid bit. The page
/// is then mapped, so that it cannot be mapped again before it is unmapped.
pub proof fn law_translate_after_map(
    pt0: PageTable,
    a0: FrameArena,
    pt1: PageTable,
    a1: FrameArena,
    vpn: VirtPageNum,
    ppn: PhysPageNum,
    flags: PTEFlags,
)
    requires
        ppn.0 < PPN_SPACE,
        pt1.mappings(a1) == pt0.mappings(a0).insert(
            vpn.key(),
            PageTableEntry::spec_new(ppn, flags.spec_with(PTE_V)),
        ),
    ensures
        pt1.translation(a1, vpn) is Some,
        pt1.translation(a1, vpn).unwrap().spec_ppn() == ppn,
        pt1.translation(a1, vpn).unwrap().spec_flags() == flags.spec_with(PTE_V),
        pt1.translation(a1, vpn).unwrap().spec_is_valid(),
{
    pt1.lemma_translation_is_lookup(a1, vpn);
    lemma_entry_fields(ppn, flags.spec_with(PTE_V));
    lemma_new_entry_valid(ppn, flags);
}

/// Looking a page up after it has been unmapped finds nothing: if table
/// `pt1` over arena `a1` is table `pt0` over `a0` with `vpn` unmapped, then
/// `pt1` holds nothing for `vpn`, so that it cannot be unmapped again
/// before it is mapped.
pub proof fn law_translate_after_unmap(
    pt0: PageTable,
    a0: FrameArena,
    pt1: PageTable,
    a1: FrameArena,
    vpn: VirtPageNum,
)
    requires
        pt1.mappings(a1) == pt0.mappings(a0).remove(vpn.key()),
    ensures
        pt1.translation(a1, vpn) is None,
{
    pt1.lemma_translation_is_lookup(a1, vpn);
}

} // verus!
