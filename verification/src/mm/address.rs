//! Typed virtual and physical addresses and page numbers.

use vstd::prelude::*;
use crate::config::PAGE_SIZE;

verus! {

/// Number of distinct slots reachable through a three-level table: 2^27.
pub const VPN_SPACE: u64 = 0x800_0000;

/// Number of physical page numbers a table entry can hold: 2^44.
pub const PPN_SPACE: u64 = 0x1000_0000_0000;

/// A physical byte address.
#[derive(Clone, Copy, Debug, PartialEq, Eq, Structural)]
pub struct PhysAddr(pub u64);

/// A virtual byte address.
#[derive(Clone, Copy, Debug, PartialEq, Eq, Structural)]
pub struct VirtAddr(pub u64);

/// A physical page number: a physical address divided by the page size.
#[derive(Clone, Copy, Debug, PartialEq, Eq, Structural)]
pub struct PhysPageNum(pub u64);

/// A virtual page number: a virtual address divided by the page size.
#[derive(Clone, Copy, Debug, PartialEq, Eq, Structural)]
pub struct VirtPageNum(pub u64);

/// The number of the page that contains byte address `addr`.
pub open spec fn page_floor(addr: int) -> int {
    addr / (PAGE_SIZE as int)
}

/// The number of the first page that starts at or after byte address `addr`.
pub open spec fn page_ceil(addr: int) -> int {
    (addr + PAGE_SIZE - 1) / (PAGE_SIZE as int)
}

impl VirtAddr {
    /// The page that contains this address.
    pub open spec fn spec_floor(&self) -> VirtPageNum {
        VirtPageNum(self.0 / PAGE_SIZE)
    }

    /// The page that contains this address.
    pub fn floor(&self) -> (r: VirtPageNum)
        ensures
            r.0 == page_floor(self.0 as int),
            r == self.spec_floor(),
    {
        VirtPageNum(self.0 / PAGE_SIZE)
    }

    /// The first page that starts at or after this address.
    pub fn ceil(&self) -> (r: VirtPageNum)
        ensures
            r.0 == page_ceil(self.0 as int),
    {
        if self.0 % PAGE_SIZE == 0 {
            VirtPageNum(self.0 / PAGE_SIZE)
        } else {
            VirtPageNum(self.0 / PAGE_SIZE + 1)
        }
    }

    /// The offset of this address inside its page.
    pub fn page_offset(&self) -> (r: u64)
        ensures
            r == self.0 % PAGE_SIZE,
            r < PAGE_SIZE,
    {
        self.0 % PAGE_SIZE
    }

    /// Whether this address is the first byte of a page.
    pub fn aligned(&self) -> (r: bool)
        ensures
            r == (self.0 % PAGE_SIZE == 0),
    {
        self.page_offset() == 0
    }
}

impl PhysAddr {
    /// The frame that contains this address.
    pub fn floor(&self) -> (r: PhysPageNum)
        ensures
            r.0 == page_floor(self.0 as int),
    {
        PhysPageNum(self.0 / PAGE_SIZE)
    }

    /// The first frame that starts at or after this address.
    pub fn ceil(&self) -> (r: PhysPageNum)
        ensures
            r.0 == page_ceil(self.0 as int),
    {
        if self.0 % PAGE_SIZE == 0 {
            PhysPageNum(self.0 / PAGE_SIZE)
        } else {
            PhysPageNum(self.0 / PAGE_SIZE + 1)
        }
    }

    /// The offset of this address inside its frame.
    pub fn page_offset(&self) -> (r: u64)
        ensures
            r == self.0 % PAGE_SIZE,
            r < PAGE_SIZE,
    {
        self.0 % PAGE_SIZE
    }

    /// Whether this address is the first byte of a frame.
    pub fn aligned(&self) -> (r: bool)
        ensures
            r == (self.0 % PAGE_SIZE == 0),
    {
        self.page_offset() == 0
    }
}

impl PhysPageNum {
    /// Whether the first byte of this frame has a representable address.
    pub open spec fn addressable(&self) -> bool {
        self.0 * PAGE_SIZE <= u64::MAX
    }

    /// The address of the first byte of this frame.
    pub fn addr(&self) -> (r: PhysAddr)
        requires
            self.addressable(),
        ensures
            r.0 == self.0 * PAGE_SIZE,
    {
        PhysAddr(self.0 * PAGE_SIZE)
    }
}

impl VirtPageNum {
    /// The slot of the three-level table that this page number selects: its
    /// low 27 bits. Page numbers that agree on them share one table entry.
    pub open spec fn key(&self) -> int {
        (self.0 % VPN_SPACE) as int
    }

    /// The index into the table of the given level that a walk for this page
    /// uses; level 0 is the root.
    pub open spec fn spec_index(&self, level: int) -> int {
        if level == 0 {
            (self.0 / 0x4_0000) as int % 512
        } else if level == 1 {
            (self.0 / 0x200) as int % 512
        } else {
            self.0 as int % 512
        }
    }

    /// Whether the first byte of this page has a representable address.
    pub open spec fn addressable(&self) -> bool {
        self.0 * PAGE_SIZE <= u64::MAX
    }

    /// The address of the first byte of this page.
    pub fn addr(&self) -> (r: VirtAddr)
        requires
            self.addressable(),
        ensures
            r.0 == self.0 * PAGE_SIZE,
    {
        VirtAddr(self.0 * PAGE_SIZE)
    }

    /// Splits the page number into the three table indices of a walk, root first.
    pub fn indexes(&self) -> (r: [usize; 3])
        ensures
            r[0] == self.spec_index(0),
            r[1] == self.spec_index(1),
            r[2] == self.spec_index(2),
            r[0] < 512 && r[1] < 512 && r[2] < 512,
    {
        let i0: u64 = (self.0 / 0x4_0000) % 512;
        let i1: u64 = (self.0 / 0x200) % 512;
        let i2: u64 = self.0 % 512;
        [i0 as usize, i1 as usize, i2 as usize]
    }
}

/// Two page numbers select the same table slot exactly when they agree on all
/// three table indices.
pub proof fn lemma_key_determined_by_indexes(a: VirtPageNum, b: VirtPageNum)
    ensures
        a.key() == b.key() <==> (a.spec_index(0) == b.spec_index(0) && a.spec_index(1)
            == b.spec_index(1) && a.spec_index(2) == b.spec_index(2)),
        a.key() == a.spec_index(0) * 0x4_0000 + a.spec_index(1) * 0x200 + a.spec_index(2),
{
    lemma_key_split(a.0 as int);
    lemma_key_split(b.0 as int);
}

/// The low 27 bits of a number are its three 9-bit digits.
proof fn lemma_key_split(v: int)
    requires
        0 <= v,
    ensures
        v % 0x800_0000 == ((v / 0x4_0000) % 512) * 0x4_0000 + ((v / 0x200) % 512) * 0x200 + v % 512,
{
    let q0 = v / 0x200;
    let q1 = q0 / 0x200;
    assert(v == q0 * 0x200 + v % 0x200);
    assert(q0 == q1 * 0x200 + q0 % 0x200);
    assert(q1 == v / 0x4_0000);
    assert(q1 == (q1 / 0x200) * 0x200 + q1 % 0x200);
}

} // verus!
