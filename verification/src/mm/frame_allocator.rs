//! The physical frame allocator and the arena of frames it hands out.
//!
//! Physical memory is an arena of page frames, addressed by physical page
//! number. A frame is obtained with [`FrameArena::frame_alloc`], which returns
//! a [`FrameTracker`], and given back with [`FrameArena::frame_dealloc`].
//! Frame contents are read and written through the arena, by page number and
//! offset; nothing holds a pointer into it.

use vstd::prelude::*;
use vstd::bytes::*;
use vstd::slice::slice_subrange;
use crate::config::PAGE_SIZE;
use crate::mm::address::{PhysPageNum, PPN_SPACE};

verus! {

/// The arena had no free frame left when one was needed.
#[derive(Clone, Copy, Debug, PartialEq, Eq, Structural)]
pub struct OutOfFrames;

/// The exclusive handle of one allocated frame.
#[derive(Debug)]
pub struct FrameTracker {
    pub ppn: PhysPageNum,
}

/// Keeps track of which frames of a range are free: a cursor below which
/// every frame has been handed out at least once, and a stack of frames that
/// came back.
pub struct StackFrameAllocator {
    start: u64,
    current: u64,
    end: u64,
    recycled: Vec<u64>,
}

impl StackFrameAllocator {
    /// The internal consistency of the allocator.
    pub closed spec fn wf(&self) -> bool {
        &&& self.start <= self.current <= self.end
        &&& self.recycled@.no_duplicates()
        &&& forall|i: int|
            0 <= i < self.recycled@.len() ==> self.start <= #[trigger] self.recycled@[i]
                < self.current
    }

    /// The first frame of the managed range.
    pub closed spec fn first_frame(&self) -> int {
        self.start as int
    }

    /// The frame just past the managed range.
    pub closed spec fn end_frame(&self) -> int {
        self.end as int
    }

    /// The frames that are currently handed out.
    pub closed spec fn allocated(&self) -> Set<int> {
        Set::new(|p: int| self.start <= p < self.current && !self.recycled@.contains(p as u64))
    }

    /// The number of frames that can still be handed out.
    pub closed spec fn free_count(&self) -> nat {
        (self.recycled@.len() + self.end - self.current) as nat
    }

    /// The frame that the next allocation hands out: the one given back most
    /// recently, or else the lowest frame never handed out.
    pub closed spec fn next_frame(&self) -> int {
        if self.recycled@.len() > 0 {
            self.recycled@.last() as int
        } else {
            self.current as int
        }
    }

    /// Every allocated frame lies in the managed range.
    pub proof fn lemma_allocated_in_range(&self, p: int)
        requires
            self.wf(),
            self.allocated().contains(p),
        ensures
            self.first_frame() <= p < self.end_frame(),
    {
    }

    /// An allocator for the frames `start..end`, all of them free.
    pub fn new(start: PhysPageNum, end: PhysPageNum) -> (r: Self)
        requires
            start.0 <= end.0,
        ensures
            r.wf(),
            r.first_frame() == start.0,
            r.end_frame() == end.0,
            r.allocated() == Set::<int>::empty(),
            r.free_count() == end.0 - start.0,
    {
        let r = StackFrameAllocator {
            start: start.0,
            current: start.0,
            end: end.0,
            recycled: Vec::new(),
        };
        assert(r.allocated() =~= Set::<int>::empty());
        r
    }

    /// The number of frames that can still be handed out.
    pub fn free_frames(&self) -> (r: u64)
        requires
            self.wf(),
        ensures
            r == self.free_count(),
    {
        proof {
            lemma_distinct_in_range_len(self.recycled@, self.start as int, self.current as int);
        }
        self.recycled.len() as u64 + (self.end - self.current)
    }

    /// Hands out a free frame, or nothing when none is left.
    pub fn allocate(&mut self) -> (r: Option<PhysPageNum>)
        requires
            old(self).wf(),
        ensures
            final(self).wf(),
            final(self).first_frame() == old(self).first_frame(),
            final(self).end_frame() == old(self).end_frame(),
            r is Some <==> old(self).free_count() > 0,
            r is None ==> *final(self) == *old(self),
            r matches Some(p) ==> {
                &&& p.0 == old(self).next_frame()
                &&& old(self).first_frame() <= p.0 < old(self).end_frame()
                &&& !old(self).allocated().contains(p.0 as int)
                &&& final(self).allocated() == old(self).allocated().insert(p.0 as int)
                &&& final(self).free_count() == old(self).free_count() - 1
            },
    {
        let n: usize = self.recycled.len();
        if n > 0 {
            let ghost before = self.recycled@;
            let p: u64 = self.recycled.pop().unwrap();
            proof {
                assert(self.recycled@ =~= before.drop_last());
                assert(before[n - 1] == p);
                assert forall|q: int| self.allocated().contains(q) <==> old(self).allocated().insert(
                    p as int,
                ).contains(q) by {
                    if q == p as int {
                        if self.recycled@.contains(p) {
                            let i = choose|i: int| 0 <= i < self.recycled@.len() && self.recycled@[i] == p;
                            assert(before[i] == before[n - 1]);
                        }
                    } else if self.start <= q < self.current {
                        if before.contains(q as u64) {
                            let i = choose|i: int| 0 <= i < before.len() && before[i] == q as u64;
                            assert(self.recycled@[i] == q as u64);
                        }
                        if self.recycled@.contains(q as u64) {
                            let i = choose|i: int|
                                0 <= i < self.recycled@.len() && self.recycled@[i] == q as u64;
                            assert(before[i] == q as u64);
                        }
                    }
                }
                assert(self.allocated() =~= old(self).allocated().insert(p as int));
                assert(before.contains(p));
            }
            Some(PhysPageNum(p))
        } else if self.current == self.end {
            None
        } else {
            let p: u64 = self.current;
            self.current = p + 1;
            proof {
                assert(self.allocated() =~= old(self).allocated().insert(p as int));
            }
            Some(PhysPageNum(p))
        }
    }

    /// Takes back a frame that is handed out.
    pub fn dealloc(&mut self, ppn: PhysPageNum)
        requires
            old(self).wf(),
            old(self).allocated().contains(ppn.0 as int),
        ensures
            final(self).wf(),
            final(self).first_frame() == old(self).first_frame(),
            final(self).end_frame() == old(self).end_frame(),
            final(self).allocated() == old(self).allocated().remove(ppn.0 as int),
            final(self).free_count() == old(self).free_count() + 1,
            final(self).next_frame() == ppn.0,
    {
        let ghost before = self.recycled@;
        self.recycled.push(ppn.0);
        proof {
            assert(self.recycled@ =~= before.push(ppn.0));
            assert forall|q: int| self.allocated().contains(q) <==> old(self).allocated().remove(
                ppn.0 as int,
            ).contains(q) by {
                if q != ppn.0 as int && self.start <= q < self.current {
                    if before.contains(q as u64) {
                        let i = choose|i: int| 0 <= i < before.len() && before[i] == q as u64;
                        assert(self.recycled@[i] == q as u64);
                    }
                    if self.recycled@.contains(q as u64) {
                        let i = choose|i: int|
                            0 <= i < self.recycled@.len() && self.recycled@[i] == q as u64;
                        assert(before[i] == q as u64);
                    }
                } else if q == ppn.0 as int {
                    assert(self.recycled@[before.len() as int] == ppn.0);
                }
            }
            assert(self.allocated() =~= old(self).allocated().remove(ppn.0 as int));
        }
    }
}

/// The contents of a frame that holds only zero bytes.
pub open spec fn zero_frame() -> Seq<u8> {
    Seq::new(PAGE_SIZE as nat, |i: int| 0u8)
}

/// The arena of physical frames: the allocator together with the bytes of
/// every frame of its range.
pub struct FrameArena {
    allocator: StackFrameAllocator,
    bytes: Vec<u8>,
}

impl FrameArena {
    /// The internal consistency of the arena.
    pub closed spec fn wf(&self) -> bool {
        &&& self.allocator.wf()
        &&& self.allocator.end <= PPN_SPACE
        &&& self.bytes@.len() == (self.allocator.end - self.allocator.start) * PAGE_SIZE
    }

    /// The state of the allocator inside the arena.
    pub closed spec fn allocation(&self) -> StackFrameAllocator {
        self.allocator
    }

    /// The first frame of the arena.
    pub open spec fn first_frame(&self) -> int {
        self.allocation().first_frame()
    }

    /// The frame just past the arena.
    pub open spec fn end_frame(&self) -> int {
        self.allocation().end_frame()
    }

    /// Whether frame `p` belongs to the arena.
    pub open spec fn contains(&self, p: int) -> bool {
        self.first_frame() <= p < self.end_frame()
    }

    /// The frames that are currently handed out.
    pub open spec fn allocated(&self) -> Set<int> {
        self.allocation().allocated()
    }

    /// The number of frames that can still be handed out.
    pub open spec fn free_count(&self) -> nat {
        self.allocation().free_count()
    }

    /// The 4096 bytes of frame `p`.
    pub closed spec fn frame(&self, p: int) -> Seq<u8> {
        if self.allocator.start <= p < self.allocator.end {
            self.bytes@.subrange(
                (p - self.allocator.start) * PAGE_SIZE,
                (p - self.allocator.start + 1) * PAGE_SIZE,
            )
        } else {
            Seq::empty()
        }
    }

    /// The `i`-th 64-bit little-endian word of frame `p`.
    pub open spec fn word(&self, p: int, i: int) -> u64 {
        spec_u64_from_le_bytes(self.frame(p).subrange(8 * i, 8 * i + 8))
    }

    /// Every frame of the arena has a full page of bytes and a representable address.
    pub proof fn lemma_frame_len(&self, p: int)
        requires
            self.wf(),
            self.contains(p),
        ensures
            self.frame(p).len() == PAGE_SIZE,
            0 <= p < PPN_SPACE,
    {
    }

    /// Every allocated frame belongs to the arena.
    pub proof fn lemma_allocated_contained(&self, p: int)
        requires
            self.wf(),
            self.allocated().contains(p),
        ensures
            self.contains(p),
    {
        self.allocator.lemma_allocated_in_range(p);
    }

    /// An arena for the frames `start..end`, all of them free and zeroed.
    pub fn new(start: PhysPageNum, end: PhysPageNum) -> (r: Self)
        requires
            start.0 <= end.0 <= PPN_SPACE,
            (end.0 - start.0) * PAGE_SIZE <= usize::MAX,
        ensures
            r.wf(),
            r.first_frame() == start.0,
            r.end_frame() == end.0,
            r.allocated() == Set::<int>::empty(),
            r.free_count() == end.0 - start.0,
            forall|p: int| r.contains(p) ==> #[trigger] r.frame(p) == zero_frame(),
    {
        let n: usize = ((end.0 - start.0) * PAGE_SIZE) as usize;
        let r = FrameArena { allocator: StackFrameAllocator::new(start, end), bytes: vec![0u8; n] };
        assert forall|p: int| r.contains(p) implies #[trigger] r.frame(p) == zero_frame() by {
            assert(r.frame(p) =~= zero_frame());
        }
        r
    }

    /// The index of the first byte of frame `ppn` in the arena's storage.
    fn frame_base(&self, ppn: PhysPageNum) -> (r: usize)
        requires
            self.wf(),
            self.contains(ppn.0 as int),
        ensures
            r == (ppn.0 - self.allocator.start) * PAGE_SIZE,
            r + PAGE_SIZE <= self.bytes@.len() <= usize::MAX,
    {
        let total: usize = self.bytes.len();
        assert((ppn.0 - self.allocator.start + 1) * PAGE_SIZE <= total);
        ((ppn.0 - self.allocator.start) * PAGE_SIZE) as usize
    }

    /// Whether frame `ppn` belongs to the arena.
    pub fn has_frame(&self, ppn: PhysPageNum) -> (r: bool)
        requires
            self.wf(),
        ensures
            r == self.contains(ppn.0 as int),
    {
        self.allocator.start <= ppn.0 && ppn.0 < self.allocator.end
    }

    /// The number of frames that can still be handed out.
    pub fn free_frames(&self) -> (r: u64)
        requires
            self.wf(),
        ensures
            r == self.free_count(),
    {
        self.allocator.free_frames()
    }

    /// Copies `len` bytes out of frame `ppn`, starting at `offset`.
    pub fn load(&self, ppn: PhysPageNum, offset: usize, len: usize) -> (r: Vec<u8>)
        requires
            self.wf(),
            self.contains(ppn.0 as int),
            offset + len <= PAGE_SIZE,
        ensures
            r@ == self.frame(ppn.0 as int).subrange(offset as int, offset + len),
    {
        let base: usize = self.frame_base(ppn) + offset;
        let s = slice_subrange(self.bytes.as_slice(), base, base + len);
        let r = vstd::slice::slice_to_vec(s);
        assert(r@ =~= self.frame(ppn.0 as int).subrange(offset as int, offset + len));
        r
    }

    /// Reads the `idx`-th 64-bit word of frame `ppn`.
    pub fn read_word(&self, ppn: PhysPageNum, idx: usize) -> (r: u64)
        requires
            self.wf(),
            self.contains(ppn.0 as int),
            idx < 512,
        ensures
            r == self.word(ppn.0 as int, idx as int),
    {
        let base: usize = self.frame_base(ppn) + 8 * idx;
        let s = slice_subrange(self.bytes.as_slice(), base, base + 8);
        assert(s@ =~= self.frame(ppn.0 as int).subrange(8 * idx, 8 * idx + 8));
        u64_from_le_bytes(s)
    }

    /// Overwrites the bytes of frame `ppn` from `offset` on with `data`.
    pub fn store(&mut self, ppn: PhysPageNum, offset: usize, data: &[u8])
        requires
            old(self).wf(),
            old(self).contains(ppn.0 as int),
            offset + data@.len() <= PAGE_SIZE,
        ensures
            final(self).wf(),
            final(self).allocation() == old(self).allocation(),
            final(self).frame(ppn.0 as int) == old(self).frame(ppn.0 as int).subrange(
                0,
                offset as int,
            ) + data@ + old(self).frame(ppn.0 as int).subrange(
                offset + data@.len(),
                PAGE_SIZE as int,
            ),
            forall|q: int| q != ppn.0 ==> #[trigger] final(self).frame(q) == old(self).frame(q),
    {
        let base: usize = self.frame_base(ppn) + offset;
        let ghost before = self.bytes@;
        let n: usize = data.len();
        let mut k: usize = 0;
        while k < n
            invariant
                k <= n,
                n == data@.len(),
                self.allocator == old(self).allocator,
                self.bytes@.len() == before.len(),
                base + n <= before.len() <= usize::MAX,
                forall|j: int|
                    0 <= j < before.len() ==> #[trigger] self.bytes@[j] == if base <= j < base + k {
                        data@[j - base]
                    } else {
                        before[j]
                    },
            decreases n - k,
        {
            self.bytes.set(base + k, data[k]);
            k = k + 1;
        }
        proof {
            let p = ppn.0 as int;
            assert(self.frame(p) =~= old(self).frame(p).subrange(0, offset as int) + data@ + old(
                self,
            ).frame(p).subrange(offset + data@.len(), PAGE_SIZE as int));
            assert forall|q: int| q != p implies #[trigger] self.frame(q) == old(self).frame(q) by {
                assert(self.frame(q) =~= old(self).frame(q));
            }
        }
    }

    /// Overwrites the `idx`-th 64-bit word of frame `ppn`.
    pub fn write_word(&mut self, ppn: PhysPageNum, idx: usize, value: u64)
        requires
            old(self).wf(),
            old(self).contains(ppn.0 as int),
            idx < 512,
        ensures
            final(self).wf(),
            final(self).allocation() == old(self).allocation(),
            final(self).word(ppn.0 as int, idx as int) == value,
            forall|j: int|
                0 <= j < 512 && j != idx ==> #[trigger] final(self).word(ppn.0 as int, j) == old(
                    self,
                ).word(ppn.0 as int, j),
            forall|q: int| q != ppn.0 ==> #[trigger] final(self).frame(q) == old(self).frame(q),
    {
        let le = u64_to_le_bytes(value);
        self.store(ppn, 8 * idx, le.as_slice());
        proof {
            let p = ppn.0 as int;
            lemma_auto_spec_u64_to_from_le_bytes();
            old(self).lemma_frame_len(p);
            assert(self.frame(p).subrange(8 * idx, 8 * idx + 8) =~= le@);
            assert forall|j: int| 0 <= j < 512 && j != idx implies #[trigger] self.word(p, j) == old(
                self,
            ).word(p, j) by {
                assert(self.frame(p).subrange(8 * j, 8 * j + 8) =~= old(self).frame(p).subrange(
                    8 * j,
                    8 * j + 8,
                ));
            }
        }
    }

    /// Hands out a free frame filled with zero bytes, or nothing when no
    /// frame is left.
    pub fn frame_alloc(&mut self) -> (r: Option<FrameTracker>)
        requires
            old(self).wf(),
        ensures
            final(self).wf(),
            final(self).first_frame() == old(self).first_frame(),
            final(self).end_frame() == old(self).end_frame(),
            r is Some <==> old(self).free_count() > 0,
            r is None ==> final(self).allocation() == old(self).allocation(),
            r is None ==> forall|q: int| #[trigger] final(self).frame(q) == old(self).frame(q),
            r matches Some(t) ==> {
                &&& t.ppn.0 == old(self).allocation().next_frame()
                &&& old(self).contains(t.ppn.0 as int)
                &&& !old(self).allocated().contains(t.ppn.0 as int)
                &&& final(self).allocated() == old(self).allocated().insert(t.ppn.0 as int)
                &&& final(self).free_count() == old(self).free_count() - 1
                &&& final(self).frame(t.ppn.0 as int) == zero_frame()
                &&& forall|q: int|
                    q != t.ppn.0 ==> #[trigger] final(self).frame(q) == old(self).frame(q)
            },
    {
        match self.allocator.allocate() {
            None => None,
            Some(ppn) => {
                let zeros: Vec<u8> = vec![0u8; 4096];
                self.store(ppn, 0, zeros.as_slice());
                proof {
                    assert(self.frame(ppn.0 as int) =~= zero_frame());
                }
                Some(FrameTracker { ppn })
            },
        }
    }

    /// Takes back a frame that was handed out. Its contents stay as they are
    /// until it is handed out again.
    pub fn frame_dealloc(&mut self, frame: FrameTracker)
        requires
            old(self).wf(),
            old(self).allocated().contains(frame.ppn.0 as int),
        ensures
            final(self).wf(),
            final(self).first_frame() == old(self).first_frame(),
            final(self).end_frame() == old(self).end_frame(),
            final(self).allocated() == old(self).allocated().remove(frame.ppn.0 as int),
            final(self).free_count() == old(self).free_count() + 1,
            forall|q: int| #[trigger] final(self).frame(q) == old(self).frame(q),
    {
        self.allocator.dealloc(frame.ppn);
    }
}

/// Every word of a zeroed frame is zero.
pub proof fn lemma_zero_frame_word(i: int)
    requires
        0 <= i < 512,
    ensures
        spec_u64_from_le_bytes(zero_frame().subrange(8 * i, 8 * i + 8)) == 0,
{
    lemma_auto_spec_u64_to_from_le_bytes();
    spec_u64_to_le_bytes_to_open(0u64);
    assert(0u64 & 0xff == 0 && (0u64 >> 8) & 0xff == 0 && (0u64 >> 16) & 0xff == 0 && (0u64 >> 24)
        & 0xff == 0 && (0u64 >> 32) & 0xff == 0 && (0u64 >> 40) & 0xff == 0 && (0u64 >> 48) & 0xff
        == 0 && (0u64 >> 56) & 0xff == 0) by (bit_vector);
    assert(zero_frame().subrange(8 * i, 8 * i + 8) =~= spec_u64_to_le_bytes(0u64));
}

/// A sequence of distinct numbers drawn from `lo..hi` has at most `hi - lo` elements.
proof fn lemma_distinct_in_range_len(s: Seq<u64>, lo: int, hi: int)
    requires
        lo <= hi,
        s.no_duplicates(),
        forall|i: int| 0 <= i < s.len() ==> lo <= #[trigger] s[i] < hi,
    ensures
        s.len() <= hi - lo,
{
    let ints = s.map_values(|x: u64| x as int);
    assert forall|i: int, j: int| 0 <= i < ints.len() && 0 <= j < ints.len() && i != j implies ints[i]
        != ints[j] by {
        assert(s[i] != s[j]);
    }
    ints.unique_seq_to_set();
    let range = vstd::set_lib::set_int_range(lo, hi);
    vstd::set_lib::lemma_int_range(lo, hi);
    assert forall|x: int| ints.to_set().contains(x) implies range.contains(x) by {
        let i = choose|i: int| 0 <= i < ints.len() && ints[i] == x;
        assert(lo <= s[i] < hi);
    }
    vstd::set_lib::lemma_len_subset(ints.to_set(), range);
}

} // verus!
