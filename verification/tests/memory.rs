use os4::config::{kernel_stack_position, PAGE_SIZE, TRAMPOLINE, TRAP_CONTEXT};
use os4::mm::address::{PhysAddr, PhysPageNum, VirtAddr, VirtPageNum};
use os4::mm::frame_allocator::{FrameArena, OutOfFrames, StackFrameAllocator};
use os4::mm::memory_set::{MapPermission, MapType, MemorySet, VpnRange, PERM_R, PERM_U, PERM_W};
use os4::mm::page_table::{
    PTEFlags, PageTable, PageTableEntry, PTE_R, PTE_U, PTE_V, PTE_W, PTE_X,
};

fn arena(frames: u64) -> FrameArena {
    FrameArena::new(PhysPageNum(0x80210), PhysPageNum(0x80210 + frames))
}

#[test]
fn address_floor_ceil_offset() {
    assert_eq!(VirtAddr(0x1234).floor(), VirtPageNum(1));
    assert_eq!(VirtAddr(0x1234).ceil(), VirtPageNum(2));
    assert_eq!(VirtAddr(0x2000).floor(), VirtPageNum(2));
    assert_eq!(VirtAddr(0x2000).ceil(), VirtPageNum(2));
    assert_eq!(VirtAddr(0).ceil(), VirtPageNum(0));
    assert_eq!(VirtAddr(0x1234).page_offset(), 0x234);
    assert!(VirtAddr(0x3000).aligned());
    assert!(!VirtAddr(0x3001).aligned());
    assert_eq!(PhysAddr(0x8021_0001).ceil(), PhysPageNum(0x80211));
    assert_eq!(PhysAddr(0x8021_0fff).floor(), PhysPageNum(0x80210));
    assert_eq!(PhysPageNum(0x80210).addr(), PhysAddr(0x8021_0000));
    assert_eq!(VirtAddr(u64::MAX).ceil(), VirtPageNum(0x10_0000_0000_0000));
}

#[test]
fn page_number_splits_into_three_indices() {
    let vpn = VirtPageNum((3 << 18) | (7 << 9) | 11);
    assert_eq!(vpn.indexes(), [3, 7, 11]);
    assert_eq!(VirtPageNum(TRAMPOLINE / PAGE_SIZE).indexes(), [511, 511, 511]);
    assert_eq!(VirtPageNum(TRAP_CONTEXT / PAGE_SIZE).indexes(), [511, 511, 510]);
}

#[test]
fn kernel_stacks_lie_below_the_trampoline() {
    assert_eq!(kernel_stack_position(0), (TRAMPOLINE - 0x2000, TRAMPOLINE));
    assert_eq!(kernel_stack_position(1), (TRAMPOLINE - 0x5000, TRAMPOLINE - 0x3000));
    assert_eq!(kernel_stack_position(2), (TRAMPOLINE - 0x8000, TRAMPOLINE - 0x6000));
}

#[test]
fn allocator_hands_out_in_order_and_reuses_last_freed() {
    let mut alloc = StackFrameAllocator::new(PhysPageNum(10), PhysPageNum(13));
    assert_eq!(alloc.free_frames(), 3);
    assert_eq!(alloc.allocate(), Some(PhysPageNum(10)));
    assert_eq!(alloc.allocate(), Some(PhysPageNum(11)));
    alloc.dealloc(PhysPageNum(10));
    assert_eq!(alloc.free_frames(), 2);
    assert_eq!(alloc.allocate(), Some(PhysPageNum(10)));
    assert_eq!(alloc.allocate(), Some(PhysPageNum(12)));
    assert_eq!(alloc.allocate(), None);
    assert_eq!(alloc.free_frames(), 0);
}

#[test]
fn frames_come_zeroed_even_after_reuse() {
    let mut a = arena(2);
    let f = a.frame_alloc().unwrap();
    let ppn = f.ppn;
    assert_eq!(a.load(ppn, 0, 4096), vec![0u8; 4096]);
    a.store(ppn, 100, &[1, 2, 3]);
    assert_eq!(a.load(ppn, 99, 5), vec![0, 1, 2, 3, 0]);
    a.frame_dealloc(f);
    let g = a.frame_alloc().unwrap();
    assert_eq!(g.ppn, ppn);
    assert_eq!(a.load(ppn, 0, 4096), vec![0u8; 4096]);
}

#[test]
fn words_are_little_endian() {
    let mut a = arena(1);
    let f = a.frame_alloc().unwrap();
    a.write_word(f.ppn, 3, 0x0102_0304_0506_0708);
    assert_eq!(a.read_word(f.ppn, 3), 0x0102_0304_0506_0708);
    assert_eq!(a.load(f.ppn, 24, 8), vec![8, 7, 6, 5, 4, 3, 2, 1]);
    assert_eq!(a.read_word(f.ppn, 2), 0);
    assert_eq!(a.read_word(f.ppn, 4), 0);
    assert!(a.has_frame(f.ppn));
    assert!(!a.has_frame(PhysPageNum(0x80211)));
}

#[test]
fn entry_holds_page_number_and_flags() {
    let e = PageTableEntry::new(PhysPageNum(0x12345), PTEFlags { bits: PTE_V | PTE_R | PTE_U });
    assert_eq!(e.bits, (0x12345 << 10) | 0x13);
    assert_eq!(e.ppn(), PhysPageNum(0x12345));
    assert_eq!(e.flags(), PTEFlags { bits: 0x13 });
    assert!(e.is_valid() && e.readable() && e.user());
    assert!(!e.writable() && !e.executable());
    assert!(!PageTableEntry::empty().is_valid());
    assert!(PTEFlags { bits: 0x13 }.contains(PTE_R | PTE_U));
    assert!(!PTEFlags { bits: 0x13 }.contains(PTE_W));
    assert_eq!(PTEFlags::empty().with(PTE_X).bits, PTE_X);
}

#[test]
fn translate_after_map_gives_the_entry() {
    let mut a = arena(8);
    let mut pt = PageTable::new(&mut a).unwrap();
    let vpn = VirtPageNum(0x1234);
    assert_eq!(pt.translate(&a, vpn), None);
    assert_eq!(pt.map(&mut a, vpn, PhysPageNum(77), PTEFlags { bits: PTE_R | PTE_W }), Ok(()));
    let e = pt.translate(&a, vpn).unwrap();
    assert_eq!(e.ppn(), PhysPageNum(77));
    assert_eq!(e.flags(), PTEFlags { bits: PTE_R | PTE_W | PTE_V });
    assert_eq!(pt.translate(&a, VirtPageNum(0x1235)), None);
    // the root and two tables below it
    assert_eq!(a.free_frames(), 5);
    // a page in the same last-level table needs no new table
    assert_eq!(pt.map(&mut a, VirtPageNum(0x1235), PhysPageNum(78), PTEFlags { bits: PTE_R }), Ok(()));
    assert_eq!(a.free_frames(), 5);
}

#[test]
fn translate_after_unmap_gives_nothing() {
    let mut a = arena(8);
    let mut pt = PageTable::new(&mut a).unwrap();
    let vpn = VirtPageNum(0x40_0001);
    pt.map(&mut a, vpn, PhysPageNum(5), PTEFlags { bits: PTE_X }).unwrap();
    pt.map(&mut a, VirtPageNum(0x40_0002), PhysPageNum(6), PTEFlags { bits: PTE_X }).unwrap();
    pt.unmap(&mut a, vpn);
    assert_eq!(pt.translate(&a, vpn), None);
    assert_eq!(pt.translate(&a, VirtPageNum(0x40_0002)).unwrap().ppn(), PhysPageNum(6));
    // the page can be mapped again
    assert_eq!(pt.map(&mut a, vpn, PhysPageNum(9), PTEFlags { bits: PTE_R }), Ok(()));
    assert_eq!(pt.translate(&a, vpn).unwrap().ppn(), PhysPageNum(9));
}

#[test]
fn page_numbers_that_agree_on_27_bits_share_an_entry() {
    let mut a = arena(8);
    let mut pt = PageTable::new(&mut a).unwrap();
    pt.map(&mut a, VirtPageNum(0x1234), PhysPageNum(77), PTEFlags { bits: PTE_R }).unwrap();
    let alias = VirtPageNum(0x1234 + 0x800_0000);
    assert_eq!(pt.translate(&a, alias), pt.translate(&a, VirtPageNum(0x1234)));
    assert!(pt.translate(&a, alias).is_some());
}

#[test]
fn map_fails_when_no_frame_is_left_for_a_table() {
    let mut a = arena(2);
    let mut pt = PageTable::new(&mut a).unwrap();
    assert_eq!(
        pt.map(&mut a, VirtPageNum(1), PhysPageNum(1), PTEFlags { bits: PTE_R }),
        Err(OutOfFrames)
    );
    assert_eq!(a.free_frames(), 0);
    assert_eq!(pt.translate(&a, VirtPageNum(1)), None);
    let mut empty = arena(0);
    assert!(PageTable::new(&mut empty).is_none());
}

#[test]
fn token_names_the_root() {
    let mut a = arena(8);
    let mut pt = PageTable::new(&mut a).unwrap();
    pt.map(&mut a, VirtPageNum(3), PhysPageNum(4), PTEFlags { bits: PTE_R }).unwrap();
    assert_eq!(pt.satp(), (8u64 << 60) | 0x80210);
    assert_eq!(pt.root_ppn(), PhysPageNum(0x80210));
    let view = PageTable::from_satp(pt.satp());
    assert_eq!(view.root_ppn(), PhysPageNum(0x80210));
    assert_eq!(view.translate(&a, VirtPageNum(3)), pt.translate(&a, VirtPageNum(3)));
    // a token that names no frame of the arena translates nothing
    assert_eq!(PageTable::from_satp(7).translate(&a, VirtPageNum(3)), None);
}

#[test]
fn range_intersection_is_later_start_and_earlier_end() {
    let r = VpnRange { start: VirtPageNum(4), end: VirtPageNum(9) };
    let s = VpnRange { start: VirtPageNum(7), end: VirtPageNum(12) };
    assert_eq!(r.intersection(&s), VpnRange { start: VirtPageNum(7), end: VirtPageNum(9) });
    assert_eq!(r.len(), 5);
    assert!(!r.is_empty());
    let t = VpnRange { start: VirtPageNum(9), end: VirtPageNum(12) };
    assert!(r.intersection(&t).is_empty());
    assert_eq!(r.intersection(&t).len(), 0);
}

#[test]
fn framed_area_maps_fresh_zeroed_frames() {
    let mut a = arena(16);
    let mut ms = MemorySet::new_bare(&mut a).unwrap();
    let perm = MapPermission { bits: PERM_R | PERM_W | PERM_U };
    assert_eq!(ms.insert_framed_area(&mut a, VirtAddr(0x1_0000), VirtAddr(0x1_2001), perm), Ok(()));
    assert_eq!(ms.area_count(), 1);
    assert_eq!(ms.area_range(0), VpnRange { start: VirtPageNum(0x10), end: VirtPageNum(0x13) });
    assert_eq!(ms.area(0).map_type, MapType::Framed);
    assert_eq!(ms.area(0).data_frames.len(), 3);
    for i in 0..3u64 {
        let e = ms.translate(&a, VirtPageNum(0x10 + i)).unwrap();
        assert_eq!(e.flags(), PTEFlags { bits: PERM_R | PERM_W | PERM_U | PTE_V });
        assert_eq!(e.ppn(), ms.area(0).data_frames[i as usize].ppn);
        assert!(ms.has_data_frame(e.ppn()));
        assert_eq!(a.load(e.ppn(), 0, 4096), vec![0u8; 4096]);
    }
    assert_eq!(ms.translate(&a, VirtPageNum(0x13)), None);
    assert!(!ms.is_clear(&a, &VpnRange { start: VirtPageNum(0x12), end: VirtPageNum(0x20) }));
    assert!(ms.is_clear(&a, &VpnRange { start: VirtPageNum(0x13), end: VirtPageNum(0x20) }));
    // root, two tables, three frames
    assert_eq!(a.free_frames(), 10);
}

#[test]
fn removing_an_area_unmaps_it_and_frees_its_frames() {
    let mut a = arena(16);
    let mut ms = MemorySet::new_bare(&mut a).unwrap();
    let perm = MapPermission { bits: PERM_R | PERM_U };
    ms.insert_framed_area(&mut a, VirtAddr(0x1_0000), VirtAddr(0x1_2000), perm).unwrap();
    ms.insert_framed_area(&mut a, VirtAddr(0x2_0000), VirtAddr(0x2_1000), perm).unwrap();
    let free = a.free_frames();
    ms.remove_area(&mut a, 0);
    assert_eq!(ms.area_count(), 1);
    assert_eq!(ms.area_range(0).start, VirtPageNum(0x20));
    assert_eq!(ms.translate(&a, VirtPageNum(0x10)), None);
    assert_eq!(ms.translate(&a, VirtPageNum(0x11)), None);
    assert!(ms.translate(&a, VirtPageNum(0x20)).is_some());
    assert_eq!(a.free_frames(), free + 2);
}

#[test]
fn insert_fails_when_the_arena_runs_dry() {
    let mut a = arena(4);
    let mut ms = MemorySet::new_bare(&mut a).unwrap();
    let perm = MapPermission { bits: PERM_R };
    assert_eq!(
        ms.insert_framed_area(&mut a, VirtAddr(0), VirtAddr(0x4000), perm),
        Err(OutOfFrames)
    );
    assert_eq!(a.free_frames(), 0);
}

#[test]
fn trampoline_is_mapped_but_belongs_to_no_area() {
    let mut a = arena(8);
    let mut ms = MemorySet::new_bare(&mut a).unwrap();
    assert_eq!(ms.map_trampoline(&mut a, PhysPageNum(0x80201)), Ok(()));
    let e = ms.translate(&a, VirtAddr(TRAMPOLINE).floor()).unwrap();
    assert_eq!(e.ppn(), PhysPageNum(0x80201));
    assert_eq!(e.flags(), PTEFlags { bits: PTE_R | PTE_X | PTE_V });
    assert_eq!(ms.area_count(), 0);
    assert!(!ms.has_data_frame(PhysPageNum(0x80201)));
    assert_eq!(ms.satp(), (8u64 << 60) | 0x80210);
}

#[test]
fn mapping_takes_a_frame_for_each_page_and_two_for_a_table() {
    let perm = MapPermission { bits: PERM_R | PERM_U };
    // the root, three pages, and the two tables that lead to their entries
    let mut a = arena(6);
    let mut ms = MemorySet::new_bare(&mut a).unwrap();
    assert_eq!(ms.insert_framed_area(&mut a, VirtAddr(0x1_0000), VirtAddr(0x1_3000), perm), Ok(()));
    assert_eq!(a.free_frames(), 0);
    let mut b = arena(5);
    let mut ms = MemorySet::new_bare(&mut b).unwrap();
    assert_eq!(
        ms.insert_framed_area(&mut b, VirtAddr(0x1_0000), VirtAddr(0x1_3000), perm),
        Err(OutOfFrames)
    );
    // pages 511 and 512 have their entries in two tables
    let mut c = arena(7);
    let mut ms = MemorySet::new_bare(&mut c).unwrap();
    assert_eq!(
        ms.insert_framed_area(&mut c, VirtAddr(0x1f_f000), VirtAddr(0x20_1000), perm),
        Ok(())
    );
    assert_eq!(c.free_frames(), 1);
    // mapping pages to themselves takes frames for the tables only
    let mut d = arena(3);
    let mut ms = MemorySet::new_bare(&mut d).unwrap();
    let range = VpnRange { start: VirtPageNum(0x80200), end: VirtPageNum(0x80300) };
    assert_eq!(ms.push(&mut d, range, MapType::Identical, MapPermission { bits: PERM_R }), Ok(()));
    assert_eq!(d.free_frames(), 0);
    assert_eq!(ms.translate(&d, VirtPageNum(0x802ff)).unwrap().ppn(), PhysPageNum(0x802ff));
}
