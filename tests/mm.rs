use os_mm::{init, mmap, munmap, translated_str};
use os_mm::{KernelLayout, MapPermission, MapType, MemorySet, PageTable, PageTableEntry, PhysMemory};
use os_mm::{PTEFlags, PhysAddr, PhysPageNum, StackFrameAllocator, VPNRange, VirtAddr, VirtPageNum};
use os_mm::{MAP_R, MAP_W, PTE_R, PTE_V, PTE_W, PTE_X, TRAMPOLINE_VPN, ProgramSegment};

fn pool(l: u64, r: u64) -> StackFrameAllocator {
    StackFrameAllocator::new(PhysPageNum(l), PhysPageNum(r))
}

#[test]
fn allocator_never_issues_an_outstanding_frame_twice() {
    let mut a = pool(0x80, 0x88);
    let f1 = a.frame_alloc().unwrap();
    let f2 = a.frame_alloc().unwrap();
    let f3 = a.frame_alloc().unwrap();
    assert_eq!(f1.ppn.0, 0x80);
    assert_eq!(f2.ppn.0, 0x81);
    assert_eq!(f3.ppn.0, 0x82);
    assert_eq!(a.free_frames(), 5);
    a.frame_dealloc(f2);
    assert_eq!(a.free_frames(), 6);
    let f4 = a.frame_alloc().unwrap();
    assert_eq!(f4.ppn.0, 0x81);
    let f5 = a.frame_alloc().unwrap();
    assert_eq!(f5.ppn.0, 0x83);
    assert_ne!(f5.ppn.0, f1.ppn.0);
    assert_ne!(f5.ppn.0, f3.ppn.0);
}

#[test]
fn allocator_reports_exhaustion() {
    let mut a = pool(10, 12);
    assert!(a.frame_alloc().is_some());
    let f = a.frame_alloc().unwrap();
    assert!(a.frame_alloc().is_none());
    assert_eq!(a.free_frames(), 0);
    a.frame_dealloc(f);
    assert_eq!(a.frame_alloc().unwrap().ppn.0, 11);
}

#[test]
fn floor_scales_back_to_address_without_offset() {
    let va = VirtAddr(0x12345);
    assert_eq!(va.floor().0, 0x12);
    assert_eq!(va.ceil().0, 0x13);
    assert_eq!(va.page_offset(), 0x345);
    assert_eq!(va.floor().addr().0, 0x12345 - 0x12345 % 4096);
    assert_eq!(VirtAddr(0x2000).ceil().0, 2);
    assert_eq!(VirtAddr(0).ceil().0, 0);
    assert!(VirtAddr(0x2000).aligned());
    let pa = PhysAddr(0x8020_0abc);
    assert_eq!(pa.floor().0 * 4096, 0x8020_0000);
    assert_eq!(pa.ceil().0, 0x80201);
}

#[test]
fn addresses_keep_their_width() {
    assert_eq!(VirtAddr::new(0xffff_ffff_ffff_f000).0, 0x7f_ffff_f000);
    assert_eq!(VirtPageNum::new(0xffff_ffff).0, 0x7ff_ffff);
    assert_eq!(PhysPageNum::new(0x1_0000_0000_0001).0, 1);
    assert_eq!(PhysAddr::new(0x0100_0000_0000_0010).0, 0x10);
}

#[test]
fn vpn_indexes_split_into_three_levels() {
    let vpn = VirtPageNum((3 << 18) | (5 << 9) | 7);
    assert_eq!(vpn.indexes(), [3, 5, 7]);
    assert_eq!(VirtPageNum(TRAMPOLINE_VPN).indexes(), [511, 511, 511]);
}

#[test]
fn vpn_range_walks_one_page_at_a_time() {
    let r = VPNRange::new(VirtPageNum(4), VirtPageNum(7));
    let pages: Vec<u64> = r.to_vec().iter().map(|v| v.0).collect();
    assert_eq!(pages, vec![4, 5, 6]);
    assert_eq!(r.len(), 3);
    assert!(r.contains(VirtPageNum(6)));
    assert!(!r.contains(VirtPageNum(7)));
    assert_eq!(VPNRange::new(VirtPageNum(2), VirtPageNum(2)).to_vec().len(), 0);
}

#[test]
fn page_table_entry_packs_ppn_and_flags() {
    let e = PageTableEntry::new(PhysPageNum(0x80123), PTEFlags::from_bits(PTE_V | PTE_R | PTE_W));
    assert_eq!(e.bits, (0x80123 << 10) | 0b111);
    assert_eq!(e.ppn().0, 0x80123);
    assert_eq!(e.flags().bits, 0b111);
    assert!(e.is_valid() && e.readable() && e.writable() && !e.executable());
    assert!(!PageTableEntry::empty().is_valid());
    assert!(PTEFlags::from_bits(0b1111).contains(PTEFlags::from_bits(PTE_X)));
}

#[test]
fn map_unmap_map_again_keeps_only_second_mapping() {
    let mut a = pool(0x100, 0x110);
    let mut pt = PageTable::new(&mut a).unwrap();
    assert_eq!(pt.token(), 0x8000_0000_0000_0000 | 0x100);
    let vpn = VirtPageNum(0x12345);
    assert!(pt.map(vpn, PhysPageNum(0x200), PTEFlags::from_bits(PTE_R), &mut a));
    let e = pt.translate(vpn).unwrap();
    assert_eq!(e.ppn().0, 0x200);
    assert_eq!(e.flags().bits, PTE_R | PTE_V);
    let free_after_first = a.free_frames();
    assert_eq!(free_after_first, 16 - 3);
    pt.unmap(vpn);
    assert!(pt.translate(vpn).is_none());
    assert!(pt.map(vpn, PhysPageNum(0x300), PTEFlags::from_bits(PTE_R | PTE_W | PTE_X), &mut a));
    let e = pt.translate(vpn).unwrap();
    assert_eq!(e.ppn().0, 0x300);
    assert_eq!(e.flags().bits, PTE_R | PTE_W | PTE_X | PTE_V);
    assert_eq!(a.free_frames(), free_after_first);
    assert_eq!(pt.translate_va(VirtAddr(0x12345 * 4096 + 0x10)).unwrap().0, 0x300 * 4096 + 0x10);
    pt.release(&mut a);
    assert_eq!(a.free_frames(), 16);
}

#[test]
fn map_fails_without_frames_for_nodes() {
    let mut a = pool(0x100, 0x102);
    let mut pt = PageTable::new(&mut a).unwrap();
    assert!(!pt.map(VirtPageNum(1), PhysPageNum(5), PTEFlags::from_bits(PTE_R), &mut a));
    assert!(pt.translate(VirtPageNum(1)).is_none());
}

#[test]
fn adjacent_ranges_do_not_conflict() {
    let mut a = pool(0x100, 0x140);
    let mut ms = MemorySet::new_bare(&mut a).unwrap();
    assert_eq!(mmap(&mut ms, &mut a, VirtAddr(0x1000), VirtAddr(0x2000), 0b001), 0);
    assert!(!ms.has_conflict_with_range(VirtAddr(0x2000), VirtAddr(0x3000)));
    assert!(!ms.has_conflict_with_range(VirtAddr(0x0), VirtAddr(0x1000)));
    assert!(ms.has_conflict_with_range(VirtAddr(0x1fff), VirtAddr(0x3000)));
    assert!(ms.has_conflict_with_range(VirtAddr(0x0), VirtAddr(0x1001)));
    assert!(ms.has_conflict_with_range(VirtAddr(0x1800), VirtAddr(0x1800)));
    assert!(!ms.has_conflict_with_range(VirtAddr(0x1000), VirtAddr(0x1000)));
    assert_eq!(mmap(&mut ms, &mut a, VirtAddr(0x2000), VirtAddr(0x3000), 0b011), 0);
    assert_eq!(ms.area_count(), 2);
}

#[test]
fn mmap_maps_framed_region_and_rejects_overlap() {
    let mut a = pool(0x100, 0x140);
    let mut ms = MemorySet::new_bare(&mut a).unwrap();
    assert_eq!(mmap(&mut ms, &mut a, VirtAddr(0x10000), VirtAddr(0x11000), 0b011), 0);
    assert_eq!(ms.area_count(), 1);
    let e = ms.translate(VirtPageNum(16)).unwrap();
    assert!(e.is_valid() && e.readable() && e.writable() && !e.executable());
    assert_eq!(e.flags().bits, PTE_V | PTE_R | PTE_W | 16);
    assert!(ms.translate(VirtPageNum(17)).is_none());
    let free = a.free_frames();
    assert_eq!(mmap(&mut ms, &mut a, VirtAddr(0x10800), VirtAddr(0x12000), 0b001), -1);
    assert_eq!(ms.area_count(), 1);
    assert_eq!(a.free_frames(), free);
    assert!(ms.translate(VirtPageNum(17)).is_none());
}

#[test]
fn munmap_unmaps_and_frees_the_frame() {
    let mut a = pool(0x100, 0x140);
    let mut ms = MemorySet::new_bare(&mut a).unwrap();
    assert_eq!(mmap(&mut ms, &mut a, VirtAddr(0x10000), VirtAddr(0x11000), 0b011), 0);
    let data_ppn = ms.translate(VirtPageNum(16)).unwrap().ppn().0;
    let free = a.free_frames();
    assert_eq!(munmap(&mut ms, &mut a, VirtAddr(0x10000), VirtAddr(0x11000)), 0);
    assert!(ms.translate(VirtPageNum(16)).is_none());
    assert_eq!(ms.area_count(), 0);
    assert_eq!(a.free_frames(), free + 1);
    assert_eq!(a.frame_alloc().unwrap().ppn.0, data_ppn);
}

#[test]
fn munmap_of_part_of_a_region_fails_and_keeps_it() {
    let mut a = pool(0x100, 0x140);
    let mut ms = MemorySet::new_bare(&mut a).unwrap();
    assert_eq!(mmap(&mut ms, &mut a, VirtAddr(0x10000), VirtAddr(0x12000), 0b011), 0);
    let free = a.free_frames();
    assert_eq!(munmap(&mut ms, &mut a, VirtAddr(0x10000), VirtAddr(0x11000)), -1);
    assert_eq!(munmap(&mut ms, &mut a, VirtAddr(0x11000), VirtAddr(0x12000)), -1);
    assert_eq!(ms.area_count(), 1);
    assert!(ms.translate(VirtPageNum(16)).is_some());
    assert!(ms.translate(VirtPageNum(17)).is_some());
    assert_eq!(a.free_frames(), free);
}

#[test]
fn mmap_rejects_bad_bounds_and_short_pool() {
    let mut a = pool(0x100, 0x106);
    let mut ms = MemorySet::new_bare(&mut a).unwrap();
    assert_eq!(mmap(&mut ms, &mut a, VirtAddr(0x3000), VirtAddr(0x2000), 0b001), -1);
    assert_eq!(mmap(&mut ms, &mut a, VirtAddr(0x0), VirtAddr(0x80_0000_1000), 0b001), -1);
    // 4 pages and 2 nodes need 6 frames; 5 are left.
    assert_eq!(mmap(&mut ms, &mut a, VirtAddr(0x0), VirtAddr(0x4000), 0b001), -1);
    assert_eq!(ms.area_count(), 0);
    assert_eq!(mmap(&mut ms, &mut a, VirtAddr(0x0), VirtAddr(0x1000), 0b100), 0);
    let e = ms.translate(VirtPageNum(0)).unwrap();
    assert!(e.executable() && !e.readable() && !e.writable());
}

#[test]
fn mmap_ignores_unknown_port_bits() {
    let mut a = pool(0x100, 0x140);
    let mut ms = MemorySet::new_bare(&mut a).unwrap();
    assert_eq!(mmap(&mut ms, &mut a, VirtAddr(0x5000), VirtAddr(0x5001), 0xf8 | 0b101), 0);
    let e = ms.translate(VirtPageNum(5)).unwrap();
    assert_eq!(e.flags().bits, PTE_V | PTE_R | PTE_X | 16);
}

#[test]
fn remove_area_by_start_page() {
    let mut a = pool(0x100, 0x140);
    let mut ms = MemorySet::new_bare(&mut a).unwrap();
    assert_eq!(mmap(&mut ms, &mut a, VirtAddr(0x4000), VirtAddr(0x6000), 0b011), 0);
    assert!(!ms.remove_area_with_start_vpn(VirtPageNum(5), &mut a));
    let free = a.free_frames();
    assert!(ms.remove_area_with_start_vpn(VirtPageNum(4), &mut a));
    assert_eq!(a.free_frames(), free + 2);
    assert!(ms.translate(VirtPageNum(4)).is_none());
    assert!(ms.translate(VirtPageNum(5)).is_none());
}

#[test]
fn insert_framed_area_widens_to_pages() {
    let mut a = pool(0x100, 0x140);
    let mut ms = MemorySet::new_bare(&mut a).unwrap();
    let perm = MapPermission::from_bits_truncate(MAP_R | MAP_W | 1);
    assert_eq!(perm.bits, MAP_R | MAP_W);
    assert!(ms.insert_framed_area(VirtAddr(0x1800), VirtAddr(0x2800), perm, &mut a));
    assert!(ms.translate(VirtPageNum(1)).is_some());
    assert!(ms.translate(VirtPageNum(2)).is_some());
    assert!(ms.translate(VirtPageNum(3)).is_none());
    assert_eq!(ms.unmap_area_exact_range(VirtPageNum(1), VirtPageNum(3), &mut a), 0);
}

#[test]
fn string_read_across_a_page_boundary() {
    let mut a = pool(0x100, 0x140);
    let mut mem = PhysMemory::new(0x100, 0x40);
    let mut ms = MemorySet::new_bare(&mut a).unwrap();
    assert_eq!(mmap(&mut ms, &mut a, VirtAddr(0x10000), VirtAddr(0x12000), 0b011), 0);
    let start = 0x11000 - 1;
    let text = b"hello\0";
    for (i, b) in text.iter().enumerate() {
        let pa = ms.page_table().translate_va(VirtAddr(start + i as u64)).unwrap();
        assert!(mem.write_byte(pa, *b));
    }
    let s = translated_str(ms.page_table(), &mem, VirtAddr(start)).unwrap();
    assert_eq!(s, b"hello".to_vec());
    assert_eq!(mem.read_byte(PhysAddr(0x100 * 4096)), Some(0));
    assert_eq!(mem.read_byte(PhysAddr(0x140 * 4096)), None);
}

#[test]
fn string_read_stops_at_unmapped_page() {
    let mut a = pool(0x100, 0x140);
    let mut mem = PhysMemory::new(0x100, 0x40);
    let mut ms = MemorySet::new_bare(&mut a).unwrap();
    assert_eq!(mmap(&mut ms, &mut a, VirtAddr(0x10000), VirtAddr(0x11000), 0b011), 0);
    let start = 0x11000 - 2;
    for i in 0..2u64 {
        let pa = ms.page_table().translate_va(VirtAddr(start + i)).unwrap();
        assert!(mem.write_byte(pa, b'a'));
    }
    assert!(translated_str(ms.page_table(), &mem, VirtAddr(start)).is_none());
    assert_eq!(translated_str(ms.page_table(), &mem, VirtAddr(0x10000)).unwrap().len(), 0);
}

fn layout() -> KernelLayout {
    KernelLayout {
        stext: 0x8020_0000,
        etext: 0x8020_2000,
        srodata: 0x8020_2000,
        erodata: 0x8020_3000,
        sdata: 0x8020_3000,
        edata: 0x8020_4000,
        sbss: 0x8020_4000,
        ebss: 0x8020_6000,
        ekernel: 0x8020_6000,
        memory_end: 0x8024_0000,
        strampoline: 0x8020_1000,
    }
}

#[test]
fn kernel_space_maps_sections_identically() {
    let (mut a, ks) = init(layout()).unwrap();
    assert_eq!(ks.area_count(), 6);
    let text = ks.translate(VirtPageNum(0x80200)).unwrap();
    assert_eq!(text.ppn().0, 0x80200);
    assert!(text.readable() && text.executable() && !text.writable());
    let ro = ks.translate(VirtPageNum(0x80202)).unwrap();
    assert!(ro.readable() && !ro.writable() && !ro.executable());
    let mem = ks.translate(VirtPageNum(0x8023f)).unwrap();
    assert_eq!(mem.ppn().0, 0x8023f);
    assert!(mem.readable() && mem.writable());
    assert!(ks.translate(VirtPageNum(0x80240)).is_none());
    let tramp = ks.translate(VirtPageNum(TRAMPOLINE_VPN)).unwrap();
    assert_eq!(tramp.ppn().0, 0x80201);
    assert!(tramp.executable() && !tramp.writable());
    assert_eq!(ks.token() >> 60, 8);
    assert!(a.frame_alloc().is_some());
}

#[test]
fn kernel_space_needs_frames_for_its_table() {
    let mut l = layout();
    l.memory_end = l.ekernel;
    assert!(init(l).is_none());
    let mut a = pool(0x100, 0x101);
    assert!(MemorySet::new_kernel(layout(), &mut a).is_none());
    let _ = MapType::Identical;
}

#[test]
fn program_image_gets_segments_guard_and_stack() {
    let mut a = pool(0x100, 0x180);
    let mut mem = PhysMemory::new(0x100, 0x80);
    let segs = vec![
        ProgramSegment { start_va: 0x1000, end_va: 0x2800, perm: 0b1010, data: vec![1, 2, 3] },
        ProgramSegment { start_va: 0x3004, end_va: 0x4000, perm: 0b0110, data: b"xyz".to_vec() },
    ];
    let (ms, sp, entry) = MemorySet::from_segments(&segs, 0x1000, 0x8020_1000, &mut a, &mut mem).unwrap();
    assert_eq!(entry, 0x1000);
    assert_eq!(ms.area_count(), 4);
    assert_eq!(sp, 0x4000 + 0x1000 + 0x2000);
    let code = ms.translate(VirtPageNum(1)).unwrap();
    assert!(code.readable() && code.executable() && !code.writable());
    assert_eq!(code.flags().bits & 16, 16);
    assert!(ms.translate(VirtPageNum(2)).is_some());
    assert!(ms.translate(VirtPageNum(4)).is_none());
    assert!(ms.translate(VirtPageNum(5)).is_some());
    assert!(ms.translate(VirtPageNum(6)).is_some());
    assert!(ms.translate(VirtPageNum(7)).is_none());
    let data = ms.translate(VirtPageNum(3)).unwrap();
    assert!(data.readable() && data.writable() && !data.executable());
    assert_eq!(ms.translate(VirtPageNum(TRAMPOLINE_VPN)).unwrap().ppn().0, 0x80201);
    let got = os_mm::read_user_bytes(ms.page_table(), &mem, VirtAddr(0x1000), 4).unwrap();
    assert_eq!(got, vec![1, 2, 3, 0]);
    let got = os_mm::read_user_bytes(ms.page_table(), &mem, VirtAddr(0x3003), 5).unwrap();
    assert_eq!(got, vec![0, b'x', b'y', b'z', 0]);
}

#[test]
fn program_image_rejects_overlapping_or_overfull_segments() {
    let mut a = pool(0x100, 0x180);
    let mut mem = PhysMemory::new(0x100, 0x80);
    let overlapping = vec![
        ProgramSegment { start_va: 0x1000, end_va: 0x3000, perm: 0b0010, data: vec![] },
        ProgramSegment { start_va: 0x2000, end_va: 0x4000, perm: 0b0010, data: vec![] },
    ];
    assert!(MemorySet::from_segments(&overlapping, 0, 0x8020_1000, &mut a, &mut mem).is_none());
    let overfull = vec![ProgramSegment { start_va: 0x1000, end_va: 0x1002, perm: 0b0010, data: vec![1, 2, 3] }];
    assert!(MemorySet::from_segments(&overfull, 0, 0x8020_1000, &mut a, &mut mem).is_none());
    let (ms, sp, _) = MemorySet::from_segments(&Vec::new(), 0, 0x8020_1000, &mut a, &mut mem).unwrap();
    assert_eq!(ms.area_count(), 2);
    assert_eq!(sp, 0x1000 + 0x2000);
}

#[test]
fn byte_buffer_splits_at_page_boundaries() {
    let mut a = pool(0x100, 0x140);
    let mut ms = MemorySet::new_bare(&mut a).unwrap();
    assert_eq!(mmap(&mut ms, &mut a, VirtAddr(0x10000), VirtAddr(0x13000), 0b011), 0);
    let p16 = ms.translate(VirtPageNum(16)).unwrap().ppn().0;
    let p17 = ms.translate(VirtPageNum(17)).unwrap().ppn().0;
    let p18 = ms.translate(VirtPageNum(18)).unwrap().ppn().0;
    let chunks = os_mm::translated_byte_buffer(ms.page_table(), VirtAddr(0x10ff0), 0x1020).unwrap();
    assert_eq!(chunks, vec![(p16 * 4096 + 0xff0, 0x10), (p17 * 4096, 0x1000), (p18 * 4096, 0x10)]);
    let one = os_mm::translated_byte_buffer(ms.page_table(), VirtAddr(0x10010), 0x20).unwrap();
    assert_eq!(one, vec![(p16 * 4096 + 0x10, 0x20)]);
    assert_eq!(os_mm::translated_byte_buffer(ms.page_table(), VirtAddr(0x10010), 0).unwrap().len(), 0);
    assert!(os_mm::translated_byte_buffer(ms.page_table(), VirtAddr(0x12ff0), 0x20).is_none());
}

#[test]
fn u64_read_across_a_page_boundary() {
    let mut a = pool(0x100, 0x140);
    let mut mem = PhysMemory::new(0x100, 0x40);
    let mut ms = MemorySet::new_bare(&mut a).unwrap();
    assert_eq!(mmap(&mut ms, &mut a, VirtAddr(0x10000), VirtAddr(0x12000), 0b011), 0);
    let start = 0x11000 - 3;
    let value: u64 = 0x1122_3344_5566_7788;
    for (i, b) in value.to_le_bytes().iter().enumerate() {
        let pa = ms.page_table().translate_va(VirtAddr(start + i as u64)).unwrap();
        assert!(mem.write_byte(pa, *b));
    }
    assert_eq!(os_mm::translated_u64(ms.page_table(), &mem, VirtAddr(start)), Some(value));
    assert_eq!(os_mm::translated_u64(ms.page_table(), &mem, VirtAddr(0x12000 - 4)), None);
}

#[test]
fn releasing_a_space_returns_every_frame() {
    let mut a = pool(0x100, 0x140);
    let mut ms = MemorySet::new_bare(&mut a).unwrap();
    assert_eq!(mmap(&mut ms, &mut a, VirtAddr(0x10000), VirtAddr(0x13000), 0b011), 0);
    assert_eq!(mmap(&mut ms, &mut a, VirtAddr(0x4000_0000), VirtAddr(0x4000_1000), 0b001), 0);
    assert!(a.free_frames() < 0x40 - 4);
    ms.release(&mut a);
    assert_eq!(a.free_frames(), 0x40);
}

#[test]
fn failed_program_image_returns_its_frames() {
    let mut a = pool(0x100, 0x180);
    let mut mem = PhysMemory::new(0x100, 0x80);
    let segs = vec![
        ProgramSegment { start_va: 0x1000, end_va: 0x3000, perm: 0b0010, data: vec![7; 16] },
        ProgramSegment { start_va: 0x2000, end_va: 0x4000, perm: 0b0010, data: vec![] },
    ];
    assert!(MemorySet::from_segments(&segs, 0, 0x8020_1000, &mut a, &mut mem).is_none());
    assert_eq!(a.free_frames(), 0x80);
}

#[test]
fn empty_mmap_adds_an_empty_region() {
    let mut a = pool(0x100, 0x110);
    let mut ms = MemorySet::new_bare(&mut a).unwrap();
    let free = a.free_frames();
    assert_eq!(mmap(&mut ms, &mut a, VirtAddr(0x3000), VirtAddr(0x3000), 0b011), 0);
    assert_eq!(ms.area_count(), 1);
    assert_eq!(a.free_frames(), free);
    assert!(ms.translate(VirtPageNum(3)).is_none());
    assert_eq!(munmap(&mut ms, &mut a, VirtAddr(0x3000), VirtAddr(0x3000)), 0);
    assert_eq!(ms.area_count(), 0);
}

#[test]
fn layout_check_matches_kernel_requirements() {
    assert!(os_mm::layout_valid(&layout()));
    let mut l = layout();
    l.etext = 0x8020_2800;
    assert!(!os_mm::layout_valid(&l));
    let mut l = layout();
    l.strampoline = l.etext;
    assert!(!os_mm::layout_valid(&l));
    let mut l = layout();
    l.sdata = l.erodata - 0x1000;
    assert!(!os_mm::layout_valid(&l));
}

#[test]
fn user_buffer_write_then_read_across_pages() {
    let mut a = pool(0x100, 0x140);
    let mut mem = PhysMemory::new(0x100, 0x40);
    let mut ms = MemorySet::new_bare(&mut a).unwrap();
    assert_eq!(mmap(&mut ms, &mut a, VirtAddr(0x10000), VirtAddr(0x12000), 0b011), 0);
    let bytes: Vec<u8> = (0..40u8).collect();
    assert!(os_mm::write_user_bytes(ms.page_table(), &mut mem, VirtAddr(0x11000 - 20), &bytes));
    let back = os_mm::read_user_bytes(ms.page_table(), &mem, VirtAddr(0x11000 - 20), 40).unwrap();
    assert_eq!(back, bytes);
    let p17 = ms.translate(VirtPageNum(17)).unwrap().ppn().0;
    assert_eq!(mem.read_byte(PhysAddr(p17 * 4096)), Some(20));
    let before = os_mm::read_user_bytes(ms.page_table(), &mem, VirtAddr(0x12000 - 4), 4).unwrap();
    assert!(!os_mm::write_user_bytes(ms.page_table(), &mut mem, VirtAddr(0x12000 - 4), &vec![9u8; 8]));
    let after = os_mm::read_user_bytes(ms.page_table(), &mem, VirtAddr(0x12000 - 4), 4).unwrap();
    assert_eq!(before, after);
}

#[test]
fn failed_kernel_space_returns_its_frames() {
    let mut a = pool(0x100, 0x104);
    assert!(MemorySet::new_kernel(layout(), &mut a).is_none());
    assert_eq!(a.free_frames(), 4);
    let mut big = pool(0x100, 0x100 + 1 + 3 * 0x41);
    assert!(MemorySet::new_kernel(layout(), &mut big).is_some());
}

#[test]
fn mmap_goes_by_the_page_range() {
    let mut a = pool(0x100, 0x140);
    let mut ms = MemorySet::new_bare(&mut a).unwrap();
    assert_eq!(mmap(&mut ms, &mut a, VirtAddr(0x10800), VirtAddr(0x10400), 0b001), 0);
    assert_eq!(ms.area_count(), 1);
    assert!(ms.translate(VirtPageNum(16)).is_some());
    assert_eq!(mmap(&mut ms, &mut a, VirtAddr(0x10000), VirtAddr(0x11000), 0b001), -1);
    assert_eq!(mmap(&mut ms, &mut a, VirtAddr(0x12800), VirtAddr(0x11000), 0b001), -1);
}

#[test]
fn remap_after_munmap_needs_only_the_data_frame() {
    let mut a = pool(0x100, 0x104);
    let mut ms = MemorySet::new_bare(&mut a).unwrap();
    assert_eq!(mmap(&mut ms, &mut a, VirtAddr(0x10000), VirtAddr(0x11000), 0b111), 0);
    assert_eq!(a.free_frames(), 0);
    assert_eq!(munmap(&mut ms, &mut a, VirtAddr(0x10000), VirtAddr(0x11000)), 0);
    assert_eq!(a.free_frames(), 1);
    assert_eq!(mmap(&mut ms, &mut a, VirtAddr(0x10000), VirtAddr(0x11000), 0b001), 0);
    let e = ms.translate(VirtPageNum(16)).unwrap();
    assert!(e.readable() && !e.writable() && !e.executable());
    assert_eq!(e.flags().bits, PTE_V | PTE_R | 16);
}

#[test]
fn released_frames_come_back_last_page_first() {
    let mut a = pool(0x100, 0x140);
    let mut ms = MemorySet::new_bare(&mut a).unwrap();
    assert_eq!(mmap(&mut ms, &mut a, VirtAddr(0x10000), VirtAddr(0x13000), 0b011), 0);
    let p16 = ms.translate(VirtPageNum(16)).unwrap().ppn().0;
    let p17 = ms.translate(VirtPageNum(17)).unwrap().ppn().0;
    let p18 = ms.translate(VirtPageNum(18)).unwrap().ppn().0;
    assert!(p16 != p17 && p17 != p18 && p16 != p18);
    assert_eq!(munmap(&mut ms, &mut a, VirtAddr(0x10000), VirtAddr(0x13000)), 0);
    assert_eq!(a.frame_alloc().unwrap().ppn.0, p16);
    assert_eq!(a.frame_alloc().unwrap().ppn.0, p17);
    assert_eq!(a.frame_alloc().unwrap().ppn.0, p18);
}

#[test]
fn kernel_pages_carry_section_permissions_without_user_bit() {
    let (_, ks) = init(layout()).unwrap();
    assert_eq!(ks.translate(VirtPageNum(0x80200)).unwrap().flags().bits, PTE_V | PTE_R | PTE_X);
    assert_eq!(ks.translate(VirtPageNum(0x80202)).unwrap().flags().bits, PTE_V | PTE_R);
    assert_eq!(ks.translate(VirtPageNum(0x80203)).unwrap().flags().bits, PTE_V | PTE_R | PTE_W);
    assert_eq!(ks.translate(VirtPageNum(TRAMPOLINE_VPN)).unwrap().flags().bits, PTE_V | PTE_R | PTE_X);
}

#[test]
fn remap_across_a_leaf_node_boundary_needs_only_data_frames() {
    let mut a = pool(0x100, 0x106);
    let mut ms = MemorySet::new_bare(&mut a).unwrap();
    assert_eq!(a.free_frames(), 5);
    assert_eq!(ms.page_table().nodes_needed_count(VirtPageNum(511), VirtPageNum(513)), 3);
    assert_eq!(mmap(&mut ms, &mut a, VirtAddr(511 * 4096), VirtAddr(513 * 4096), 0b011), 0);
    assert_eq!(a.free_frames(), 0);
    assert_eq!(munmap(&mut ms, &mut a, VirtAddr(511 * 4096), VirtAddr(513 * 4096)), 0);
    assert_eq!(a.free_frames(), 2);
    assert_eq!(ms.page_table().nodes_needed_count(VirtPageNum(511), VirtPageNum(513)), 0);
    assert_eq!(mmap(&mut ms, &mut a, VirtAddr(511 * 4096), VirtAddr(513 * 4096), 0b001), 0);
    let e = ms.translate(VirtPageNum(512)).unwrap();
    assert_eq!(e.flags().bits, PTE_V | PTE_R | 16);
    assert_eq!(a.free_frames(), 0);
}

#[test]
fn node_count_follows_the_indexes_crossed() {
    let mut a = pool(0x100, 0x140);
    let ms = MemorySet::new_bare(&mut a).unwrap();
    let pt = ms.page_table();
    assert_eq!(pt.nodes_needed_count(VirtPageNum(16), VirtPageNum(17)), 2);
    assert_eq!(pt.nodes_needed_count(VirtPageNum(16), VirtPageNum(16)), 0);
    assert_eq!(pt.nodes_needed_count(VirtPageNum(0), VirtPageNum(1025)), 4);
    assert_eq!(pt.nodes_needed_count(VirtPageNum(0x3ffff), VirtPageNum(0x40001)), 4);
}
