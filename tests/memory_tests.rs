use std::collections::HashMap;
use noodle_kernel::frame_alloc::{BitmapFrameAllocator, EmptyFrameAllocator, FrameAllocError, FrameAllocator};
use noodle_kernel::mapper::{MapError, Mapper};
use noodle_kernel::multiboot2::{BootError, BootInfo, MemoryMapEntry, MemoryType, MULTIBOOT2_MAGIC};
use noodle_kernel::paging::{
    Page, PageTable, PageTableEntry, PageTableFlags, PhysAddr, PhysFrame, VirtAddr, HUGE_PAGE,
    PRESENT, USER_ACCESSIBLE, WRITABLE,
};
use noodle_kernel::physical::BitmapAllocator;

fn put_u32(b: &mut Vec<u8>, v: u32) {
    b.extend_from_slice(&v.to_le_bytes());
}

fn put_u64(b: &mut Vec<u8>, v: u64) {
    b.extend_from_slice(&v.to_le_bytes());
}

/// A blob with one unrelated tag, a memory-map tag with `regions` at the
/// given stride, and the End tag.
fn blob_with_stride(regions: &[(u64, u64, u32)], stride: u32) -> Vec<u8> {
    let mut b = Vec::new();
    put_u32(&mut b, 0);
    put_u32(&mut b, 0);
    // A boot-loader-name tag of 13 bytes, padded to 16.
    put_u32(&mut b, 2);
    put_u32(&mut b, 13);
    b.extend_from_slice(b"grub\0");
    b.extend_from_slice(&[0, 0, 0]);
    put_u32(&mut b, 6);
    put_u32(&mut b, 16 + stride * regions.len() as u32);
    put_u32(&mut b, stride);
    put_u32(&mut b, 0);
    for &(base, len, ty) in regions {
        put_u64(&mut b, base);
        put_u64(&mut b, len);
        put_u32(&mut b, ty);
        put_u32(&mut b, 0);
        for _ in 24..stride {
            b.push(0xAA);
        }
    }
    while b.len() % 8 != 0 {
        b.push(0);
    }
    put_u32(&mut b, 0);
    put_u32(&mut b, 8);
    let total = b.len() as u32;
    b[0..4].copy_from_slice(&total.to_le_bytes());
    b
}

fn blob(regions: &[(u64, u64, u32)]) -> Vec<u8> {
    blob_with_stride(regions, 24)
}

fn allocator_over(regions: &[(u64, u64, u32)], kernel_start: usize, kernel_end: usize) -> BitmapAllocator {
    let info = BootInfo::new(0x9000, blob(regions)).unwrap();
    let mut a = BitmapAllocator::new();
    a.init(&info, kernel_start, kernel_end);
    a
}

#[test]
fn memory_map_entries_in_order() {
    let info = BootInfo::new(0x9000, blob(&[(0, 0x9F000, 1), (0x9F000, 0x1000, 2), (0x100000, 0x700000, 1)])).unwrap();
    let mut it = info.memory_map().unwrap();
    let e = it.next().unwrap();
    assert_eq!((e.base_addr, e.length, e.mem_type), (0, 0x9F000, 1));
    let e = it.next().unwrap();
    assert_eq!((e.base_addr, e.length, e.mem_type), (0x9F000, 0x1000, 2));
    let e = it.next().unwrap();
    assert_eq!((e.base_addr, e.length, e.mem_type), (0x100000, 0x700000, 1));
    assert!(it.next().is_none());
    assert!(it.next().is_none());
}

#[test]
fn memory_map_wider_stride() {
    let info = BootInfo::new(0x9000, blob_with_stride(&[(0x1000, 0x2000, 1), (0x5000, 0x1000, 3)], 32)).unwrap();
    let v = info.memory_map().unwrap().to_vec();
    assert_eq!(v.len(), 2);
    assert_eq!(v[1], MemoryMapEntry { base_addr: 0x5000, length: 0x1000, mem_type: 3, reserved: 0 });
}

#[test]
fn memory_map_short_stride_rejected() {
    let info = BootInfo::new(0x9000, blob_with_stride(&[(0x1000, 0x2000, 1)], 16)).unwrap();
    assert!(info.memory_map().is_none());
}

#[test]
fn memory_map_missing() {
    let mut b = Vec::new();
    put_u32(&mut b, 16);
    put_u32(&mut b, 0);
    put_u32(&mut b, 0);
    put_u32(&mut b, 8);
    let info = BootInfo::new(0x9000, b).unwrap();
    assert_eq!(info.total_size(), 16);
    assert!(info.memory_map().is_none());
}

#[test]
fn memory_map_tag_past_total_size() {
    let mut b = blob(&[(0, 0x1000, 1)]);
    // Declare a size that ends inside the memory-map tag.
    b[0..4].copy_from_slice(&30u32.to_le_bytes());
    let info = BootInfo::new(0x9000, b).unwrap();
    assert!(info.memory_map().is_none());
}

#[test]
fn open_checks_magic_and_address() {
    assert_eq!(BootInfo::open(0x9000, 0x1234, blob(&[])).err(), Some(BootError::InvalidMagic));
    assert_eq!(BootInfo::open(0, MULTIBOOT2_MAGIC, blob(&[])).err(), Some(BootError::NullAddress));
    assert!(BootInfo::open(0x9000, MULTIBOOT2_MAGIC, blob(&[])).is_ok());
    assert!(BootInfo::new(0, blob(&[])).is_none());
}

#[test]
fn memory_type_codes() {
    assert_eq!(MemoryType::from_u32(1), Some(MemoryType::Available));
    assert_eq!(MemoryType::from_u32(5), Some(MemoryType::BadRam));
    assert_eq!(MemoryType::from_u32(9), None);
    assert_eq!(MemoryType::AcpiReclaimable.as_str(), "ACPI Reclaimable");
    assert_eq!(MemoryType::BadRam.as_str(), "Bad RAM");
}

#[test]
fn allocator_linearity() {
    let mut a = allocator_over(&[(0x100000, 0x100000, 1)], 0x100000, 0x110000);
    assert_eq!(a.total_frames(), 0x200);
    // Frames 0x100..0x200 are available; the kernel takes 16 and the
    // 64-byte bitmap one more.
    assert_eq!(a.get_free_frames(), 256 - 16 - 1);
    assert!(a.get_free_frames() >= 0x10000 / 4096 - 1);
    let f1 = a.allocate_frame().unwrap();
    let f2 = a.allocate_frame().unwrap();
    assert_eq!(f1, 0x111000);
    assert!(f2 > f1);
    assert_eq!(f2, 0x112000);
    assert_eq!(a.get_free_frames(), 256 - 17 - 2);
}

#[test]
fn contiguous_allocation() {
    let mut a = allocator_over(&[(0, 64 << 20, 1)], 0x100000, 0x200000);
    let before = a.get_free_frames();
    let base = a.allocate_frames(4).unwrap();
    assert_eq!(base % 4096, 0);
    assert_eq!(a.get_free_frames(), before - 4);
    for i in 0..4u64 {
        a.free_frame(base + i * 4096);
    }
    assert_eq!(a.get_free_frames(), before);
}

#[test]
fn contiguous_allocation_takes_lowest_run() {
    let mut a = allocator_over(&[(0, 0x10000, 1)], 0x2000, 0x3000);
    // Frames 0, 1 free; 2 kernel; 3 bitmap; 4.. free.
    assert_eq!(a.allocate_frames(2), Some(0));
    assert_eq!(a.allocate_frames(3), Some(0x4000));
    assert_eq!(a.allocate_frames(0), None);
    assert_eq!(a.allocate_frames(100), None);
}

#[test]
fn single_allocation_wraps_around() {
    let mut a = allocator_over(&[(0, 0x8000, 1)], 0x2000, 0x3000);
    // Free frames: 0, 1, 4, 5, 6, 7.
    assert_eq!(a.allocate_frame(), Some(0));
    assert_eq!(a.allocate_frame(), Some(0x1000));
    assert_eq!(a.allocate_frame(), Some(0x4000));
    a.free_frame(0);
    assert_eq!(a.allocate_frame(), Some(0));
    assert_eq!(a.allocate_frame(), Some(0x5000));
    assert_eq!(a.allocate_frame(), Some(0x6000));
    assert_eq!(a.allocate_frame(), Some(0x7000));
    assert_eq!(a.allocate_frame(), None);
    assert_eq!(a.allocated_frames(), 8);
}

#[test]
fn conservation_of_frames() {
    let mut a = allocator_over(&[(0, 0x40000, 1), (0x40000, 0x10000, 2)], 0x10000, 0x12000);
    for _ in 0..5 {
        a.allocate_frame();
        assert_eq!(a.total_frames(), a.get_free_frames() + a.allocated_frames());
    }
    a.free_frames(0, 8);
    assert_eq!(a.total_frames(), a.get_free_frames() + a.allocated_frames());
}

#[test]
fn free_is_idempotent() {
    let mut a = allocator_over(&[(0, 0x10000, 1)], 0x8000, 0x9000);
    let before = a.get_free_frames();
    let f = a.allocate_frame().unwrap();
    a.free_frame(f);
    a.free_frame(f);
    assert_eq!(a.get_free_frames(), before);
    a.free_frames(0, 16);
    assert_eq!(a.get_free_frames(), 16);
    a.free_frames(0x100000, 4);
    assert_eq!(a.get_free_frames(), 16);
}

#[test]
fn reserved_regions_stay_reserved() {
    let mut a = allocator_over(&[(0, 0x4000, 2), (0x4000, 0x4000, 1)], 0x6000, 0x6000);
    assert_eq!(a.total_frames(), 8);
    // Frames 4, 5 and 7 are free; 6 holds the bitmap.
    assert_eq!(a.get_free_frames(), 3);
    assert_eq!(a.allocate_frame(), Some(0x4000));
}

#[test]
fn allocator_capped_at_sixteen_gib() {
    let a = allocator_over(&[(0, 0x8_0000_0000, 1)], 0x100000, 0x200000);
    assert_eq!(a.total_frames(), 0x40_0000);
}

#[test]
fn init_from_regions_matches_init() {
    let regions = vec![MemoryMapEntry { base_addr: 0x1000, length: 0x3000, mem_type: 1, reserved: 0 }];
    let mut a = BitmapAllocator::new();
    a.init_from_regions(&regions, 0x8000, 0x8000);
    assert_eq!(a.total_frames(), 4);
    assert_eq!(a.get_free_frames(), 3);
}

fn seeded_mapper() -> Mapper<BitmapFrameAllocator> {
    let a = allocator_over(&[(0, 0x100000, 2), (0x100000, 0x400000, 1)], 0x100000, 0x180000);
    Mapper::new(PageTable::new(), BitmapFrameAllocator::new(a))
}

#[test]
fn map_translate_unmap() {
    let mut m = seeded_mapper();
    let page = Page::containing_address(VirtAddr::new(0x8000_0000));
    let frame = PhysFrame::containing_address(PhysAddr::new(0x10_0000));
    let flags = PageTableFlags::from_bits(PRESENT | WRITABLE);
    assert_eq!(m.map_to(page, frame, flags), Ok(()));
    assert_eq!(m.translate(VirtAddr::new(0x8000_0ABC)), Some(PhysAddr::new(0x10_0ABC)));
    assert_eq!(m.unmap(page), Ok(frame));
    assert_eq!(m.translate(VirtAddr::new(0x8000_0ABC)), None);
    assert_eq!(m.translate(VirtAddr::new(0x8000_0000)), None);
}

#[test]
fn translate_whole_page_after_map() {
    let mut m = seeded_mapper();
    let page = Page::containing_address(VirtAddr::new(0xFFFF_8000_0020_0000));
    let frame = PhysFrame::containing_address(PhysAddr::new(0x30_0000));
    m.map_to(page, frame, PageTableFlags::from_bits(WRITABLE)).unwrap();
    for o in [0u64, 1, 0x800, 0xFFF] {
        assert_eq!(
            m.translate(VirtAddr::new(0xFFFF_8000_0020_0000 + o)),
            Some(PhysAddr::new(0x30_0000 + o))
        );
    }
    assert_eq!(m.translate(VirtAddr::new(0xFFFF_8000_0020_1000)), None);
    assert_eq!(m.translate(VirtAddr::new(0xFFFF_8000_001F_F000)), None);
}

#[test]
fn map_twice_is_refused() {
    let mut m = seeded_mapper();
    let page = Page::containing_address(VirtAddr::new(0x40_0000));
    let f1 = PhysFrame::containing_address(PhysAddr::new(0x20_0000));
    let f2 = PhysFrame::containing_address(PhysAddr::new(0x21_0000));
    m.map_to(page, f1, PageTableFlags::from_bits(PRESENT)).unwrap();
    assert_eq!(m.map_to(page, f2, PageTableFlags::from_bits(PRESENT)), Err(MapError::PageAlreadyMapped));
    assert_eq!(m.translate(VirtAddr::new(0x40_0010)), Some(PhysAddr::new(0x20_0010)));
    let next = Page::containing_address(VirtAddr::new(0x40_1000));
    assert_eq!(m.map_to(next, f2, PageTableFlags::from_bits(PRESENT)), Ok(()));
    assert_eq!(m.translate(VirtAddr::new(0x40_1010)), Some(PhysAddr::new(0x21_0010)));
    assert_eq!(m.translate(VirtAddr::new(0x40_0010)), Some(PhysAddr::new(0x20_0010)));
}

#[test]
fn unmap_unmapped_page() {
    let mut m = seeded_mapper();
    let page = Page::containing_address(VirtAddr::new(0x7000_0000));
    assert_eq!(m.unmap(page), Err(MapError::NotMapped));
    assert_eq!(m.update_flags(page, PageTableFlags::from_bits(WRITABLE)), Err(MapError::NotMapped));
    let near = Page::containing_address(VirtAddr::new(0x7000_1000));
    m.map_to(near, PhysFrame::containing_address(PhysAddr::new(0x5000)), PageTableFlags::empty()).unwrap();
    assert_eq!(m.unmap(page), Err(MapError::NotMapped));
}

#[test]
fn update_flags_keeps_frame() {
    let mut m = seeded_mapper();
    let page = Page::containing_address(VirtAddr::new(0x1234_5000));
    let frame = PhysFrame::containing_address(PhysAddr::new(0x6000));
    m.map_to(page, frame, PageTableFlags::from_bits(PRESENT | WRITABLE)).unwrap();
    assert_eq!(m.update_flags(page, PageTableFlags::from_bits(USER_ACCESSIBLE)), Ok(()));
    assert_eq!(m.translate(VirtAddr::new(0x1234_5008)), Some(PhysAddr::new(0x6008)));
    assert_eq!(m.unmap(page), Ok(frame));
}

#[test]
fn huge_parent_refused() {
    let mut pml4 = PageTable::new();
    pml4.set_entry(0, PageTableEntry { entry: 0x4000_0000 | PRESENT | HUGE_PAGE });
    let a = allocator_over(&[(0, 0x400000, 1)], 0x100000, 0x180000);
    let mut m = Mapper::new(pml4, BitmapFrameAllocator::new(a));
    let page = Page::containing_address(VirtAddr::new(0x1000));
    let frame = PhysFrame::containing_address(PhysAddr::new(0x20_0000));
    assert_eq!(m.map_to(page, frame, PageTableFlags::from_bits(PRESENT)), Err(MapError::ParentEntryHugePage));
    assert_eq!(m.unmap(page), Err(MapError::ParentEntryHugePage));
    assert_eq!(m.translate(VirtAddr::new(0x1000)), None);
}

#[test]
fn allocation_failure_reported() {
    let mut m = Mapper::new(PageTable::new(), EmptyFrameAllocator);
    let page = Page::containing_address(VirtAddr::new(0x1000));
    let frame = PhysFrame::containing_address(PhysAddr::new(0x20_0000));
    assert_eq!(m.map_to(page, frame, PageTableFlags::from_bits(PRESENT)), Err(MapError::FrameAllocationFailed));
    assert_eq!(m.map(page, PageTableFlags::from_bits(PRESENT)), Err(MapError::FrameAllocationFailed));
    let mut e = EmptyFrameAllocator;
    assert_eq!(e.allocate_frame(), Err(FrameAllocError::OutOfMemory));
}

#[test]
fn map_takes_frame_from_allocator() {
    let mut m = seeded_mapper();
    let page = Page::containing_address(VirtAddr::new(0x9000_0000));
    let f = m.map(page, PageTableFlags::from_bits(WRITABLE)).unwrap();
    assert_eq!(m.translate(VirtAddr::new(0x9000_0123)), Some(PhysAddr::new(f.start_address().as_u64() + 0x123)));
    assert_eq!(m.map(page, PageTableFlags::from_bits(WRITABLE)), Err(MapError::PageAlreadyMapped));
}

#[test]
fn identity_map_frame() {
    let mut m = seeded_mapper();
    let frame = PhysFrame::containing_address(PhysAddr::new(0xB8000));
    assert_eq!(m.identity_map(frame, PageTableFlags::from_bits(WRITABLE)), Ok(()));
    assert_eq!(m.translate(VirtAddr::new(0xB8010)), Some(PhysAddr::new(0xB8010)));
}

#[test]
fn bitmap_frame_allocator_hands_out_free_frames() {
    let a = allocator_over(&[(0, 0x4000, 1)], 0x1000, 0x1000);
    let mut fa = BitmapFrameAllocator::new(a);
    let f = fa.allocate_frame().unwrap();
    assert_eq!(f.start_address().as_u64(), 0);
    // Frame 1 holds the bitmap; frames 2 and 3 stay free.
    assert_eq!(fa.inner().get_free_frames(), 2);
    fa.deallocate_frame(f);
    assert_eq!(fa.inner().get_free_frames(), 3);
}

#[test]
fn free_frames_lowers_hint_to_first_freed() {
    let mut a = allocator_over(&[(0, 0x8000, 1)], 0x2000, 0x3000);
    // Free frames: 0, 1, 4, 5, 6, 7.
    assert_eq!(a.allocate_frames(2), Some(0));
    assert_eq!(a.allocate_frame(), Some(0x4000));
    assert_eq!(a.stats(), (8, 3, 5));
    // Frames 2 and 3 (kernel and bitmap) and 4 become free.
    a.free_frames(0x2000, 3);
    assert_eq!(a.stats(), (8, 6, 2));
    assert_eq!(a.allocate_frame(), Some(0x2000));
}

#[test]
fn table_entry_changed_in_place() {
    let mut t = PageTable::new();
    t.entry_mut(5).set_addr(PhysAddr::new(0x7000), PageTableFlags::from_bits(PRESENT));
    assert_eq!(t.entry(5).entry, 0x7001);
    assert!(t.entry(4).is_unused());
}

#[test]
fn mapper_takes_table_frames_from_allocator() {
    let mut m = seeded_mapper();
    let before = m.allocator().inner().get_free_frames();
    let page = Page::containing_address(VirtAddr::new(0x8000_0000));
    let frame = PhysFrame::containing_address(PhysAddr::new(0x10_0000));
    m.map_to(page, frame, PageTableFlags::from_bits(PRESENT)).unwrap();
    // Three lower tables were linked.
    assert_eq!(m.allocator().inner().get_free_frames(), before - 3);
    let next = Page::containing_address(VirtAddr::new(0x8000_1000));
    m.map_to(next, frame, PageTableFlags::from_bits(PRESENT)).unwrap();
    assert_eq!(m.allocator().inner().get_free_frames(), before - 3);
}

#[test]
fn map_gives_frame_back_on_error() {
    let mut m = seeded_mapper();
    let page = Page::containing_address(VirtAddr::new(0x6000_0000));
    let first = m.map(page, PageTableFlags::from_bits(WRITABLE)).unwrap();
    let free = m.allocator().inner().get_free_frames();
    assert_eq!(m.map(page, PageTableFlags::from_bits(WRITABLE)), Err(MapError::PageAlreadyMapped));
    assert_eq!(m.allocator().inner().get_free_frames(), free);
    assert_eq!(m.unmap(page), Ok(first));
}

#[test]
fn identity_map_whole_page() {
    let mut m = seeded_mapper();
    let frame = PhysFrame::containing_address(PhysAddr::new(0x20_0000));
    m.identity_map(frame, PageTableFlags::from_bits(PRESENT | WRITABLE)).unwrap();
    for o in [0u64, 0x7FF, 0xFFF] {
        assert_eq!(m.translate(VirtAddr::new(0x20_0000 + o)), Some(PhysAddr::new(0x20_0000 + o)));
    }
    let page = Page::containing_address(VirtAddr::new(0x20_0000));
    assert_eq!(
        m.map_to(page, frame, PageTableFlags::from_bits(PRESENT)),
        Err(MapError::PageAlreadyMapped)
    );
}

#[test]
fn align_to_multiple_of_page_size() {
    let a = VirtAddr::new_unchecked(0x3000);
    assert_eq!(a.align_down(0x3000).as_u64(), 0x3000);
    let b = PhysAddr::new(0x4001);
    assert_eq!(b.align_down(0x3000).as_u64(), 0x3000);
    assert_eq!(b.align_up(0x3000).as_u64(), 0x6000);
}

#[test]
fn adopt_existing_hierarchy() {
    // PML4[0] -> 0x1000 (PDPT), PDPT[2] -> 0x2000 (PD), PD[3] -> 0x3000 (PT),
    // PT[4] maps frame 0x50_0000.
    let mut pml4 = PageTable::new();
    pml4.set_entry(0, PageTableEntry { entry: 0x1000 | PRESENT | WRITABLE });
    let mut pdpt = PageTable::new();
    pdpt.set_entry(2, PageTableEntry { entry: 0x2000 | PRESENT | WRITABLE });
    let mut pd = PageTable::new();
    pd.set_entry(3, PageTableEntry { entry: 0x3000 | PRESENT | WRITABLE });
    let mut pt = PageTable::new();
    pt.set_entry(4, PageTableEntry { entry: 0x50_0000 | PRESENT });
    let mut lower = HashMap::new();
    lower.insert(0x1000u64, pdpt);
    lower.insert(0x2000u64, pd);
    lower.insert(0x3000u64, pt);
    let a = allocator_over(&[(0x100000, 0x400000, 1)], 0x100000, 0x180000);
    let mut m = Mapper::with_tables(pml4, lower, BitmapFrameAllocator::new(a)).unwrap();
    let v: u64 = (2 << 30) | (3 << 21) | (4 << 12) | 0x10;
    assert_eq!(m.translate(VirtAddr::new(v)), Some(PhysAddr::new(0x50_0010)));
    let page = Page::containing_address(VirtAddr::new((2 << 30) | (3 << 21) | (5 << 12)));
    let frame = PhysFrame::containing_address(PhysAddr::new(0x60_0000));
    m.map_to(page, frame, PageTableFlags::from_bits(PRESENT)).unwrap();
    assert_eq!(m.translate(VirtAddr::new((2 << 30) | (3 << 21) | (5 << 12))), Some(PhysAddr::new(0x60_0000)));
}

#[test]
fn adopt_refuses_broken_hierarchy() {
    let mut pml4 = PageTable::new();
    pml4.set_entry(0, PageTableEntry { entry: 0x1000 | PRESENT });
    pml4.set_entry(1, PageTableEntry { entry: 0x1000 | PRESENT });
    let mut lower = HashMap::new();
    lower.insert(0x1000u64, PageTable::new());
    assert!(Mapper::with_tables(pml4, lower, EmptyFrameAllocator).is_none());
    let mut pml4 = PageTable::new();
    pml4.set_entry(0, PageTableEntry { entry: 0x7000 | PRESENT });
    assert!(Mapper::with_tables(pml4, HashMap::new(), EmptyFrameAllocator).is_none());
}
