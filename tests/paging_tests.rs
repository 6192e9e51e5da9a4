use noodle_kernel::paging::{
    Page, PageTable, PageTableEntry, PageTableFlags, PageTableLevel, PhysAddr, PhysFrame,
    VirtAddr, NO_EXECUTE, PRESENT, WRITABLE,
};

#[test]
fn address_decomposition() {
    let v = VirtAddr::new_unchecked(0xFFFF_8000_1234_5678);
    assert_eq!(v.page_table_index(PageTableLevel::Four), 256);
    assert_eq!(v.page_table_index(PageTableLevel::Three), 0);
    assert_eq!(v.page_table_index(PageTableLevel::Two), 145);
    // Bits 12..21 of 0x...5678 are 0x145: the formula (v >> 12) & 0x1FF gives 325.
    assert_eq!(v.page_table_index(PageTableLevel::One), 0x145);
    assert_eq!(v.page_offset(), 0x678);
}

#[test]
fn canonical_alignment() {
    let v = VirtAddr::new(0xFFFF_8000_0000_1234);
    assert_eq!(v.align_down(4096).as_u64(), 0xFFFF_8000_0000_1000);
    assert_eq!(v.align_up(4096).as_u64(), 0xFFFF_8000_0000_2000);
}

#[test]
fn entry_round_trip() {
    let mut e = PageTableEntry::new();
    e.set_addr(PhysAddr::new(0x2000), PageTableFlags::from_bits(PRESENT | WRITABLE));
    assert_eq!(e.entry, 0x0000_0000_0000_2003);
    assert_eq!(e.frame().start_address().as_u64(), 0x2000);
    assert!(!e.is_unused());
    e.set_unused();
    assert!(e.is_unused());
}

#[test]
fn entry_flags_and_address_separate() {
    let mut e = PageTableEntry::new();
    e.set_addr(
        PhysAddr::new(0x1000),
        PageTableFlags::from_bits(PRESENT | WRITABLE | NO_EXECUTE),
    );
    assert_eq!(e.addr().as_u64(), 0x1000);
    assert_eq!(e.flags().bits(), PRESENT | WRITABLE | NO_EXECUTE);
    e.set_flags(PageTableFlags::from_bits(PRESENT));
    assert_eq!(e.addr().as_u64(), 0x1000);
    assert_eq!(e.entry, 0x1001);
}

#[test]
fn index_is_below_table_size() {
    let v = VirtAddr::new_unchecked(u64::MAX);
    for level in [
        PageTableLevel::One,
        PageTableLevel::Two,
        PageTableLevel::Three,
        PageTableLevel::Four,
    ] {
        assert_eq!(v.page_table_index(level), 511);
    }
    assert_eq!(v.page_offset(), 0xFFF);
}

#[test]
fn alignment_brackets_address() {
    let a = VirtAddr::new_unchecked(0x1234_5678);
    for n in [4096usize, 8192, 1 << 21] {
        let d = a.align_down(n).as_u64();
        let u = a.align_up(n).as_u64();
        assert!(d <= a.as_u64() && a.as_u64() <= u);
        assert_eq!(d % n as u64, 0);
        assert_eq!(u % n as u64, 0);
    }
    let aligned = VirtAddr::new_unchecked(0x3000);
    assert_eq!(aligned.align_up(4096).as_u64(), 0x3000);
    assert_eq!(aligned.align_down(4096).as_u64(), 0x3000);
}

#[test]
fn physical_address_queries() {
    let p = PhysAddr::new(0x1000_1234);
    assert_eq!(p.align_down(4096).as_u64(), 0x1000_1000);
    assert_eq!(p.align_up(4096).as_u64(), 0x1000_2000);
    assert!(PhysAddr::new(0x2000).is_aligned(4096));
    assert!(!PhysAddr::new(0x2001).is_aligned(4096));
}

#[test]
fn union_contains_both() {
    let f = PageTableFlags::from_bits(PRESENT);
    let g = PageTableFlags::from_bits(WRITABLE | NO_EXECUTE);
    let u = f.union(g);
    assert!(u.contains(f));
    assert!(u.contains(g));
    assert_eq!(u.bits(), PRESENT | WRITABLE | NO_EXECUTE);
    assert!(!PageTableFlags::empty().contains(f));
    let mut h = u;
    h.remove(g);
    assert_eq!(h.bits(), PRESENT);
    h.insert(g);
    assert_eq!(h.bits(), u.bits());
}

#[test]
fn fresh_table_is_unused() {
    let t = PageTable::new();
    assert_eq!(t.iter().count(), 512);
    assert!(t.iter().all(|e| e.is_unused()));
    let mut t = t;
    t.set_entry(0, PageTableEntry { entry: 0x1003 });
    assert_eq!(t.entry(0).addr().as_u64(), 0x1000);
    t.zero();
    assert!(t.iter().all(|e| e.is_unused()));
}

#[test]
fn page_and_frame_numbers() {
    let page = Page::containing_address(VirtAddr::new_unchecked(0xFFFF_8000_0000_1234));
    assert_eq!(page.start_address().as_u64(), 0xFFFF_8000_0000_1000);
    let frame = PhysFrame::containing_address(PhysAddr::new(0x20_0234));
    assert_eq!(frame.start_address().as_u64(), 0x20_0000);
    assert_eq!(Page::containing_address(VirtAddr::new_unchecked(0x5000)).number(), 5);
    assert_eq!(PhysFrame::containing_address(PhysAddr::new(0x3000)).number(), 3);
}
