use kernel::mem::{AreaFrameAllocator, Frame, Region, PAGE_SIZE};
use kernel::paging::{containing_address, Page};
use kernel::table::{
    ActivePageTable, Entry, InactivePageTable, TemporaryPage, PRESENT, WRITABLE,
};

#[test]
fn page_index_decomposition_and_roundtrip() {
    let n: u64 = (0o421 << 27) | (0o317 << 18) | (0o005 << 9) | 0o776;
    let page = Page { number: n };
    assert_eq!(page.p4_index(), 0o421);
    assert_eq!(page.p3_index(), 0o317);
    assert_eq!(page.p2_index(), 0o005);
    assert_eq!(page.p1_index(), 0o776);
    let rebuilt = (page.p4_index() << 27) | (page.p3_index() << 18) | (page.p2_index() << 9)
        | page.p1_index();
    assert_eq!(rebuilt, n);
}

#[test]
fn canonical_addresses_are_accepted() {
    // the last lower-half address and an upper-half address translate;
    // the first non-canonical address is excluded by precondition.
    let last_low = containing_address(0x0000_7fff_ffff_ffff);
    assert_eq!(last_low.number, 0x0000_7fff_ffff_ffff / PAGE_SIZE);
    let high = containing_address(0xffff_8000_0000_0001);
    assert_eq!(high.number, 0xffff_8000_0000_0001 / PAGE_SIZE);
}

#[test]
fn page_start_address_is_page_aligned() {
    let page = containing_address(0x4000_1234);
    assert_eq!(page.start_address(), 0x4000_1000);
}

#[test]
fn entry_roundtrips_frame_and_flags() {
    let e = Entry::new(Frame { number: 77 }, PRESENT | WRITABLE);
    assert_eq!(e.pointed_frame(), Some(Frame { number: 77 }));
    assert_eq!(e.flags(), PRESENT | WRITABLE);
    assert!(!e.is_unused());
    let not_present = Entry::new(Frame { number: 77 }, WRITABLE);
    assert_eq!(not_present.pointed_frame(), None);
    let mut cleared = e;
    cleared.set_unused();
    assert!(cleared.is_unused());
    assert_eq!(cleared.pointed_frame(), None);
    let mut rewritten = cleared;
    rewritten.set(Frame { number: 9 }, PRESENT);
    assert_eq!(rewritten.pointed_frame(), Some(Frame { number: 9 }));
    assert_eq!(rewritten.flags(), PRESENT);
}

#[test]
fn inactive_table_is_zeroed_with_recursive_slot() {
    let mut active = ActivePageTable::new(Frame { number: 1000 });
    let mut scratch = TemporaryPage::new(Page { number: 0xcafe });
    let root = Frame { number: 42 };
    let inactive = InactivePageTable::new(root.clone(), &mut active, &mut scratch);
    assert_eq!(inactive.p4_frame, Frame { number: 42 });

    // read the constructed table back through the temporary page
    scratch.map_table_frame(root, &mut active);
    for i in 0..511u64 {
        let e = scratch.read_mapped_entry(&active, i);
        assert!(e.is_unused());
    }
    let last = scratch.read_mapped_entry(&active, 511);
    assert_eq!(last.pointed_frame(), Some(Frame { number: 42 }));
    assert_eq!(last.flags(), PRESENT | WRITABLE);
    scratch.unmap(&mut active);
}

#[test]
fn map_then_translate_roundtrip() {
    let mut active = ActivePageTable::new(Frame { number: 9000 });
    let areas = vec![Region { base: 100 * PAGE_SIZE, size: 50 * PAGE_SIZE }];
    let mut alloc = AreaFrameAllocator::new(0, 0, 0, 0, areas);

    let address = 0x4000_0000;
    let page = containing_address(address);
    let frame = Frame { number: 3000 };
    assert!(active.map_to(page, frame, PRESENT | WRITABLE, &mut alloc));

    assert_eq!(active.translate(address), Some(3000 * PAGE_SIZE));
    assert_eq!(active.translate(address + 123), Some(3000 * PAGE_SIZE + 123));

    active.unmap(page, &mut alloc);
    assert_eq!(active.translate(address), None);
}

#[test]
fn translate_unmapped_address_is_absent() {
    let active = ActivePageTable::new(Frame { number: 7 });
    assert_eq!(active.translate(0x1234_5000), None);
}

#[test]
fn map_fails_when_allocator_is_exhausted() {
    let mut active = ActivePageTable::new(Frame { number: 9000 });
    let mut alloc = AreaFrameAllocator::new(0, 0, 0, 0, Vec::new());
    let page = containing_address(0x4000_0000);
    assert!(!active.map_to(page, Frame { number: 3000 }, PRESENT | WRITABLE, &mut alloc));
    assert_eq!(active.translate(0x4000_0000), None);
}

#[test]
fn mapping_without_present_flag_does_not_translate() {
    let mut active = ActivePageTable::new(Frame { number: 9000 });
    let areas = vec![Region { base: 100 * PAGE_SIZE, size: 50 * PAGE_SIZE }];
    let mut alloc = AreaFrameAllocator::new(0, 0, 0, 0, areas);
    let page = containing_address(0x4000_0000);
    assert!(active.map_to(page, Frame { number: 3000 }, WRITABLE, &mut alloc));
    assert_eq!(active.translate(0x4000_0000), None);
}

#[test]
fn two_mappings_translate_independently() {
    let mut active = ActivePageTable::new(Frame { number: 9000 });
    let areas = vec![Region { base: 100 * PAGE_SIZE, size: 50 * PAGE_SIZE }];
    let mut alloc = AreaFrameAllocator::new(0, 0, 0, 0, areas);
    let a1 = 0x4000_0000;
    let a2 = 0xffff_8000_0010_0000;
    assert!(active.map_to(containing_address(a1), Frame { number: 3000 }, PRESENT, &mut alloc));
    assert!(active.map_to(containing_address(a2), Frame { number: 3001 }, PRESENT, &mut alloc));
    assert_eq!(active.translate(a1), Some(3000 * PAGE_SIZE));
    assert_eq!(active.translate(a2), Some(3001 * PAGE_SIZE));
    active.unmap(containing_address(a1), &mut alloc);
    assert_eq!(active.translate(a1), None);
    assert_eq!(active.translate(a2), Some(3001 * PAGE_SIZE));
}
