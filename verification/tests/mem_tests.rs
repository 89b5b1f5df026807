use kernel::mem::{AreaFrameAllocator, Frame, FrameAllocator, Region, PAGE_SIZE};

#[test]
fn frame_containing_address_floors_to_page() {
    // an address k * PAGE_SIZE + r lands in the frame starting at k * PAGE_SIZE
    let a = 7 * PAGE_SIZE + 123;
    let f = Frame::containing_address(a);
    assert_eq!(f.start_address(), 7 * PAGE_SIZE);
    assert_eq!(Frame::containing_address(0).start_address(), 0);
    assert_eq!(Frame::containing_address(PAGE_SIZE - 1).start_address(), 0);
    assert_eq!(Frame::containing_address(PAGE_SIZE).start_address(), PAGE_SIZE);
}

#[test]
fn frame_clone_is_equal() {
    let f = Frame::containing_address(9 * PAGE_SIZE);
    let g = f.clone();
    assert_eq!(f, g);
}

#[test]
fn area_allocator_skips_reserved_and_exhausts() {
    // one usable region [0, 10 pages), kernel in [3 pages, 5 pages)
    let areas = vec![Region { base: 0, size: 10 * PAGE_SIZE }];
    let mut alloc = AreaFrameAllocator::new(
        3 * PAGE_SIZE,
        5 * PAGE_SIZE - 1,
        10 * PAGE_SIZE,
        10 * PAGE_SIZE,
        areas,
    );
    let expected = [0u64, 1, 2, 5, 6, 7, 8, 9];
    for want in expected {
        let got = alloc.allocate_frame().expect("a frame should be free");
        assert_eq!(got, Frame::containing_address(want * PAGE_SIZE));
    }
    assert!(alloc.allocate_frame().is_none());
    assert!(alloc.allocate_frame().is_none());
}

#[test]
fn area_allocator_reuses_freed_frames_last_in_first_out() {
    let areas = vec![Region { base: 0, size: 4 * PAGE_SIZE }];
    let mut alloc = AreaFrameAllocator::new(
        4 * PAGE_SIZE,
        4 * PAGE_SIZE,
        4 * PAGE_SIZE,
        4 * PAGE_SIZE,
        areas,
    );
    let f0 = alloc.allocate_frame().unwrap();
    let f1 = alloc.allocate_frame().unwrap();
    assert_eq!(f0, Frame::containing_address(0));
    assert_eq!(f1, Frame::containing_address(PAGE_SIZE));
    alloc.deallocate_frame(f0);
    alloc.deallocate_frame(f1);
    // the free list is popped from the back before the cursor moves on
    assert_eq!(alloc.allocate_frame().unwrap(), Frame::containing_address(PAGE_SIZE));
    assert_eq!(alloc.allocate_frame().unwrap(), Frame::containing_address(0));
    assert_eq!(alloc.allocate_frame().unwrap(), Frame::containing_address(2 * PAGE_SIZE));
    assert_eq!(alloc.allocate_frame().unwrap(), Frame::containing_address(3 * PAGE_SIZE));
    assert!(alloc.allocate_frame().is_none());
}

#[test]
fn area_allocator_empty_map_is_exhausted_at_once() {
    let mut alloc = AreaFrameAllocator::new(0, 0, 0, 0, Vec::new());
    assert!(alloc.allocate_frame().is_none());
}
