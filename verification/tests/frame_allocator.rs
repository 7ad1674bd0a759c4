use kernel_mm::frame_allocator::FrameAllocator;

#[test]
fn fresh_allocator_has_every_frame_free() {
    let allocator = FrameAllocator::new(10, 14);
    assert_eq!(allocator.free_count(), 4);
    assert!(!allocator.is_allocated(10));
    assert!(!allocator.is_allocated(9));
    assert!(!allocator.is_allocated(14));
}

#[test]
fn frames_come_out_once_each_until_none_is_left() {
    let mut allocator = FrameAllocator::new(10, 13);
    let a = allocator.allocate().expect("a frame");
    let b = allocator.allocate().expect("a frame");
    let c = allocator.allocate().expect("a frame");
    let mut got = vec![a, b, c];
    got.sort();
    assert_eq!(got, vec![10, 11, 12]);
    assert_eq!(allocator.allocate(), None);
    assert_eq!(allocator.free_count(), 0);
    assert!(allocator.is_allocated(11));
}

#[test]
fn a_frame_given_back_is_handed_out_again() {
    let mut allocator = FrameAllocator::new(0, 2);
    let a = allocator.allocate().expect("a frame");
    let b = allocator.allocate().expect("a frame");
    assert_eq!(allocator.allocate(), None);
    allocator.deallocate(a);
    assert!(!allocator.is_allocated(a));
    assert!(allocator.is_allocated(b));
    assert_eq!(allocator.free_count(), 1);
    assert_eq!(allocator.allocate(), Some(a));
    assert_eq!(allocator.allocate(), None);
}

#[test]
fn many_frames_are_taken_together() {
    let mut allocator = FrameAllocator::new(100, 108);
    let frames = allocator.allocate_many(5).expect("enough frames");
    assert_eq!(frames.len(), 5);
    let mut sorted = frames.clone();
    sorted.sort();
    sorted.dedup();
    assert_eq!(sorted.len(), 5);
    assert!(frames.iter().all(|f| (100..108).contains(f)));
    assert!(frames.iter().all(|f| allocator.is_allocated(*f)));
    assert_eq!(allocator.free_count(), 3);
}

#[test]
fn too_large_a_request_takes_nothing() {
    let mut allocator = FrameAllocator::new(100, 104);
    let first = allocator.allocate().expect("a frame");
    assert_eq!(allocator.free_count(), 3);
    assert_eq!(allocator.allocate_many(4), None);
    assert_eq!(allocator.free_count(), 3);
    for frame in 100..104 {
        assert_eq!(allocator.is_allocated(frame), frame == first);
    }
    assert!(allocator.allocate_many(3).is_some());
    assert_eq!(allocator.free_count(), 0);
}

#[test]
fn a_request_for_no_frames_succeeds() {
    let mut allocator = FrameAllocator::new(5, 5);
    assert_eq!(allocator.allocate_many(0), Some(vec![]));
    assert_eq!(allocator.allocate_many(1), None);
}

#[test]
fn many_frames_are_given_back_together() {
    let mut allocator = FrameAllocator::new(0, 6);
    let frames = allocator.allocate_many(4).expect("enough frames");
    allocator.deallocate_many(&frames);
    assert_eq!(allocator.free_count(), 6);
    assert!(allocator.allocate_many(6).is_some());
}
