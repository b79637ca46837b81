use neoastrenos_kernel::frame_allocator::{DeallocError, FrameAllocator};
use neoastrenos_kernel::phys_addr::PhysAddr;

fn test_allocator(total_frames: usize) -> FrameAllocator {
    FrameAllocator::with_all_frames_free(total_frames)
}

#[test]
fn allocate_returns_distinct_frames() {
    let mut alloc = test_allocator(8);
    let a = alloc.allocate().unwrap();
    let b = alloc.allocate().unwrap();
    assert_ne!(a, b);
    assert_eq!(alloc.frames_free(), 6);
}

#[test]
fn allocate_exhausts_and_returns_none() {
    let mut alloc = test_allocator(4);
    for _ in 0..4 {
        assert!(alloc.allocate().is_some());
    }
    assert_eq!(alloc.allocate(), None);
    assert_eq!(alloc.frames_free(), 0);
}

#[test]
fn deallocate_then_reallocate_reuses_frame() {
    let mut alloc = test_allocator(2);
    let a = alloc.allocate().unwrap();
    let _b = alloc.allocate().unwrap();
    assert_eq!(alloc.allocate(), None);

    alloc.deallocate(a).unwrap();
    assert_eq!(alloc.frames_free(), 1);

    let reused = alloc.allocate().unwrap();
    assert_eq!(reused, a);
}

#[test]
fn double_free_is_rejected() {
    let mut alloc = test_allocator(4);
    let a = alloc.allocate().unwrap();
    alloc.deallocate(a).unwrap();
    assert_eq!(alloc.deallocate(a), Err(DeallocError::DoubleFree));
}

#[test]
fn deallocate_out_of_range_is_rejected() {
    let mut alloc = test_allocator(4);
    let bogus = PhysAddr::from_frame_number(1000);
    assert_eq!(alloc.deallocate(bogus), Err(DeallocError::OutOfRange));
}

#[test]
fn allocation_never_returns_a_frame_still_marked_used() {
    let mut alloc = test_allocator(8);
    for frame in 0..4 {
        alloc.mark_used(frame);
    }
    // mark_used keeps the free counter exact: four of eight frames remain.
    assert_eq!(alloc.frames_free(), 4);

    let mut seen = std::collections::HashSet::new();
    for _ in 0..4 {
        let addr = alloc.allocate().expect("should have 4 free frames");
        assert!(addr.frame_number() >= 4, "allocated a pre-used frame");
        seen.insert(addr.frame_number());
    }
    assert_eq!(seen.len(), 4);
    assert_eq!(alloc.allocate(), None);
}

#[test]
fn allocate_below_only_returns_frames_under_the_limit() {
    let mut alloc = test_allocator(16);
    let limit = PhysAddr::from_frame_number(8);
    let mut seen = std::collections::HashSet::new();
    for _ in 0..8 {
        let addr = alloc
            .allocate_below(limit)
            .expect("8 frames should be available below the limit");
        assert!(
            addr.frame_number() < 8,
            "allocate_below returned a frame at or above its limit"
        );
        seen.insert(addr.frame_number());
    }
    assert_eq!(seen.len(), 8, "allocate_below returned a frame twice");
    assert_eq!(alloc.allocate_below(limit), None);
}

#[test]
fn allocate_below_respects_frames_already_used_by_allocate() {
    let mut alloc = test_allocator(4);
    let limit = PhysAddr::from_frame_number(4);
    let taken = alloc.allocate().unwrap();
    let below = alloc
        .allocate_below(limit)
        .expect("3 frames should remain");
    assert_ne!(
        taken, below,
        "allocate_below returned a frame allocate() already gave out"
    );
}

#[test]
fn allocate_scans_from_the_hint_and_wraps_around() {
    let mut alloc = test_allocator(4);
    assert_eq!(alloc.allocate(), Some(PhysAddr::from_frame_number(0)));
    assert_eq!(alloc.allocate(), Some(PhysAddr::from_frame_number(1)));
    assert_eq!(alloc.allocate(), Some(PhysAddr::from_frame_number(2)));
    alloc.deallocate(PhysAddr::from_frame_number(0)).unwrap();
    // The hint sits at frame 3: it is taken first, then the scan wraps to 0.
    assert_eq!(alloc.allocate(), Some(PhysAddr::from_frame_number(3)));
    assert_eq!(alloc.allocate(), Some(PhysAddr::from_frame_number(0)));
    assert_eq!(alloc.allocate(), None);
}

#[test]
fn allocate_below_takes_the_lowest_free_frame() {
    let mut alloc = test_allocator(10);
    alloc.mark_used(0);
    alloc.mark_used(2);
    assert_eq!(
        alloc.allocate_below(PhysAddr::from_frame_number(10)),
        Some(PhysAddr::from_frame_number(1))
    );
    assert_eq!(
        alloc.allocate_below(PhysAddr::from_frame_number(10)),
        Some(PhysAddr::from_frame_number(3))
    );
    // A limit inside frame 4 makes only frames below 4 eligible.
    assert_eq!(alloc.allocate_below(PhysAddr::new(4 * 4096 + 100)), None);
    assert_eq!(alloc.frames_free(), 6);
    assert_eq!(alloc.total_frames(), 10);
}

#[test]
fn mark_free_and_is_free_keep_the_counter_exact() {
    let mut alloc = test_allocator(9);
    alloc.mark_used(8);
    alloc.mark_used(8);
    assert_eq!(alloc.frames_free(), 8);
    assert!(!alloc.is_free(8));
    alloc.mark_free(8);
    alloc.mark_free(8);
    assert!(alloc.is_free(8));
    assert_eq!(alloc.frames_free(), 9);
}

#[test]
fn deallocating_an_unaligned_address_frees_the_frame_it_falls_in() {
    let mut alloc = test_allocator(4);
    let a = alloc.allocate().unwrap();
    assert_eq!(a, PhysAddr::new(0));
    alloc.deallocate(PhysAddr::new(0x0FFF)).unwrap();
    assert!(alloc.is_free(0));
}

#[test]
fn an_empty_allocator_has_nothing_to_give() {
    let mut alloc = test_allocator(0);
    assert_eq!(alloc.allocate(), None);
    assert_eq!(alloc.allocate_below(PhysAddr::new(0x10_0000)), None);
    assert_eq!(alloc.deallocate(PhysAddr::new(0)), Err(DeallocError::OutOfRange));
}
