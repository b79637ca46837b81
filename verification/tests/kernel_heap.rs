use neoastrenos_kernel::frame_allocator::FrameAllocator;
use neoastrenos_kernel::heap::{
    growth_page, growth_start, growth_step, Growth, GrowthAction, GrowthEvent, GrowthPlan,
    KernelHeap, HEAP_REGION_END, HEAP_REGION_START,
};
use neoastrenos_kernel::linked_list_allocator::{adjusted_size_align, Layout};
use neoastrenos_kernel::page_table_entry::PageFlags;
use neoastrenos_kernel::phys_addr::PhysAddr;

/// Run a growth in which every mapping succeeds; returns the finished
/// growth and the (virtual, frame) pairs mapped.
fn run_growth(frames: &mut FrameAllocator, plan: GrowthPlan) -> (Growth, Vec<(u64, u64)>) {
    let mut mapped = Vec::new();
    let (mut growth, mut action) = growth_start(frames, plan);
    loop {
        match action {
            GrowthAction::MapPage { virt, frame, flags } => {
                assert_eq!(flags, PageFlags::read_write());
                mapped.push((virt.as_u64(), frame.as_u64()));
                let (g, a) = growth_step(frames, growth, GrowthEvent::Mapped);
                growth = g;
                action = a;
            }
            GrowthAction::Finished => return (growth, mapped),
            other => panic!("unexpected growth action {:?}", other),
        }
    }
}

fn grow(heap: &mut KernelHeap, plan: GrowthPlan) {
    let mut frames = FrameAllocator::with_all_frames_free(64);
    let (growth, _) = run_growth(&mut frames, plan);
    heap.finish_growth(&growth);
}

#[test]
fn an_empty_heap_grows_by_at_least_sixteen_pages() {
    let mut heap = KernelHeap::new();
    let layout = Layout::from_size_align(64, 8).unwrap();
    assert!(heap.can_search(layout));
    assert_eq!(heap.try_alloc(layout), 0);
    let plan = heap.growth_plan(layout).unwrap();
    assert_eq!(plan.start, HEAP_REGION_START);
    assert_eq!(plan.pages, 16);
    assert_eq!(growth_page(plan, 3).as_u64(), HEAP_REGION_START + 3 * 4096);
    grow(&mut heap, plan);
    assert_eq!(heap.try_alloc(layout), HEAP_REGION_START as usize);
    let next = heap.growth_plan(layout).unwrap();
    assert_eq!(next.start, HEAP_REGION_START + 16 * 4096);
}

#[test]
fn a_large_request_grows_by_the_pages_it_needs() {
    let heap = KernelHeap::new();
    let layout = Layout::from_size_align(100_000, 8).unwrap();
    assert_eq!(heap.growth_plan(layout).unwrap().pages, 25);
    let exact = Layout::from_size_align(20 * 4096, 4096).unwrap();
    assert_eq!(heap.growth_plan(exact).unwrap().pages, 20);
}

#[test]
fn growth_never_crosses_the_end_of_the_heap_region() {
    let heap = KernelHeap::new();
    let span = (HEAP_REGION_END - HEAP_REGION_START) as usize;
    assert!(heap.growth_plan(Layout::from_size_align(span, 8).unwrap()).is_some());
    assert!(heap.growth_plan(Layout::from_size_align(span + 1, 8).unwrap()).is_none());
}

#[test]
fn freed_heap_memory_is_reused() {
    let mut heap = KernelHeap::new();
    let layout = Layout::from_size_align(4096, 16).unwrap();
    let plan = heap.growth_plan(layout).unwrap();
    grow(&mut heap, plan);
    let a = heap.try_alloc(layout);
    let b = heap.try_alloc(layout);
    assert_eq!(b, a + 4096);
    heap.dealloc(a, layout);
    assert_eq!(heap.try_alloc(layout), a);
}

#[test]
fn layouts_follow_std_rules_and_are_padded_for_the_free_list() {
    assert!(Layout::from_size_align(8, 3).is_none());
    assert!(Layout::from_size_align(8, 0).is_none());
    assert!(Layout::from_size_align(usize::MAX, 1).is_none());
    assert!(Layout::from_size_align(isize::MAX as usize, 1).is_some());
    let tiny = Layout::from_size_align(1, 1).unwrap();
    assert_eq!((tiny.size(), tiny.align()), (1, 1));
    assert_eq!(adjusted_size_align(tiny), (16, 8));
    assert_eq!(adjusted_size_align(Layout::from_size_align(20, 8).unwrap()), (24, 8));
    assert_eq!(adjusted_size_align(Layout::from_size_align(32, 64).unwrap()), (64, 64));
    assert_eq!(adjusted_size_align(Layout::from_size_align(0, 32).unwrap()), (16, 32));
    let edge = Layout::from_size_align(isize::MAX as usize, 1).unwrap();
    assert!(!edge.is_adjustable());
}

#[test]
fn growth_for_a_request_makes_room_for_exactly_that_request() {
    let mut heap = KernelHeap::new();
    let layout = Layout::from_size_align(100_000, 4096).unwrap();
    assert!(heap.can_search(layout));
    assert_eq!(heap.try_alloc(layout), 0);
    let plan = heap.growth_plan(layout).unwrap();
    grow(&mut heap, plan);
    assert!(heap.can_search(layout));
    assert_eq!(heap.try_alloc(layout), HEAP_REGION_START as usize);
}

#[test]
fn growth_maps_every_page_read_write_to_its_own_fresh_frame() {
    let heap = KernelHeap::new();
    let plan = heap.growth_plan(Layout::from_size_align(64, 8).unwrap()).unwrap();
    let mut frames = FrameAllocator::with_all_frames_free(32);
    let (growth, mapped) = run_growth(&mut frames, plan);
    assert_eq!(growth.plan(), plan);
    assert_eq!(mapped.len(), 16);
    for (i, &(virt, frame)) in mapped.iter().enumerate() {
        assert_eq!(virt, HEAP_REGION_START + i as u64 * 4096);
        assert_eq!(frame, i as u64 * 4096);
    }
    assert_eq!(frames.frames_free(), 16);
}

#[test]
fn a_failed_mapping_unmaps_the_pages_before_it_and_frees_every_frame() {
    let heap = KernelHeap::new();
    let plan = heap.growth_plan(Layout::from_size_align(64, 8).unwrap()).unwrap();
    let mut frames = FrameAllocator::with_all_frames_free(32);
    let (mut growth, mut action) = growth_start(&mut frames, plan);
    let mut mapped: Vec<(u64, u64)> = Vec::new();
    // Pages 0..3 map; page 3 fails.
    for _ in 0..3 {
        match action {
            GrowthAction::MapPage { virt, frame, .. } => mapped.push((virt.as_u64(), frame.as_u64())),
            other => panic!("unexpected growth action {:?}", other),
        }
        let (g, a) = growth_step(&mut frames, growth, GrowthEvent::Mapped);
        growth = g;
        action = a;
    }
    assert!(matches!(action, GrowthAction::MapPage { .. }));
    assert_eq!(frames.frames_free(), 28);
    let (g, a) = growth_step(&mut frames, growth, GrowthEvent::MapFailed);
    growth = g;
    action = a;
    assert_eq!(frames.frames_free(), 29);
    let mut unmapped = Vec::new();
    loop {
        match action {
            GrowthAction::UnmapPage { virt } => {
                let v = virt.as_u64();
                unmapped.push(v);
                let frame = mapped.iter().find(|&&(mv, _)| mv == v).unwrap().1;
                let (g, a) = growth_step(
                    &mut frames,
                    growth,
                    GrowthEvent::Unmapped(Some(PhysAddr::new(frame))),
                );
                growth = g;
                action = a;
            }
            GrowthAction::Failed => break,
            other => panic!("unexpected growth action {:?}", other),
        }
    }
    assert_eq!(
        unmapped,
        vec![HEAP_REGION_START + 2 * 4096, HEAP_REGION_START + 4096, HEAP_REGION_START]
    );
    assert_eq!(frames.frames_free(), 32);
}

#[test]
fn growth_without_free_frames_fails_and_unwinds() {
    let heap = KernelHeap::new();
    let plan = heap.growth_plan(Layout::from_size_align(64, 8).unwrap()).unwrap();
    let mut empty = FrameAllocator::with_all_frames_free(0);
    let (_, action) = growth_start(&mut empty, plan);
    assert_eq!(action, GrowthAction::Failed);

    let mut two = FrameAllocator::with_all_frames_free(2);
    let (g, a) = growth_start(&mut two, plan);
    assert!(matches!(a, GrowthAction::MapPage { .. }));
    let (g, a) = growth_step(&mut two, g, GrowthEvent::Mapped);
    assert!(matches!(a, GrowthAction::MapPage { .. }));
    let (g, a) = growth_step(&mut two, g, GrowthEvent::Mapped);
    assert_eq!(a, GrowthAction::UnmapPage { virt: growth_page(plan, 1) });
    let (g, a) = growth_step(&mut two, g, GrowthEvent::Unmapped(Some(PhysAddr::new(4096))));
    assert_eq!(a, GrowthAction::UnmapPage { virt: growth_page(plan, 0) });
    let (_, a) = growth_step(&mut two, g, GrowthEvent::Unmapped(Some(PhysAddr::new(0))));
    assert_eq!(a, GrowthAction::Failed);
    assert_eq!(two.frames_free(), 2);
}
