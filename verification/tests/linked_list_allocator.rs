use neoastrenos_kernel::linked_list_allocator::{Layout as StdLayout, LinkedListAllocator};

/// The address the test heaps start at: 16-aligned, as a heap buffer's
/// address would be, but not 64-aligned.
const HEAP_BASE: usize = 0x1_0010;

/// A heap of `size` bytes: the allocator over `[HEAP_BASE, HEAP_BASE + size)`
/// and a byte buffer standing for that memory.
fn test_heap(size: usize) -> (LinkedListAllocator, usize, Vec<u8>) {
    let mut alloc = LinkedListAllocator::new();
    alloc.add_free_region(HEAP_BASE, size);
    (alloc, HEAP_BASE, vec![0u8; size])
}

#[test]
fn single_allocation_succeeds_and_is_writable() {
    let (mut alloc, start, mut memory) = test_heap(4096);
    let layout = StdLayout::from_size_align(64, 8).unwrap();
    let ptr = alloc.alloc_first_fit(layout);
    assert!(ptr != 0);
    let offset = ptr - start;
    for i in 0..64 {
        memory[offset + i] = 0xAB;
    }
    for i in 0..64 {
        assert_eq!(memory[offset + i], 0xAB);
    }
}

#[test]
fn allocations_never_overlap() {
    let (mut alloc, _start, _memory) = test_heap(4096);
    let layout = StdLayout::from_size_align(64, 8).unwrap();
    let mut ptrs = std::vec::Vec::new();
    for _ in 0..10 {
        let p = alloc.alloc_first_fit(layout);
        assert!(p != 0);
        ptrs.push(p);
    }
    for i in 0..ptrs.len() {
        for j in (i + 1)..ptrs.len() {
            let (a, b) = (ptrs[i], ptrs[j]);
            let overlap = a < b + 64 && b < a + 64;
            assert!(!overlap, "allocations {a:#x} and {b:#x} overlap");
        }
    }
}

#[test]
fn alloc_returns_null_when_heap_is_exhausted() {
    let (mut alloc, _start, _memory) = test_heap(256);
    let layout = StdLayout::from_size_align(256, 8).unwrap();
    let p1 = alloc.alloc_first_fit(layout);
    assert!(p1 != 0);
    let p2 = alloc.alloc_first_fit(StdLayout::from_size_align(1, 1).unwrap());
    assert!(p2 == 0);
}

#[test]
fn freed_memory_becomes_reusable() {
    let (mut alloc, _start, _memory) = test_heap(256);
    let layout = StdLayout::from_size_align(256, 8).unwrap();
    let p1 = alloc.alloc_first_fit(layout);
    assert!(p1 != 0);
    alloc.dealloc(p1, layout);
    let p2 = alloc.alloc_first_fit(layout);
    assert!(p2 != 0, "freed memory should have been reusable");
}

#[test]
fn adjacent_freed_blocks_coalesce_into_one_reusable_region() {
    let (mut alloc, _start, _memory) = test_heap(256);
    let half = StdLayout::from_size_align(128, 8).unwrap();
    let whole = StdLayout::from_size_align(256, 8).unwrap();

    let a = alloc.alloc_first_fit(half);
    let b = alloc.alloc_first_fit(half);
    assert!(a != 0 && b != 0);
    assert!(alloc.alloc_first_fit(StdLayout::from_size_align(1, 1).unwrap()) == 0);

    alloc.dealloc(a, half);
    alloc.dealloc(b, half);

    let reunited = alloc.alloc_first_fit(whole);
    assert!(
        reunited != 0,
        "freeing two adjacent blocks should coalesce into one 256-byte region"
    );
}

#[test]
fn coalescing_works_regardless_of_free_order() {
    let (mut alloc, _start, _memory) = test_heap(256);
    let half = StdLayout::from_size_align(128, 8).unwrap();
    let whole = StdLayout::from_size_align(256, 8).unwrap();

    let a = alloc.alloc_first_fit(half);
    let b = alloc.alloc_first_fit(half);
    alloc.dealloc(b, half);
    alloc.dealloc(a, half);
    let reunited = alloc.alloc_first_fit(whole);
    assert!(reunited != 0);
}

#[test]
fn three_adjacent_frees_coalesce_into_one_block() {
    let (mut alloc, _start, _memory) = test_heap(192);
    let third = StdLayout::from_size_align(64, 8).unwrap();
    let whole = StdLayout::from_size_align(192, 8).unwrap();

    let a = alloc.alloc_first_fit(third);
    let b = alloc.alloc_first_fit(third);
    let c = alloc.alloc_first_fit(third);
    assert!(a != 0 && b != 0 && c != 0);

    alloc.dealloc(b, third);
    alloc.dealloc(a, third);
    alloc.dealloc(c, third);

    let reunited = alloc.alloc_first_fit(whole);
    assert!(
        reunited != 0,
        "three adjacent frees, in this order, should still fully coalesce"
    );
}

#[test]
fn respects_alignment_greater_than_default() {
    let (mut alloc, start, _memory) = test_heap(4096);
    let layout = StdLayout::from_size_align(32, 64).unwrap();
    let ptr = alloc.alloc_first_fit(layout);
    assert!(ptr != 0);
    assert_eq!(
        ptr % 64,
        0,
        "returned pointer does not satisfy the requested 64-byte alignment"
    );
    let _ = start;
}

#[test]
fn zero_sized_and_tiny_allocations_still_return_a_valid_distinct_pointer() {
    let (mut alloc, _start, _memory) = test_heap(4096);
    let layout = StdLayout::from_size_align(1, 1).unwrap();
    let p1 = alloc.alloc_first_fit(layout);
    let p2 = alloc.alloc_first_fit(layout);
    assert!(p1 != 0 && p2 != 0);
    assert_ne!(p1, p2);
}
