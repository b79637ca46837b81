//! The boot-time self-test of the frame allocator built from the real
//! memory map: sixteen allocations must all succeed and be distinct, the
//! free counter must follow them, and freeing them all must bring it back.
use vstd::prelude::*;
use vstd::string::StringSliceAdditionalSpecFns;

use crate::frame_allocator::{
    allocated,
    deallocation,
    frame_of,
    lemma_count_free_none,
    lemma_count_free_update,
    none_free,
    same_state,
    FrameAllocator,
};
use crate::phys_addr::{frame_number_of, PhysAddr};
use crate::serial::{hex64_text, push_hex64, push_str};

verus! {

/// The number of frames the self-test allocates.
pub const SELF_TEST_ALLOCATIONS: usize = 16;

/// The text the self-test prints for an allocator with `free` free frames.
pub open spec fn frame_self_test_text(free: nat) -> Seq<u8> {
    let header = "\r\nRunning frame allocator boot self-test...\r\n".spec_bytes();
    let ok_free = "  [OK] Free frames after init: 0x".spec_bytes() + hex64_text(free as u64)
        + "\r\n".spec_bytes();
    if free == 0 {
        header
            + "  FAIL: zero free frames reported — memory map parsing likely broken.\r\n".spec_bytes()
    } else if free < SELF_TEST_ALLOCATIONS {
        header + ok_free + "  FAIL: allocate() returned None unexpectedly early.\r\n".spec_bytes()
    } else {
        header + ok_free + "  [OK] 16 allocations, all frames distinct.\r\n".spec_bytes()
            + "  [OK] frames_free() bookkeeping correct after allocation.\r\n".spec_bytes()
            + "  [OK] All 16 frames freed; frames_free() returned to its original value.\r\n".spec_bytes()
            + "Frame allocator boot self-test: ALL CHECKS PASSED.\r\n".spec_bytes()
    }
}

/// The free map `orig` with the frames of the addresses `taken` marked
/// used.
pub open spec fn with_taken(orig: Seq<bool>, taken: Seq<u64>) -> Seq<bool> {
    Seq::new(
        orig.len(),
        |f: int| orig[f] && !(exists|j: int| 0 <= j < taken.len() && #[trigger] frame_of_raw(taken[j]) == f),
    )
}

/// Run the self-test: it passes exactly when the allocator has at least
/// sixteen free frames, and then leaves the free map and counter as it
/// found them. When it fails, the allocator has no free frame left (it
/// had none, or fewer than sixteen, all of which the test took). Also
/// returns the text to print.
pub fn run_frame_allocator_boot_self_test(allocator: &mut FrameAllocator) -> (r: (bool, Vec<u8>))
    requires
        old(allocator).wf(),
    ensures
        final(allocator).wf(),
        r.0 == (old(allocator).free_count() >= SELF_TEST_ALLOCATIONS),
        r.1@ == frame_self_test_text(old(allocator).free_count()),
        r.0 ==> final(allocator).free_map() == old(allocator).free_map(),
        r.0 ==> final(allocator).free_count() == old(allocator).free_count(),
        !r.0 ==> none_free(final(allocator).free_map()) && final(allocator).free_count() == 0,
{
    let mut out: Vec<u8> = Vec::new();
    push_str(&mut out, "\r\nRunning frame allocator boot self-test...\r\n");
    let free_before = allocator.frames_free();
    let ghost orig = allocator.free_map();
    proof {
        allocator.lemma_wf_facts();
    }
    if free_before == 0 {
        push_str(
            &mut out,
            "  FAIL: zero free frames reported — memory map parsing likely broken.\r\n",
        );
        proof {
            assert(out@ =~= frame_self_test_text(old(allocator).free_count()));
            if !none_free(orig) {
                let f = choose|f: int| 0 <= f < orig.len() && #[trigger] orig[f];
                crate::frame_allocator::lemma_count_free_positive(orig, f);
            }
        }
        return (false, out);
    }
    push_str(&mut out, "  [OK] Free frames after init: 0x");
    push_hex64(&mut out, free_before as u64);
    push_str(&mut out, "\r\n");
    let mut taken: Vec<u64> = Vec::new();
    let mut i: usize = 0;
    while i < SELF_TEST_ALLOCATIONS
        invariant
            allocator.wf(),
            i <= SELF_TEST_ALLOCATIONS,
            taken@.len() == i,
            free_before > 0,
            free_before == old(allocator).free_count(),
            orig == old(allocator).free_map(),
            allocator.total() == old(allocator).total(),
            allocator.free_count() == free_before - i,
            allocator.free_map() == with_taken(orig, taken@),
            forall|j: int|
                0 <= j < i ==> (#[trigger] taken@[j]) % 4096 == 0 && frame_of_raw(taken@[j]) < orig.len()
                    && orig[frame_of_raw(taken@[j])],
            forall|j: int, k: int|
                0 <= j < k < i ==> frame_of_raw(#[trigger] taken@[j]) != frame_of_raw(
                    #[trigger] taken@[k],
                ),
            out@ == "\r\nRunning frame allocator boot self-test...\r\n".spec_bytes()
                + "  [OK] Free frames after init: 0x".spec_bytes() + hex64_text(free_before as u64)
                + "\r\n".spec_bytes(),
        decreases SELF_TEST_ALLOCATIONS - i,
    {
        let ghost before = *allocator;
        proof {
            before.lemma_wf_facts();
        }
        match allocator.allocate() {
            Some(addr) => {
                let a = addr.as_u64();
                proof {
                    let f = frame_of(addr);
                    assert(allocated(before, *allocator, addr));
                    assert(f == frame_of_raw(a));
                    assert forall|j: int| 0 <= j < i implies frame_of_raw(taken@[j]) != frame_of_raw(
                        a,
                    ) by {
                        if frame_of_raw(taken@[j]) == frame_of_raw(a) {
                            assert(!before.free_map()[f]);
                        }
                    }
                    lemma_with_taken_push(orig, taken@, a);
                }
                taken.push(a);
            },
            None => {
                push_str(&mut out, "  FAIL: allocate() returned None unexpectedly early.\r\n");
                proof {
                    lemma_count_free_none(before.free_map());
                    allocator.lemma_wf_facts();
                    assert(before.free_count() == 0);
                    assert(free_before == i);
                    assert(old(allocator).free_count() < SELF_TEST_ALLOCATIONS);
                    assert(old(allocator).free_count() != 0);
                    assert(out@ =~= frame_self_test_text(old(allocator).free_count()));
                }
                return (false, out);
            },
        }
        i = i + 1;
    }
    // Every allocation must have returned a distinct frame.
    let mut j: usize = 0;
    while j < SELF_TEST_ALLOCATIONS
        invariant
            taken@.len() == SELF_TEST_ALLOCATIONS,
            forall|x: int, y: int|
                0 <= x < y < SELF_TEST_ALLOCATIONS ==> frame_of_raw(#[trigger] taken@[x])
                    != frame_of_raw(#[trigger] taken@[y]),
        decreases SELF_TEST_ALLOCATIONS - j,
    {
        let mut k: usize = j + 1;
        while k < SELF_TEST_ALLOCATIONS
            invariant
                j < k <= SELF_TEST_ALLOCATIONS,
                taken@.len() == SELF_TEST_ALLOCATIONS,
                forall|x: int, y: int|
                    0 <= x < y < SELF_TEST_ALLOCATIONS ==> frame_of_raw(#[trigger] taken@[x])
                        != frame_of_raw(#[trigger] taken@[y]),
            decreases SELF_TEST_ALLOCATIONS - k,
        {
            if taken[j] == taken[k] {
                proof {
                    assert(frame_of_raw(taken@[j as int]) != frame_of_raw(taken@[k as int]));
                }
                return (false, out);
            }
            k = k + 1;
        }
        j = j + 1;
    }
    push_str(&mut out, "  [OK] 16 allocations, all frames distinct.\r\n");
    if allocator.frames_free() != free_before - SELF_TEST_ALLOCATIONS {
        return (false, out);
    }
    push_str(&mut out, "  [OK] frames_free() bookkeeping correct after allocation.\r\n");
    proof {
        assert(taken@.subrange(0, 16) =~= taken@);
    }
    // Freeing every allocated frame must succeed.
    let mut j: usize = 0;
    while j < SELF_TEST_ALLOCATIONS
        invariant
            allocator.wf(),
            j <= SELF_TEST_ALLOCATIONS,
            taken@.len() == SELF_TEST_ALLOCATIONS,
            orig == old(allocator).free_map(),
            free_before == old(allocator).free_count(),
            allocator.total() == old(allocator).total(),
            orig.len() == old(allocator).total(),
            allocator.free_count() == free_before - SELF_TEST_ALLOCATIONS + j,
            allocator.free_map() == with_taken(orig, taken@.subrange(j as int, 16)),
            forall|x: int|
                0 <= x < 16 ==> (#[trigger] taken@[x]) % 4096 == 0 && frame_of_raw(taken@[x])
                    < orig.len() && orig[frame_of_raw(taken@[x])],
            forall|x: int, y: int|
                0 <= x < y < SELF_TEST_ALLOCATIONS ==> frame_of_raw(#[trigger] taken@[x])
                    != frame_of_raw(#[trigger] taken@[y]),
        decreases SELF_TEST_ALLOCATIONS - j,
    {
        let ghost before = *allocator;
        let addr = PhysAddr::new(taken[j]);
        let ghost rest = taken@.subrange(j as int, 16);
        proof {
            before.lemma_wf_facts();
            let f = frame_of_raw(taken@[j as int]);
            assert(rest[0] == taken@[j as int]);
            assert(frame_of_raw(rest[0]) == f);
            assert(!before.free_map()[f]);
            assert(frame_number_of(addr@) as int == f);
            assert forall|k: int| 0 < k < rest.len() implies frame_of_raw(#[trigger] rest[k]) != f by {
                assert(rest[k] == taken@[j + k]);
            }
            lemma_with_taken_pop(orig, rest);
            assert(rest.drop_first() =~= taken@.subrange(j + 1, 16));
        }
        let result = allocator.deallocate(addr);
        if result.is_err() {
            proof {
                assert(deallocation(before, *allocator, addr, result));
            }
            return (false, out);
        }
        j = j + 1;
    }
    proof {
        allocator.lemma_wf_facts();
        assert(taken@.subrange(16, 16) =~= Seq::<u64>::empty());
        assert(allocator.free_map() =~= orig);
    }
    if allocator.frames_free() != free_before {
        return (false, out);
    }
    push_str(
        &mut out,
        "  [OK] All 16 frames freed; frames_free() returned to its original value.\r\n",
    );
    push_str(&mut out, "Frame allocator boot self-test: ALL CHECKS PASSED.\r\n");
    proof {
        assert(out@ =~= frame_self_test_text(old(allocator).free_count()));
    }
    (true, out)
}

/// Marking the frame of one more address used extends the set of taken
/// addresses.
proof fn lemma_with_taken_push(orig: Seq<bool>, taken: Seq<u64>, a: u64)
    requires
        0 <= frame_of_raw(a) < orig.len(),
    ensures
        with_taken(orig, taken).update(frame_of_raw(a), false) == with_taken(orig, taken.push(a)),
{
    let t2 = taken.push(a);
    let f = frame_of_raw(a);
    assert forall|g: int| 0 <= g < orig.len() implies #[trigger] with_taken(orig, taken).update(
        f,
        false,
    )[g] == with_taken(orig, t2)[g] by {
        assert(t2[taken.len() as int] == a);
        if g != f {
            if exists|j: int| 0 <= j < t2.len() && #[trigger] frame_of_raw(t2[j]) == g {
                let j = choose|j: int| 0 <= j < t2.len() && #[trigger] frame_of_raw(t2[j]) == g;
                assert(t2[j] == taken[j]);
                assert(frame_of_raw(taken[j]) == g);
            }
            if exists|j: int| 0 <= j < taken.len() && #[trigger] frame_of_raw(taken[j]) == g {
                let j = choose|j: int| 0 <= j < taken.len() && #[trigger] frame_of_raw(taken[j]) == g;
                assert(t2[j] == taken[j]);
                assert(frame_of_raw(t2[j]) == g);
            }
        }
    }
    assert(with_taken(orig, taken).update(f, false) =~= with_taken(orig, t2));
}

/// Freeing the frame of the first taken address, whose frame no other taken
/// address shares, drops it from the taken addresses.
proof fn lemma_with_taken_pop(orig: Seq<bool>, taken: Seq<u64>)
    requires
        taken.len() > 0,
        0 <= frame_of_raw(taken[0]) < orig.len(),
        orig[frame_of_raw(taken[0])],
        forall|k: int| 0 < k < taken.len() ==> frame_of_raw(#[trigger] taken[k]) != frame_of_raw(
            taken[0],
        ),
    ensures
        with_taken(orig, taken).update(frame_of_raw(taken[0]), true) == with_taken(
            orig,
            taken.drop_first(),
        ),
{
    let t2 = taken.drop_first();
    let f = frame_of_raw(taken[0]);
    assert forall|g: int| 0 <= g < orig.len() implies #[trigger] with_taken(orig, taken).update(
        f,
        true,
    )[g] == with_taken(orig, t2)[g] by {
        if g == f {
            if exists|j: int| 0 <= j < t2.len() && #[trigger] frame_of_raw(t2[j]) == g {
                let j = choose|j: int| 0 <= j < t2.len() && #[trigger] frame_of_raw(t2[j]) == g;
                assert(t2[j] == taken[j + 1]);
            }
        } else {
            if exists|j: int| 0 <= j < t2.len() && #[trigger] frame_of_raw(t2[j]) == g {
                let j = choose|j: int| 0 <= j < t2.len() && #[trigger] frame_of_raw(t2[j]) == g;
                assert(t2[j] == taken[j + 1]);
                assert(frame_of_raw(taken[j + 1]) == g);
            }
            if exists|j: int| 0 <= j < taken.len() && #[trigger] frame_of_raw(taken[j]) == g {
                let j = choose|j: int| 0 <= j < taken.len() && #[trigger] frame_of_raw(taken[j]) == g;
                assert(j > 0);
                assert(t2[j - 1] == taken[j]);
                assert(frame_of_raw(t2[j - 1]) == g);
            }
        }
    }
    assert(with_taken(orig, taken).update(f, true) =~= with_taken(orig, t2));
}

/// The frame an address handed out by the allocator starts.
pub open spec fn frame_of_raw(a: u64) -> int {
    (a / 4096) as int
}

} // verus!
