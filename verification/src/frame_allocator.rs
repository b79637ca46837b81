//! Bitmap physical frame allocator: one bit per 4 KiB frame, `0` = free,
//! `1` = used.
use vstd::prelude::*;

use crate::boot_info::BootInfo;
use crate::memory_map::{
    descriptors_readable,
    entry_end,
    map_entries,
    MemoryMapEntry,
    MemoryMapIter,
    EFI_CONVENTIONAL_MEMORY,
};
use crate::phys_addr::{frame_number_of, PhysAddr, FRAME_SIZE};
use vstd::arithmetic::div_mod::{
    lemma_mod_add_multiples_vanish,
    lemma_mod_sub_multiples_vanish,
    lemma_small_mod,
};

verus! {

/// Sanity bound on the bitmap's size (about 2 TiB of tracked RAM at one bit
/// per frame). A memory map implying more is treated as corrupt.
pub const MAX_BITMAP_BYTES: usize = 67108864;

/// The most frames an allocator can track: eight per bitmap byte.
pub const MAX_TRACKED_FRAMES: usize = 536870912;

/// Physical addresses at or above this are outside the bootloader's
/// identity map (the first 4 GiB) and cannot be dereferenced directly.
pub const IDENTITY_MAP_LIMIT: u64 = 0x1_0000_0000;

#[derive(Debug, Clone, Copy, PartialEq, Eq, Structural)]
pub enum InitError {
    /// The memory map's recorded size cannot hold the entries it claims, or
    /// no entry describes a usable region.
    InconsistentMemoryMap,
    /// No conventional region entirely below `IDENTITY_MAP_LIMIT` can hold
    /// the bitmap.
    NoSuitableBitmapRegion,
    /// The memory map implies more memory than `MAX_BITMAP_BYTES` tracks.
    ImpliedAddressSpaceTooLarge,
}

#[derive(Debug, Clone, Copy, PartialEq, Eq, Structural)]
pub enum DeallocError {
    /// The address's frame number is beyond every tracked frame.
    OutOfRange,
    /// The frame was already free.
    DoubleFree,
}

// ---------------------------------------------------------------------------
// The bit model of one bitmap byte.
// ---------------------------------------------------------------------------

/// Bit `k` of byte `b` is clear.
pub open spec fn bit_clear(b: u8, k: u8) -> bool {
    (b >> k) & 1u8 == 0u8
}

proof fn lemma_byte_bits(b: u8, k: u8, j: u8)
    requires
        k < 8,
        j < 8,
    ensures
        (b & (1u8 << k) == 0u8) == bit_clear(b, k),
        bit_clear(b | (1u8 << k), j) == (j != k && bit_clear(b, j)),
        bit_clear(b & !(1u8 << k), j) == (j == k || bit_clear(b, j)),
        !bit_clear(0xffu8, j),
        bit_clear(0u8, j),
{
    assert((b & (1u8 << k) == 0u8) == ((b >> k) & 1u8 == 0u8)) by (bit_vector)
        requires
            k < 8,
    ;
    assert((((b | (1u8 << k)) >> j) & 1u8 == 0u8) == (j != k && (b >> j) & 1u8 == 0u8))
        by (bit_vector)
        requires
            k < 8,
            j < 8,
    ;
    assert((((b & !(1u8 << k)) >> j) & 1u8 == 0u8) == (j == k || (b >> j) & 1u8 == 0u8))
        by (bit_vector)
        requires
            k < 8,
            j < 8,
    ;
    assert(((0xffu8 >> j) & 1u8) != 0u8) by (bit_vector)
        requires
            j < 8,
    ;
    assert(((0u8 >> j) & 1u8) == 0u8) by (bit_vector);
}

/// Frame `f` is free in `bitmap`.
pub open spec fn frame_bit_free(bitmap: Seq<u8>, f: int) -> bool {
    bit_clear(bitmap[f / 8], (f % 8) as u8)
}

/// The per-frame free map that `bitmap` encodes for its first `total`
/// frames.
pub open spec fn decode_bitmap(bitmap: Seq<u8>, total: nat) -> Seq<bool> {
    Seq::new(total, |f: int| frame_bit_free(bitmap, f))
}

/// The number of bytes a bitmap over `total` frames occupies.
pub open spec fn bitmap_bytes_for(total: int) -> int {
    (total + 7) / 8
}

// ---------------------------------------------------------------------------
// Counting free frames.
// ---------------------------------------------------------------------------

/// The number of `true` entries of `s`.
pub open spec fn count_free(s: Seq<bool>) -> nat
    decreases s.len(),
{
    if s.len() == 0 {
        0
    } else {
        count_free(s.drop_last()) + if s.last() {
            1nat
        } else {
            0nat
        }
    }
}

pub proof fn lemma_count_free_bounded(s: Seq<bool>)
    ensures
        count_free(s) <= s.len(),
    decreases s.len(),
{
    if s.len() > 0 {
        lemma_count_free_bounded(s.drop_last());
    }
}

pub proof fn lemma_count_free_all(n: nat, v: bool)
    ensures
        count_free(Seq::new(n, |i: int| v)) == if v {
            n
        } else {
            0
        },
    decreases n,
{
    if n > 0 {
        let s = Seq::new(n, |i: int| v);
        assert(s.drop_last() =~= Seq::new((n - 1) as nat, |i: int| v));
        lemma_count_free_all((n - 1) as nat, v);
    }
}

/// Changing one entry changes the count by the difference it makes.
pub proof fn lemma_count_free_update(s: Seq<bool>, i: int, v: bool)
    requires
        0 <= i < s.len(),
    ensures
        count_free(s.update(i, v)) + (if s[i] {
            1int
        } else {
            0int
        }) == count_free(s) + (if v {
            1int
        } else {
            0int
        }),
    decreases s.len(),
{
    let t = s.update(i, v);
    if i == s.len() - 1 {
        assert(t.drop_last() =~= s.drop_last());
    } else {
        assert(t.drop_last() =~= s.drop_last().update(i, v));
        lemma_count_free_update(s.drop_last(), i, v);
    }
}

/// A sequence with no `true` entry counts zero.
pub proof fn lemma_count_free_none(s: Seq<bool>)
    requires
        none_free(s),
    ensures
        count_free(s) == 0,
    decreases s.len(),
{
    if s.len() > 0 {
        assert(none_free(s.drop_last())) by {
            assert forall|f: int| 0 <= f < s.drop_last().len() implies !#[trigger] s.drop_last()[f] by {
                assert(s.drop_last()[f] == s[f]);
            }
        }
        lemma_count_free_none(s.drop_last());
        assert(!s[s.len() - 1]);
    }
}

/// A sequence with a `true` entry has a positive count.
pub proof fn lemma_count_free_positive(s: Seq<bool>, i: int)
    requires
        0 <= i < s.len(),
        s[i],
    ensures
        count_free(s) >= 1,
{
    lemma_count_free_update(s, i, false);
}

// ---------------------------------------------------------------------------
// The allocator.
// ---------------------------------------------------------------------------

/// A bitmap-based physical frame allocator.
pub struct FrameAllocator {
    bitmap: Vec<u8>,
    total_frames: usize,
    frames_free: usize,
    /// Where the next `allocate` scan starts: a heuristic only, so that
    /// repeated allocations do not all rescan from frame zero.
    next_hint: usize,
}

/// `d` is the number of steps from `from` forward, wrapping at `total`, to
/// `to`.
pub open spec fn cyclic_distance(from: int, to: int, total: int) -> int {
    (to - from + total) % total
}

/// In `free`, frame `f` is the first free frame met when scanning from
/// `hint` forward and wrapping around.
pub open spec fn first_free_from(free: Seq<bool>, hint: int, f: int) -> bool {
    &&& 0 <= f < free.len()
    &&& free[f]
    &&& forall|p: int|
        0 <= p < cyclic_distance(hint, f, free.len() as int) ==> !#[trigger] free[(hint + p)
            % (free.len() as int)]
}

/// In `free`, frame `f` is the lowest free frame below `bound`.
pub open spec fn lowest_free_below(free: Seq<bool>, bound: int, f: int) -> bool {
    &&& 0 <= f < bound
    &&& f < free.len()
    &&& free[f]
    &&& forall|p: int| 0 <= p < f ==> !#[trigger] free[p]
}

/// No frame of `free` is free.
pub open spec fn none_free(free: Seq<bool>) -> bool {
    forall|f: int| 0 <= f < free.len() ==> !#[trigger] free[f]
}

/// Facts about stepping around a ring of `t` frames.
proof fn lemma_cyclic(h: int, o: int, f: int, t: int)
    requires
        0 <= h < t,
        0 <= o < t,
        0 <= f < t,
    ensures
        0 <= cyclic_distance(h, f, t) < t,
        (h + cyclic_distance(h, f, t)) % t == f,
        cyclic_distance(h, (h + o) % t, t) == o,
        0 <= (h + o) % t < t,
{
    if f >= h {
        lemma_mod_add_multiples_vanish(f - h, t);
        lemma_small_mod((f - h) as nat, t as nat);
        lemma_small_mod(f as nat, t as nat);
    } else {
        lemma_small_mod((f - h + t) as nat, t as nat);
        lemma_mod_add_multiples_vanish(f, t);
        lemma_small_mod(f as nat, t as nat);
    }
    if h + o < t {
        lemma_small_mod((h + o) as nat, t as nat);
        lemma_mod_add_multiples_vanish(o, t);
        lemma_small_mod(o as nat, t as nat);
    } else {
        lemma_mod_sub_multiples_vanish(h + o, t);
        lemma_small_mod((h + o - t) as nat, t as nat);
        lemma_small_mod(o as nat, t as nat);
    }
}

/// `after` is `before` with frame `f`, free in `before`, now used, and the
/// counter one lower: the effect common to `allocate` and `allocate_below`.
pub open spec fn takes_frame(before: FrameAllocator, after: FrameAllocator, f: int) -> bool {
    &&& 0 <= f < before.total()
    &&& before.free_map()[f]
    &&& after.free_map() == before.free_map().update(f, false)
    &&& after.total() == before.total()
    &&& after.free_count() + 1 == before.free_count()
}

/// The frame an address handed out by the allocator stands for.
pub open spec fn frame_of(addr: PhysAddr) -> int {
    (addr@ / FRAME_SIZE) as int
}

/// `allocate` handed out `addr`, taking `before` to `after`: `addr` is the
/// start of the first free frame at or after the scan hint (wrapping), and
/// the hint moves just past it.
pub open spec fn allocated(before: FrameAllocator, after: FrameAllocator, addr: PhysAddr) -> bool {
    &&& addr@ % FRAME_SIZE == 0
    &&& first_free_from(before.free_map(), before.hint(), frame_of(addr))
    &&& takes_frame(before, after, frame_of(addr))
    &&& after.hint() == (frame_of(addr) + 1) % (before.total() as int)
}

/// `allocate_below(limit)` handed out `addr`, taking `before` to `after`:
/// `addr` is the start of the lowest free frame below both the tracked
/// range and `limit`'s frame; the hint is untouched.
pub open spec fn allocated_below(
    before: FrameAllocator,
    after: FrameAllocator,
    limit: PhysAddr,
    addr: PhysAddr,
) -> bool {
    &&& addr@ % FRAME_SIZE == 0
    &&& lowest_free_below(before.free_map(), below_bound(before, limit), frame_of(addr))
    &&& takes_frame(before, after, frame_of(addr))
    &&& after.hint() == before.hint()
}

/// The frames `allocate_below(limit)` may hand out are those below this.
pub open spec fn below_bound(a: FrameAllocator, limit: PhysAddr) -> int {
    let l = frame_number_of(limit@) as int;
    if a.total() < l {
        a.total() as int
    } else {
        l
    }
}

/// The allocator's observable state is the same in `a` and `b`.
pub open spec fn same_state(a: FrameAllocator, b: FrameAllocator) -> bool {
    &&& a.free_map() == b.free_map()
    &&& a.total() == b.total()
    &&& a.free_count() == b.free_count()
    &&& a.hint() == b.hint()
}

/// `deallocate(addr)` returned `r`, taking `before` to `after`.
pub open spec fn deallocation(
    before: FrameAllocator,
    after: FrameAllocator,
    addr: PhysAddr,
    r: Result<(), DeallocError>,
) -> bool {
    let f = frame_number_of(addr@) as int;
    match r {
        Err(DeallocError::OutOfRange) => f >= before.total() && same_state(before, after),
        Err(DeallocError::DoubleFree) => {
            &&& f < before.total()
            &&& before.free_map()[f]
            &&& same_state(before, after)
        },
        Ok(()) => {
            &&& f < before.total()
            &&& !before.free_map()[f]
            &&& after.free_map() == before.free_map().update(f, true)
            &&& after.total() == before.total()
            &&& after.free_count() == before.free_count() + 1
            &&& after.hint() == before.hint()
        },
    }
}

impl FrameAllocator {
    /// The per-frame free map: entry `f` is `true` when frame `f` is free.
    pub closed spec fn free_map(&self) -> Seq<bool> {
        decode_bitmap(self.bitmap@, self.total_frames as nat)
    }

    /// The frame the next `allocate` scan starts from.
    pub closed spec fn hint(&self) -> int {
        self.next_hint as int
    }

    /// The number of frames tracked.
    pub closed spec fn total(&self) -> nat {
        self.total_frames as nat
    }

    /// The free-frame counter.
    pub closed spec fn free_count(&self) -> nat {
        self.frames_free as nat
    }

    /// The allocator's invariant: the bitmap covers exactly the tracked
    /// frames, the counter equals the number of free frames, and the scan
    /// hint is a tracked frame.
    pub closed spec fn wf(&self) -> bool {
        &&& self.total_frames <= MAX_TRACKED_FRAMES
        &&& self.bitmap@.len() == bitmap_bytes_for(self.total_frames as int)
        &&& self.frames_free == count_free(self.free_map())
        &&& (self.total_frames == 0 || self.next_hint < self.total_frames)
        &&& (self.total_frames == 0 ==> self.next_hint == 0)
    }

    /// What the allocator's public state says: the counter is the number of
    /// free frames and the free map covers the tracked frames.
    pub proof fn lemma_wf_facts(&self)
        requires
            self.wf(),
        ensures
            self.free_map().len() == self.total(),
            self.free_count() == count_free(self.free_map()),
            self.total() <= MAX_TRACKED_FRAMES,
            self.total() == 0 || self.hint() < self.total(),
            0 <= self.hint(),
    {
    }

    /// An allocator tracking `total_frames` frames, every one free.
    pub fn with_all_frames_free(total_frames: usize) -> (r: Self)
        requires
            total_frames <= MAX_TRACKED_FRAMES,
        ensures
            r.wf(),
            r.total() == total_frames,
            r.free_map() == Seq::new(total_frames as nat, |f: int| true),
            r.free_count() == total_frames,
            r.hint() == 0,
    {
        let bytes = (total_frames + 7) / 8;
        let bitmap: Vec<u8> = vec![0u8; bytes];
        let r = FrameAllocator { bitmap, total_frames, frames_free: total_frames, next_hint: 0 };
        proof {
            assert forall|f: int| 0 <= f < total_frames implies frame_bit_free(bitmap@, f) by {
                assert(bitmap@[f / 8] == 0u8);
                lemma_byte_bits(0u8, 0u8, (f % 8) as u8);
            }
            assert(r.free_map() =~= Seq::new(total_frames as nat, |f: int| true));
            lemma_count_free_all(total_frames as nat, true);
        }
        r
    }

    /// True when frame `frame` is free.
    pub fn is_free(&self, frame: usize) -> (r: bool)
        requires
            self.wf(),
            frame < self.total(),
        ensures
            r == self.free_map()[frame as int],
    {
        let k: u8 = (frame % 8) as u8;
        proof {
            lemma_byte_bits(self.bitmap@[(frame / 8) as int], k, k);
        }
        (self.bitmap[frame / 8] & (1u8 << k)) == 0
    }

    /// Mark frame `frame` used, keeping the free counter exact.
    pub fn mark_used(&mut self, frame: usize)
        requires
            old(self).wf(),
            frame < old(self).total(),
        ensures
            final(self).wf(),
            final(self).free_map() == old(self).free_map().update(frame as int, false),
            final(self).total() == old(self).total(),
            final(self).hint() == old(self).hint(),
    {
        let ghost old_map = self.free_map();
        let was_free = self.is_free(frame);
        if was_free {
            proof {
                lemma_count_free_positive(old_map, frame as int);
            }
            self.frames_free = self.frames_free - 1;
        }
        let k: u8 = (frame % 8) as u8;
        let idx = frame / 8;
        let b = self.bitmap[idx];
        self.bitmap.set(idx, b | (1u8 << k));
        proof {
            assert forall|f: int| 0 <= f < self.total_frames implies #[trigger] frame_bit_free(
                self.bitmap@,
                f,
            ) == old_map.update(frame as int, false)[f] by {
                lemma_byte_bits(b, k, (f % 8) as u8);
            }
            assert(self.free_map() =~= old_map.update(frame as int, false));
            lemma_count_free_update(old_map, frame as int, false);
        }
    }

    /// Mark frame `frame` free, keeping the free counter exact.
    pub fn mark_free(&mut self, frame: usize)
        requires
            old(self).wf(),
            frame < old(self).total(),
        ensures
            final(self).wf(),
            final(self).free_map() == old(self).free_map().update(frame as int, true),
            final(self).total() == old(self).total(),
            final(self).hint() == old(self).hint(),
    {
        let ghost old_map = self.free_map();
        let was_free = self.is_free(frame);
        proof {
            lemma_count_free_update(old_map, frame as int, true);
            lemma_count_free_bounded(old_map.update(frame as int, true));
        }
        if !was_free {
            self.frames_free = self.frames_free + 1;
        }
        let k: u8 = (frame % 8) as u8;
        let idx = frame / 8;
        let b = self.bitmap[idx];
        self.bitmap.set(idx, b & !(1u8 << k));
        proof {
            assert forall|f: int| 0 <= f < self.total_frames implies #[trigger] frame_bit_free(
                self.bitmap@,
                f,
            ) == old_map.update(frame as int, true)[f] by {
                lemma_byte_bits(b, k, (f % 8) as u8);
            }
            assert(self.free_map() =~= old_map.update(frame as int, true));
        }
    }

    /// Allocate one free frame: the first free one found scanning from the
    /// hint and wrapping around; `None` when every tracked frame is used.
    pub fn allocate(&mut self) -> (r: Option<PhysAddr>)
        requires
            old(self).wf(),
        ensures
            final(self).wf(),
            match r {
                None => none_free(old(self).free_map()) && same_state(*old(self), *final(self)),
                Some(a) => allocated(*old(self), *final(self), a),
            },
    {
        let total = self.total_frames;
        if total == 0 {
            return None;
        }
        let ghost before = *self;
        let mut offset: usize = 0;
        while offset < total
            invariant
                self.wf(),
                *self == before,
                before == *old(self),
                total == self.total_frames,
                0 < total,
                offset <= total,
                forall|p: int|
                    0 <= p < offset ==> !#[trigger] self.free_map()[(self.next_hint + p) % (
                    total as int)],
            decreases total - offset,
        {
            let frame = (self.next_hint + offset) % total;
            proof {
                lemma_cyclic(self.next_hint as int, offset as int, 0, total as int);
            }
            if self.is_free(frame) {
                let ghost map0 = self.free_map();
                proof {
                    lemma_count_free_update(map0, frame as int, false);
                }
                self.mark_used(frame);
                self.next_hint = (frame + 1) % total;
                let a = PhysAddr::from_frame_number(frame);
                proof {
                    assert(self.free_map() == map0.update(frame as int, false));
                    assert((frame * 4096) / 4096 == frame) by (nonlinear_arith);
                    assert(frame_of(a) == frame);
                }
                return Some(a);
            }
            offset = offset + 1;
        }
        proof {
            assert forall|f: int| 0 <= f < total implies !#[trigger] self.free_map()[f] by {
                lemma_cyclic(self.next_hint as int, 0, f, total as int);
                let p = cyclic_distance(self.next_hint as int, f, total as int);
                assert(!self.free_map()[(self.next_hint + p) % (total as int)]);
            }
        }
        None
    }

    /// Free a previously allocated frame: refused as `OutOfRange` when the
    /// address's frame is not tracked, and as `DoubleFree` when it is
    /// already free.
    pub fn deallocate(&mut self, addr: PhysAddr) -> (r: Result<(), DeallocError>)
        requires
            old(self).wf(),
        ensures
            final(self).wf(),
            deallocation(*old(self), *final(self), addr, r),
    {
        let frame = addr.frame_number();
        if frame >= self.total_frames {
            return Err(DeallocError::OutOfRange);
        }
        if self.is_free(frame) {
            return Err(DeallocError::DoubleFree);
        }
        let ghost map0 = self.free_map();
        proof {
            lemma_count_free_update(map0, frame as int, true);
        }
        self.mark_free(frame);
        Ok(())
    }

    /// Allocate one free frame whose address is strictly below `limit`:
    /// the lowest such frame; `None` when there is none.
    pub fn allocate_below(&mut self, limit: PhysAddr) -> (r: Option<PhysAddr>)
        requires
            old(self).wf(),
        ensures
            final(self).wf(),
            match r {
                None => {
                    &&& forall|f: int|
                        0 <= f < below_bound(*old(self), limit) ==> !#[trigger] old(
                            self,
                        ).free_map()[f]
                    &&& same_state(*old(self), *final(self))
                },
                Some(a) => allocated_below(*old(self), *final(self), limit, a),
            },
    {
        let limit_frame = limit.frame_number();
        let bound = if self.total_frames < limit_frame {
            self.total_frames
        } else {
            limit_frame
        };
        let ghost before = *self;
        let mut frame: usize = 0;
        while frame < bound
            invariant
                self.wf(),
                *self == before,
                before == *old(self),
                bound == below_bound(before, limit),
                bound <= self.total_frames,
                frame <= bound,
                forall|p: int| 0 <= p < frame ==> !#[trigger] self.free_map()[p],
            decreases bound - frame,
        {
            if self.is_free(frame) {
                let ghost map0 = self.free_map();
                proof {
                    lemma_count_free_update(map0, frame as int, false);
                }
                self.mark_used(frame);
                let a = PhysAddr::from_frame_number(frame);
                proof {
                    assert((frame * 4096) / 4096 == frame) by (nonlinear_arith);
                    assert(frame_of(a) == frame);
                }
                return Some(a);
            }
            frame = frame + 1;
        }
        None
    }

    pub fn total_frames(&self) -> (r: usize)
        ensures
            r == self.total(),
    {
        self.total_frames
    }

    pub fn frames_free(&self) -> (r: usize)
        ensures
            r == self.free_count(),
    {
        self.frames_free
    }
}

// ---------------------------------------------------------------------------
// Building an allocator from the memory map.
// ---------------------------------------------------------------------------

/// An entry that can be trusted at all: non-empty, frame-aligned, and with
/// an end address that fits in a `u64`.
pub open spec fn usable_entry(e: MemoryMapEntry) -> bool {
    &&& e.number_of_pages != 0
    &&& e.physical_start@ % FRAME_SIZE == 0
    &&& entry_end(e) is Some
}

/// The highest end address of any usable entry of `s`, or 0 if none.
pub open spec fn highest_end(s: Seq<MemoryMapEntry>) -> int
    decreases s.len(),
{
    if s.len() == 0 {
        0
    } else {
        let h = highest_end(s.drop_last());
        let e = s.last();
        if usable_entry(e) && entry_end(e)->0 > h {
            entry_end(e)->0 as int
        } else {
            h
        }
    }
}

/// `e` can host a bitmap of `bytes` bytes: a usable conventional region,
/// entirely below `IDENTITY_MAP_LIMIT`, at least that large.
pub open spec fn bitmap_host(e: MemoryMapEntry, bytes: int) -> bool {
    &&& e.typ == EFI_CONVENTIONAL_MEMORY
    &&& usable_entry(e)
    &&& entry_end(e)->0 <= IDENTITY_MAP_LIMIT
    &&& entry_end(e)->0 - e.physical_start@ >= bytes
}

/// Entry `i` is the first of `s` that can host a bitmap of `bytes` bytes.
pub open spec fn first_bitmap_host(s: Seq<MemoryMapEntry>, bytes: int, i: int) -> bool {
    &&& 0 <= i < s.len()
    &&& bitmap_host(s[i], bytes)
    &&& forall|j: int| 0 <= j < i ==> !#[trigger] bitmap_host(s[j], bytes)
}

/// Entry `e` is conventional memory that marks frame `f` free.
pub open spec fn covers_frame(e: MemoryMapEntry, f: int) -> bool {
    &&& e.typ == EFI_CONVENTIONAL_MEMORY
    &&& usable_entry(e)
    &&& frame_number_of(e.physical_start@) <= f
    &&& f < frame_number_of(e.physical_start@) + ((
    #[verifier::truncate]
    (e.number_of_pages as usize)) as int)
}

/// Some entry of `s` marks frame `f` free.
pub open spec fn conventional_frame(s: Seq<MemoryMapEntry>, f: int) -> bool {
    exists|j: int| 0 <= j < s.len() && #[trigger] covers_frame(s[j], f)
}

/// The number of frames a bitmap of `bytes` bytes occupies.
pub open spec fn bitmap_frame_count(bytes: int) -> int {
    (bytes + 4095) / 4096
}

/// The memory map header's fields, as the allocator reads them.
pub open spec fn map_entry_count(bi: BootInfo) -> usize {
    #[verifier::truncate]
    (bi.memory_map_entry_count as usize)
}

pub open spec fn map_descriptor_size(bi: BootInfo) -> usize {
    #[verifier::truncate]
    (bi.memory_map_descriptor_size as usize)
}

pub open spec fn map_size_bytes(bi: BootInfo) -> usize {
    #[verifier::truncate]
    (bi.memory_map_size_bytes as usize)
}

/// The header's recorded size can hold the entries it claims.
pub open spec fn header_consistent(bi: BootInfo) -> bool {
    let claimed = map_entry_count(bi) * map_descriptor_size(bi);
    claimed <= usize::MAX && claimed <= map_size_bytes(bi)
}

/// The entries of the memory map in `bytes` that `bi` describes.
pub open spec fn boot_map_entries(bi: BootInfo, bytes: Seq<u8>) -> Seq<MemoryMapEntry> {
    map_entries(bytes, map_descriptor_size(bi) as int, map_entry_count(bi) as int)
}

/// The number of frames an allocator built from this map tracks.
pub open spec fn init_total_frames(bi: BootInfo, bytes: Seq<u8>) -> int {
    (#[verifier::truncate]
    ((highest_end(boot_map_entries(bi, bytes)) / 4096) as usize)) as int
}

/// What `FrameAllocator::init` answers for this map: `Ok(())` when it
/// builds an allocator, else the error it reports.
pub open spec fn init_outcome(bi: BootInfo, bytes: Seq<u8>) -> Result<(), InitError> {
    let entries = boot_map_entries(bi, bytes);
    let bb = bitmap_bytes_for(init_total_frames(bi, bytes));
    if !header_consistent(bi) || highest_end(entries) == 0 {
        Err(InitError::InconsistentMemoryMap)
    } else if bb == 0 || bb > MAX_BITMAP_BYTES {
        Err(InitError::ImpliedAddressSpaceTooLarge)
    } else if !(exists|i: int| 0 <= i < entries.len() && #[trigger] bitmap_host(entries[i], bb)) {
        Err(InitError::NoSuitableBitmapRegion)
    } else {
        Ok(())
    }
}

/// The free map of an allocator built from this map whose bitmap sits at
/// `bitmap_start`: the frames some conventional entry covers, less the
/// bitmap's own frames.
pub open spec fn init_free_map(bi: BootInfo, bytes: Seq<u8>, bitmap_start: u64) -> Seq<bool> {
    let entries = boot_map_entries(bi, bytes);
    let total = init_total_frames(bi, bytes);
    let bsf = frame_number_of(bitmap_start) as int;
    let bcount = bitmap_frame_count(bitmap_bytes_for(total));
    Seq::new(
        total as nat,
        |f: int| conventional_frame(entries, f) && !(bsf <= f < bsf + bcount),
    )
}

/// An allocator built from this map with its bitmap at `start` (page
/// aligned, below `IDENTITY_MAP_LIMIT` as every bitmap host is) holds every frame the bitmap's bytes occupy used: the frames
/// from `start`'s frame up to the one holding the bitmap's last byte, the
/// bitmap taking one bit per tracked frame.
pub proof fn lemma_init_reserves_its_bitmap(bi: BootInfo, bytes: Seq<u8>, start: u64, free: Seq<bool>)
    requires
        start % 4096 == 0,
        start < IDENTITY_MAP_LIMIT,
        free == init_free_map(bi, bytes, start),
    ensures
        free.len() == init_total_frames(bi, bytes),
        forall|f: int|
            start / 4096 <= f < (start + (free.len() + 7) / 8 + 4095) / 4096 && f < free.len()
                ==> !#[trigger] free[f],
{
    let total = init_total_frames(bi, bytes);
    let bb = (total + 7) / 8;
    assert(start / 4096 < 0x10_0000);
    assert(frame_number_of(start) as int == start / 4096);
    assert((start + bb + 4095) / 4096 == start / 4096 + (bb + 4095) / 4096) by (nonlinear_arith)
        requires
            start % 4096 == 0,
            bb >= 0,
    ;
}

/// `highest_end` is the greatest end address of a usable entry (0 when
/// there is none).
pub proof fn lemma_highest_end_is_greatest(s: Seq<MemoryMapEntry>)
    ensures
        forall|i: int|
            0 <= i < s.len() && usable_entry(#[trigger] s[i]) ==> entry_end(s[i])->0 <= highest_end(
                s,
            ),
        highest_end(s) == 0 || exists|i: int|
            0 <= i < s.len() && usable_entry(#[trigger] s[i]) && entry_end(s[i])->0 == highest_end(
                s,
            ),
    decreases s.len(),
{
    if s.len() > 0 {
        let p = s.drop_last();
        lemma_highest_end_is_greatest(p);
        assert forall|i: int| 0 <= i < s.len() && usable_entry(#[trigger] s[i]) implies entry_end(
            s[i],
        )->0 <= highest_end(s) by {
            if i < s.len() - 1 {
                assert(s[i] == p[i]);
            }
        }
        if highest_end(s) != 0 && highest_end(s) == highest_end(p) {
            let i = choose|i: int|
                0 <= i < p.len() && usable_entry(#[trigger] p[i]) && entry_end(p[i])->0
                    == highest_end(p);
            assert(s[i] == p[i]);
        }
        if highest_end(s) != highest_end(p) {
            assert(usable_entry(s[s.len() - 1]));
        }
    }
}

/// The free map of an allocator built from this map (bitmap at `start`):
/// it tracks the frames below the greatest end address of a usable entry,
/// and a frame is free exactly when a usable conventional entry covers it
/// and the bitmap does not (frame numbers and page counts fitting in a
/// `usize`, as they all do on a 64-bit target).
pub proof fn lemma_init_free_frames(bi: BootInfo, bytes: Seq<u8>, start: u64, free: Seq<bool>)
    requires
        start % 4096 == 0,
        start < IDENTITY_MAP_LIMIT,
        free == init_free_map(bi, bytes, start),
        highest_end(boot_map_entries(bi, bytes)) / 4096 <= usize::MAX,
        forall|j: int|
            0 <= j < boot_map_entries(bi, bytes).len() ==> (#[trigger] boot_map_entries(
                bi,
                bytes,
            )[j]).number_of_pages <= usize::MAX && boot_map_entries(bi, bytes)[j].physical_start@
                / 4096 <= usize::MAX,
    ensures
        free.len() * 4096 <= highest_end(boot_map_entries(bi, bytes)) < free.len() * 4096 + 4096,
        forall|f: int|
            0 <= f < free.len() ==> (#[trigger] free[f] <==> (!(start / 4096 <= f < (start + (
            free.len() + 7) / 8 + 4095) / 4096) && exists|j: int|
                0 <= j < boot_map_entries(bi, bytes).len() && {
                    let e = #[trigger] boot_map_entries(bi, bytes)[j];
                    &&& e.typ == 7
                    &&& e.number_of_pages != 0
                    &&& e.physical_start@ % 4096 == 0
                    &&& e.physical_start@ + e.number_of_pages * 4096 <= u64::MAX
                    &&& e.physical_start@ / 4096 <= f < e.physical_start@ / 4096
                        + e.number_of_pages
                })),
{
    let es = boot_map_entries(bi, bytes);
    let h = highest_end(es);
    let total = init_total_frames(bi, bytes);
    lemma_highest_end_is_greatest(es);
    assert(h >= 0);
    assert(total == h / 4096);
    assert(total * 4096 <= h < total * 4096 + 4096) by (nonlinear_arith)
        requires
            total == h / 4096,
            h >= 0,
    ;
    lemma_init_reserves_its_bitmap(bi, bytes, start, free);
    let bb = (total + 7) / 8;
    assert((start + bb + 4095) / 4096 == start / 4096 + (bb + 4095) / 4096) by (nonlinear_arith)
        requires
            start % 4096 == 0,
            bb >= 0,
    ;
    assert(start / 4096 < 0x10_0000);
    assert(frame_number_of(start) as int == start / 4096);
    assert forall|f: int| 0 <= f < free.len() implies (#[trigger] free[f] <==> (!(start / 4096
        <= f < (start + (free.len() + 7) / 8 + 4095) / 4096) && exists|j: int|
        0 <= j < es.len() && {
            let e = #[trigger] es[j];
            &&& e.typ == 7
            &&& e.number_of_pages != 0
            &&& e.physical_start@ % 4096 == 0
            &&& e.physical_start@ + e.number_of_pages * 4096 <= u64::MAX
            &&& e.physical_start@ / 4096 <= f < e.physical_start@ / 4096 + e.number_of_pages
        })) by {
        assert forall|j: int| 0 <= j < es.len() implies covers_frame(#[trigger] es[j], f) == {
            let e = es[j];
            &&& e.typ == 7
            &&& e.number_of_pages != 0
            &&& e.physical_start@ % 4096 == 0
            &&& e.physical_start@ + e.number_of_pages * 4096 <= u64::MAX
            &&& e.physical_start@ / 4096 <= f < e.physical_start@ / 4096 + e.number_of_pages
        } by {
            let e = es[j];
            assert(e.number_of_pages <= usize::MAX);
            assert(e.physical_start@ / 4096 <= usize::MAX);
            assert(frame_number_of(e.physical_start@) as int == e.physical_start@ / 4096);
        }
    }
}

/// Every descriptor the walk reads lies inside the buffer whenever the
/// header passes its consistency check: the buffer holds at least the map
/// the header describes.
pub open spec fn map_readable(bi: BootInfo, len: int) -> bool {
    header_consistent(bi) ==> descriptors_readable(
        len,
        map_descriptor_size(bi) as int,
        map_entry_count(bi) as int,
    )
}

/// The highest end address of any usable entry, or 0.
fn highest_usable_end(entries: &Vec<MemoryMapEntry>) -> (r: u64)
    ensures
        r == highest_end(entries@),
{
    let mut highest: u64 = 0;
    let mut i: usize = 0;
    while i < entries.len()
        invariant
            i <= entries@.len(),
            highest == highest_end(entries@.subrange(0, i as int)),
        decreases entries@.len() - i,
    {
        let entry = entries[i];
        proof {
            assert(entries@.subrange(0, i + 1).drop_last() =~= entries@.subrange(0, i as int));
        }
        if entry.number_of_pages != 0 && entry.physical_start.is_frame_aligned() {
            match entry.end_addr() {
                Some(end) => {
                    if end > highest {
                        highest = end;
                    }
                },
                None => {},
            }
        }
        i = i + 1;
    }
    proof {
        assert(entries@.subrange(0, entries@.len() as int) =~= entries@);
    }
    highest
}

/// The start of the first entry that can host a bitmap of `bytes` bytes.
fn find_bitmap_region(entries: &Vec<MemoryMapEntry>, bytes: usize) -> (r: Option<u64>)
    ensures
        match r {
            Some(start) => exists|i: int|
                first_bitmap_host(entries@, bytes as int, i) && #[trigger] entries@[i].physical_start@
                    == start,
            None => forall|i: int|
                0 <= i < entries@.len() ==> !#[trigger] bitmap_host(entries@[i], bytes as int),
        },
{
    let mut i: usize = 0;
    while i < entries.len()
        invariant
            i <= entries@.len(),
            forall|j: int| 0 <= j < i ==> !#[trigger] bitmap_host(entries@[j], bytes as int),
        decreases entries@.len() - i,
    {
        let entry = entries[i];
        if entry.typ == EFI_CONVENTIONAL_MEMORY && entry.number_of_pages != 0
            && entry.physical_start.is_frame_aligned() {
            match entry.end_addr() {
                Some(end) => {
                    if end <= IDENTITY_MAP_LIMIT {
                        let region_size = end - entry.physical_start.as_u64();
                        if region_size >= bytes as u64 {
                            let start = entry.physical_start.as_u64();
                            proof {
                                assert(first_bitmap_host(entries@, bytes as int, i as int));
                            }
                            return Some(start);
                        }
                    }
                },
                None => {},
            }
        }
        i = i + 1;
    }
    None
}

impl FrameAllocator {
    /// An allocator tracking `total_frames` frames, every one used.
    fn with_all_frames_used(total_frames: usize) -> (r: Self)
        requires
            total_frames <= MAX_TRACKED_FRAMES,
        ensures
            r.wf(),
            r.total() == total_frames,
            r.free_map() == Seq::new(total_frames as nat, |f: int| false),
            r.hint() == 0,
    {
        let bytes = (total_frames + 7) / 8;
        let bitmap: Vec<u8> = vec![0xffu8; bytes];
        let r = FrameAllocator { bitmap, total_frames, frames_free: 0, next_hint: 0 };
        proof {
            assert forall|f: int| 0 <= f < total_frames implies !frame_bit_free(bitmap@, f) by {
                assert(bitmap@[f / 8] == 0xffu8);
                lemma_byte_bits(0xffu8, 0u8, (f % 8) as u8);
            }
            assert(r.free_map() =~= Seq::new(total_frames as nat, |f: int| false));
            lemma_count_free_all(total_frames as nat, false);
        }
        r
    }

    /// Mark free every tracked frame that a conventional entry of `entries`
    /// covers.
    fn free_conventional_frames(&mut self, entries: &Vec<MemoryMapEntry>)
        requires
            old(self).wf(),
            old(self).free_map() == Seq::new(old(self).total(), |f: int| false),
        ensures
            final(self).wf(),
            final(self).total() == old(self).total(),
            final(self).hint() == old(self).hint(),
            final(self).free_map() == Seq::new(
                old(self).total(),
                |f: int| conventional_frame(entries@, f),
            ),
    {
        let total = self.total_frames;
        let ghost hint0 = self.hint();
        let mut i: usize = 0;
        while i < entries.len()
            invariant
                self.wf(),
                total == self.total(),
                self.hint() == hint0,
                i <= entries@.len(),
                self.free_map() == Seq::new(
                    total as nat,
                    |f: int| conventional_frame(entries@.subrange(0, i as int), f),
                ),
            decreases entries@.len() - i,
        {
            let entry = entries[i];
            let ghost prefix = entries@.subrange(0, i as int);
            let ghost next_prefix = entries@.subrange(0, i + 1);
            proof {
                assert forall|f: int| #[trigger]
                    conventional_frame(next_prefix, f) == (conventional_frame(prefix, f)
                        || covers_frame(entry, f)) by {
                    if conventional_frame(prefix, f) {
                        let j = choose|j: int| 0 <= j < prefix.len() && #[trigger] covers_frame(prefix[j], f);
                        assert(next_prefix[j] == prefix[j]);
                    }
                    if covers_frame(entry, f) {
                        assert(next_prefix[i as int] == entry);
                    }
                    if conventional_frame(next_prefix, f) {
                        let j = choose|j: int|
                            0 <= j < next_prefix.len() && #[trigger] covers_frame(next_prefix[j], f);
                        if j < i {
                            assert(prefix[j] == next_prefix[j]);
                        }
                    }
                }
            }
            if entry.typ == EFI_CONVENTIONAL_MEMORY && entry.number_of_pages != 0
                && entry.physical_start.is_frame_aligned() && entry.end_addr().is_some() {
                let start_frame = entry.physical_start.frame_number();
                let frame_count = (#[verifier::truncate]
                (entry.number_of_pages as usize));
                let end_frame = start_frame.saturating_add(frame_count);
                let mut frame = start_frame;
                proof {
                    assert(self.free_map() =~= Seq::new(
                        total as nat,
                        |f: int| conventional_frame(prefix, f) || (start_frame <= f < frame),
                    ));
                    if frame == end_frame && frame < total {
                        assert(self.free_map() =~= Seq::new(
                            total as nat,
                            |f: int| conventional_frame(next_prefix, f),
                        ));
                    }
                }
                while frame < end_frame
                    invariant
                        self.wf(),
                        total == self.total(),
                        total <= MAX_TRACKED_FRAMES,
                        self.hint() == hint0,
                        entry.typ == EFI_CONVENTIONAL_MEMORY,
                        usable_entry(entry),
                        forall|f: int| #[trigger]
                            conventional_frame(next_prefix, f) == (conventional_frame(prefix, f)
                                || covers_frame(entry, f)),
                        start_frame <= frame,
                        start_frame == frame_number_of(entry.physical_start@),
                        frame_count == (#[verifier::truncate]
                        (entry.number_of_pages as usize)),
                        end_frame as int == if start_frame + frame_count > usize::MAX {
                            usize::MAX as int
                        } else {
                            start_frame + frame_count
                        },
                        frame < total ==> self.free_map() == Seq::new(
                            total as nat,
                            |f: int|
                                conventional_frame(prefix, f) || (start_frame <= f < frame),
                        ),
                        frame >= total ==> self.free_map() == Seq::new(
                            total as nat,
                            |f: int| conventional_frame(next_prefix, f),
                        ),
                        frame <= end_frame,
                        frame == end_frame ==> self.free_map() == Seq::new(
                            total as nat,
                            |f: int| conventional_frame(next_prefix, f),
                        ),
                    ensures
                        self.wf(),
                        total == self.total(),
                        self.hint() == hint0,
                        self.free_map() == Seq::new(
                            total as nat,
                            |f: int| conventional_frame(next_prefix, f),
                        ),
                    decreases end_frame - frame,
                {
                    if frame >= total {
                        break;
                    }
                    assert(frame < total);
                    let ghost map0 = self.free_map();
                    self.mark_free(frame);
                    proof {
                        assert(self.free_map() =~= Seq::new(
                            total as nat,
                            |f: int|
                                conventional_frame(prefix, f) || (start_frame <= f < frame + 1),
                        ));
                        if frame + 1 >= total {
                            assert(self.free_map() =~= Seq::new(
                                total as nat,
                                |f: int| conventional_frame(next_prefix, f),
                            ));
                        }
                    }
                    frame = frame + 1;
                    if frame == end_frame && frame < total {
                        assert(self.free_map() =~= Seq::new(
                            total as nat,
                            |f: int| conventional_frame(next_prefix, f),
                        ));
                    }
                }
            } else {
                proof {
                    assert(self.free_map() =~= Seq::new(
                        total as nat,
                        |f: int| conventional_frame(next_prefix, f),
                    ));
                }
            }
            i = i + 1;
        }
        proof {
            assert(entries@.subrange(0, entries@.len() as int) =~= entries@);
        }
    }

    /// Mark used every tracked frame among the `count` frames from
    /// `start_frame` on.
    fn reserve_frames(&mut self, start_frame: usize, count: usize)
        requires
            old(self).wf(),
            start_frame + count <= usize::MAX,
        ensures
            final(self).wf(),
            final(self).total() == old(self).total(),
            final(self).hint() == old(self).hint(),
            final(self).free_map() == Seq::new(
                old(self).total(),
                |f: int| old(self).free_map()[f] && !(start_frame <= f < start_frame + count),
            ),
    {
        let ghost map0 = self.free_map();
        let end = start_frame + count;
        let mut frame = start_frame;
        while frame < end
            invariant
                self.wf(),
                self.total() == old(self).total(),
                self.hint() == old(self).hint(),
                map0 == old(self).free_map(),
                start_frame <= frame <= end,
                end == start_frame + count,
                self.free_map() == Seq::new(
                    old(self).total(),
                    |f: int| map0[f] && !(start_frame <= f < frame),
                ),
            decreases end - frame,
        {
            if frame < self.total_frames {
                self.mark_used(frame);
            }
            proof {
                assert(self.free_map() =~= Seq::new(
                    old(self).total(),
                    |f: int| map0[f] && !(start_frame <= f < frame + 1),
                ));
            }
            frame = frame + 1;
        }
    }

    /// Build a frame allocator from the UEFI memory map that `boot_info`
    /// describes and `memory_map` holds.
    ///
    /// The header is checked first; then the highest end address of any
    /// usable entry sizes the bitmap (one bit per frame below it); the
    /// bitmap goes in the first conventional region entirely below
    /// `IDENTITY_MAP_LIMIT` large enough to hold it; every frame starts
    /// used, the frames of conventional entries are freed, and the bitmap's
    /// own frames are reserved again.
    pub fn init(boot_info: &BootInfo, memory_map: &[u8]) -> (r: Result<FrameAllocator, InitError>)
        requires
            map_readable(*boot_info, memory_map@.len() as int),
        ensures
            match r {
                Ok(a) => {
                    &&& init_outcome(*boot_info, memory_map@) == Ok::<(), InitError>(())
                    &&& a.wf()
                    &&& a.total() == init_total_frames(*boot_info, memory_map@)
                    &&& a.hint() == 0
                    &&& exists|i: int|
                        first_bitmap_host(
                            boot_map_entries(*boot_info, memory_map@),
                            bitmap_bytes_for(a.total() as int),
                            i,
                        ) && a.free_map() == #[trigger] init_free_map(
                            *boot_info,
                            memory_map@,
                            boot_map_entries(*boot_info, memory_map@)[i].physical_start@,
                        ) && forall|f: int|
                            boot_map_entries(*boot_info, memory_map@)[i].physical_start@ / 4096 <= f
                                < (boot_map_entries(*boot_info, memory_map@)[i].physical_start@
                                + (a.total() + 7) / 8 + 4095) / 4096 && f < a.total()
                                ==> !#[trigger] a.free_map()[f]
                },
                Err(e) => init_outcome(*boot_info, memory_map@) == Err::<(), InitError>(e),
            },
    {
        let entry_count = (#[verifier::truncate]
        (boot_info.memory_map_entry_count as usize));
        let descriptor_size = (#[verifier::truncate]
        (boot_info.memory_map_descriptor_size as usize));
        let claimed_size = match entry_count.checked_mul(descriptor_size) {
            Some(c) => c,
            None => {
                return Err(InitError::InconsistentMemoryMap);
            },
        };
        let size_bytes = (#[verifier::truncate]
        (boot_info.memory_map_size_bytes as usize));
        if size_bytes < claimed_size {
            return Err(InitError::InconsistentMemoryMap);
        }
        let mut iter = MemoryMapIter::new(memory_map, descriptor_size, entry_count);
        let ghost all = boot_map_entries(*boot_info, memory_map@);
        let mut entries: Vec<MemoryMapEntry> = Vec::new();
        loop
            invariant
                iter.wf(),
                iter.entries() == all,
                0 <= iter.position() <= all.len(),
                entries@ == all.subrange(0, iter.position()),
            ensures
                entries@ == all,
            decreases all.len() - iter.position(),
        {
            match iter.next_entry() {
                Some(e) => {
                    entries.push(e);
                },
                None => {
                    assert(entries@ =~= all);
                    break;
                },
            }
        }
        let highest_addr = highest_usable_end(&entries);
        if highest_addr == 0 {
            return Err(InitError::InconsistentMemoryMap);
        }
        let total_frames = (#[verifier::truncate]
        ((highest_addr / FRAME_SIZE) as usize));
        let bitmap_bytes = total_frames / 8 + if total_frames % 8 != 0 {
            1
        } else {
            0
        };
        assert(bitmap_bytes == bitmap_bytes_for(total_frames as int));
        if bitmap_bytes == 0 || bitmap_bytes > MAX_BITMAP_BYTES {
            return Err(InitError::ImpliedAddressSpaceTooLarge);
        }
        let bitmap_phys_addr = match find_bitmap_region(&entries, bitmap_bytes) {
            Some(a) => a,
            None => {
                return Err(InitError::NoSuitableBitmapRegion);
            },
        };
        let mut allocator = FrameAllocator::with_all_frames_used(total_frames);
        allocator.free_conventional_frames(&entries);
        let bitmap_start_frame = PhysAddr::new(bitmap_phys_addr).frame_number();
        let bitmap_frame_count = (bitmap_bytes + 4095) / 4096;
        allocator.reserve_frames(bitmap_start_frame, bitmap_frame_count);
        proof {
            let i = choose|i: int|
                first_bitmap_host(entries@, bitmap_bytes as int, i)
                    && #[trigger] entries@[i].physical_start@ == bitmap_phys_addr;
            assert(allocator.free_map() =~= init_free_map(*boot_info, memory_map@, entries@[i].physical_start@));
            lemma_init_reserves_its_bitmap(
                *boot_info,
                memory_map@,
                entries@[i].physical_start@,
                allocator.free_map(),
            );
        }
        Ok(allocator)
    }
}

// ---------------------------------------------------------------------------
// Laws.
// ---------------------------------------------------------------------------

/// A frame an allocation took stays used through later allocations.
proof fn lemma_taken_frame_stays_used(states: Seq<FrameAllocator>, frames: Seq<int>, j: int, k: int)
    requires
        states.len() == frames.len() + 1,
        forall|m: int| 0 <= m < frames.len() ==> #[trigger] takes_frame(states[m], states[m + 1], frames[m]),
        0 <= j < k < states.len(),
    ensures
        0 <= frames[j] < states[k].free_map().len(),
        !states[k].free_map()[frames[j]],
    decreases k - j,
{
    let m = k - 1;
    assert(takes_frame(states[m], states[m + 1], frames[m]));
    if m > j {
        lemma_taken_frame_stays_used(states, frames, j, k - 1);
    } else {
        assert(takes_frame(states[j], states[j + 1], frames[j]));
    }
}

/// Allocations in a row (by `allocate` or `allocate_below`, in any mix),
/// with no free in between, never hand out the same frame twice.
pub proof fn lemma_successive_allocations_distinct(states: Seq<FrameAllocator>, frames: Seq<int>)
    requires
        states.len() == frames.len() + 1,
        forall|m: int| 0 <= m < frames.len() ==> #[trigger] takes_frame(states[m], states[m + 1], frames[m]),
    ensures
        frames.no_duplicates(),
{
    assert forall|j: int, k: int| 0 <= j < k < frames.len() implies frames[j] != frames[k] by {
        lemma_taken_frame_stays_used(states, frames, j, k);
        assert(takes_frame(states[k], states[k + 1], frames[k]));
    }
}

/// `allocate` takes the next free frame met scanning up from the hint and
/// wrapping round to frame 0: the address is that frame's start, no free
/// frame lies between the hint and it, and the next scan starts just after
/// it.
pub proof fn lemma_allocate_takes_next_free_frame(
    before: FrameAllocator,
    after: FrameAllocator,
    addr: PhysAddr,
)
    requires
        before.wf(),
        allocated(before, after, addr),
    ensures
        ({
            let f = addr@ / 4096;
            let h = before.hint();
            let n = before.total() as int;
            &&& addr@ % 4096 == 0
            &&& 0 <= f < n
            &&& before.free_map()[f as int]
            &&& !after.free_map()[f as int]
            &&& after.free_count() + 1 == before.free_count()
            &&& after.hint() == if f + 1 == n {
                0
            } else {
                f + 1
            }
            &&& forall|g: int|
                0 <= g < n && #[trigger] before.free_map()[g] && g != f ==> if h <= f {
                    !(h <= g < f)
                } else {
                    !(h <= g || g < f)
                }
        }),
{
    let f = frame_of(addr);
    let h = before.hint();
    let n = before.total() as int;
    before.lemma_wf_facts();
    lemma_cyclic(h, 0, f, n);
    let df = cyclic_distance(h, f, n);
    assert forall|g: int|
        0 <= g < n && #[trigger] before.free_map()[g] && g != f implies if h <= f {
        !(h <= g < f)
    } else {
        !(h <= g || g < f)
    } by {
        lemma_cyclic(h, 0, g, n);
        let p = cyclic_distance(h, g, n);
        if h <= g {
            lemma_mod_add_multiples_vanish(g - h, n);
            lemma_small_mod((g - h) as nat, n as nat);
        } else {
            lemma_small_mod((g - h + n) as nat, n as nat);
        }
        if h <= f {
            lemma_mod_add_multiples_vanish(f - h, n);
            lemma_small_mod((f - h) as nat, n as nat);
        } else {
            lemma_small_mod((f - h + n) as nat, n as nat);
        }
        if (h <= f && h <= g < f) || (f < h && (h <= g || g < f)) {
            assert(p < df);
            assert(!before.free_map()[(h + p) % n]);
        }
    }
    if f + 1 < n {
        lemma_small_mod((f + 1) as nat, n as nat);
    } else {
        vstd::arithmetic::div_mod::lemma_mod_self_0(n);
    }
    assert(frame_of(addr) == addr@ / 4096);
}

/// `allocate` and `allocate_below` both take a free frame.
pub proof fn lemma_allocations_take_a_free_frame(
    before: FrameAllocator,
    after: FrameAllocator,
    limit: PhysAddr,
    addr: PhysAddr,
)
    ensures
        allocated(before, after, addr) ==> takes_frame(before, after, frame_of(addr)),
        allocated_below(before, after, limit, addr) ==> takes_frame(before, after, frame_of(addr))
            && frame_of(addr) < frame_number_of(limit@) && addr@ < limit@,
{
    if allocated_below(before, after, limit, addr) {
        assert(addr@ == frame_of(addr) * 4096);
    }
}

/// Freeing the frame an allocation just handed out gives back the free map
/// and the counter that were there before the allocation.
pub proof fn lemma_deallocate_undoes_allocation(
    s0: FrameAllocator,
    s1: FrameAllocator,
    s2: FrameAllocator,
    addr: PhysAddr,
    r: Result<(), DeallocError>,
)
    requires
        s0.wf(),
        takes_frame(s0, s1, frame_of(addr)),
        addr@ % FRAME_SIZE == 0,
        deallocation(s1, s2, addr, r),
    ensures
        r == Ok::<(), DeallocError>(()),
        s2.free_map() == s0.free_map(),
        s2.free_count() == s0.free_count(),
{
    // The frame fits in a `usize`, so the truncating frame number that
    // `deallocate` computes is exactly the allocated frame.
    assert(addr@ / FRAME_SIZE < 0x2000_0000);
    assert(frame_number_of(addr@) as int == frame_of(addr));
    assert(s2.free_map() =~= s0.free_map());
    match r {
        Ok(u) => {},
        Err(DeallocError::OutOfRange) => {},
        Err(DeallocError::DoubleFree) => {},
    }
}

/// Freeing a frame a second time is refused as a double free and changes
/// nothing.
pub proof fn lemma_second_free_is_double_free(
    s0: FrameAllocator,
    s1: FrameAllocator,
    s2: FrameAllocator,
    addr: PhysAddr,
    r: Result<(), DeallocError>,
)
    requires
        deallocation(s0, s1, addr, Ok(())),
        deallocation(s1, s2, addr, r),
    ensures
        r == Err::<(), DeallocError>(DeallocError::DoubleFree),
        same_state(s1, s2),
{
}

} // verus!
