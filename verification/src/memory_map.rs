//! Reading the UEFI memory map handed off by the bootloader.
//!
//! Each descriptor's fields are read at fixed byte offsets (`Type` at 0,
//! `PhysicalStart` at 8, `NumberOfPages` at 24), stepping by the
//! firmware-reported descriptor size, which may exceed any fixed struct
//! layout.
use vstd::prelude::*;

use crate::phys_addr::{PhysAddr, FRAME_SIZE};
use vstd::bytes::{spec_u32_from_le_bytes, spec_u64_from_le_bytes, u32_from_le_bytes, u64_from_le_bytes};
use vstd::slice::slice_subrange;

verus! {

/// UEFI `EfiConventionalMemory`: the only memory type treated as free.
pub const EFI_CONVENTIONAL_MEMORY: u32 = 7;

/// The bytes of a descriptor that are read: up to the end of
/// `NumberOfPages`.
pub const DESCRIPTOR_READ_BYTES: usize = 32;

/// One parsed memory map entry.
#[derive(Debug, Clone, Copy, PartialEq, Eq, Structural)]
pub struct MemoryMapEntry {
    pub typ: u32,
    pub physical_start: PhysAddr,
    pub number_of_pages: u64,
}

/// The exclusive end address of `e`, or `None` when it does not fit in a
/// `u64`.
pub open spec fn entry_end(e: MemoryMapEntry) -> Option<u64> {
    let end = e.physical_start@ + e.number_of_pages * FRAME_SIZE;
    if end <= u64::MAX {
        Some(end as u64)
    } else {
        None
    }
}

impl MemoryMapEntry {
    /// End address (exclusive) of the region, or `None` when
    /// `physical_start + number_of_pages * FRAME_SIZE` overflows a `u64`.
    pub fn end_addr(&self) -> (r: Option<u64>)
        ensures
            r == entry_end(*self),
    {
        let size = match self.number_of_pages.checked_mul(FRAME_SIZE) {
            Some(s) => s,
            None => {
                return None;
            },
        };
        self.physical_start.as_u64().checked_add(size)
    }
}

/// The entry encoded by the descriptor at byte `offset` of `bytes`.
pub open spec fn descriptor_at(bytes: Seq<u8>, offset: int) -> MemoryMapEntry {
    MemoryMapEntry {
        typ: spec_u32_from_le_bytes(bytes.subrange(offset, offset + 4)),
        physical_start: PhysAddr::from_raw_spec(
            spec_u64_from_le_bytes(bytes.subrange(offset + 8, offset + 16)),
        ),
        number_of_pages: spec_u64_from_le_bytes(bytes.subrange(offset + 24, offset + 32)),
    }
}

/// The `count` entries of a map with descriptor stride `stride`.
pub open spec fn map_entries(bytes: Seq<u8>, stride: int, count: int) -> Seq<MemoryMapEntry> {
    Seq::new(count as nat, |i: int| descriptor_at(bytes, i * stride))
}

/// Every one of `count` descriptors of stride `stride` can be read from a
/// buffer of `len` bytes.
pub open spec fn descriptors_readable(len: int, stride: int, count: int) -> bool {
    count == 0 || (count - 1) * stride + DESCRIPTOR_READ_BYTES <= len
}

/// Walks the descriptors of a memory map buffer in order.
pub struct MemoryMapIter<'a> {
    bytes: &'a [u8],
    descriptor_size: usize,
    entry_count: usize,
    index: usize,
}

proof fn lemma_descriptor_offset(i: int, stride: int, count: int, len: int)
    requires
        0 <= i < count,
        0 <= stride,
        descriptors_readable(len, stride, count),
    ensures
        0 <= i * stride,
        i * stride + DESCRIPTOR_READ_BYTES <= len,
        i * stride <= (count - 1) * stride,
{
    assert(0 <= i * stride) by (nonlinear_arith)
        requires
            0 <= i,
            0 <= stride,
    ;
    assert(i * stride <= (count - 1) * stride) by (nonlinear_arith)
        requires
            0 <= i <= count - 1,
            0 <= stride,
    ;
}

impl<'a> MemoryMapIter<'a> {
    /// The entries the walk yields, in order.
    pub closed spec fn entries(&self) -> Seq<MemoryMapEntry> {
        map_entries(self.bytes@, self.descriptor_size as int, self.entry_count as int)
    }

    /// How many entries have been yielded so far.
    pub closed spec fn position(&self) -> int {
        self.index as int
    }

    pub closed spec fn wf(&self) -> bool {
        &&& self.index <= self.entry_count
        &&& descriptors_readable(
            self.bytes@.len() as int,
            self.descriptor_size as int,
            self.entry_count as int,
        )
    }

    /// A walk over the `entry_count` descriptors of `bytes`, spaced
    /// `descriptor_size` bytes apart.
    pub fn new(bytes: &'a [u8], descriptor_size: usize, entry_count: usize) -> (r: Self)
        requires
            descriptors_readable(bytes@.len() as int, descriptor_size as int, entry_count as int),
        ensures
            r.wf(),
            r.position() == 0,
            r.entries() == map_entries(bytes@, descriptor_size as int, entry_count as int),
    {
        MemoryMapIter { bytes, descriptor_size, entry_count, index: 0 }
    }

    /// The next entry, or `None` once all have been yielded.
    pub fn next_entry(&mut self) -> (r: Option<MemoryMapEntry>)
        requires
            old(self).wf(),
        ensures
            final(self).wf(),
            final(self).entries() == old(self).entries(),
            old(self).position() < old(self).entries().len() ==> {
                &&& r == Some(old(self).entries()[old(self).position()])
                &&& final(self).position() == old(self).position() + 1
            },
            old(self).position() >= old(self).entries().len() ==> {
                &&& r is None
                &&& final(self).position() == old(self).position()
            },
    {
        if self.index >= self.entry_count {
            return None;
        }
        // The buffer's length is a `usize`, so offsets inside it are too.
        let len = self.bytes.len();
        proof {
            lemma_descriptor_offset(
                self.index as int,
                self.descriptor_size as int,
                self.entry_count as int,
                self.bytes@.len() as int,
            );
        }
        let offset = self.index * self.descriptor_size;
        assert(offset + DESCRIPTOR_READ_BYTES <= len);
        self.index = self.index + 1;
        let typ = u32_from_le_bytes(slice_subrange(self.bytes, offset, offset + 4));
        let start = u64_from_le_bytes(slice_subrange(self.bytes, offset + 8, offset + 16));
        let pages = u64_from_le_bytes(slice_subrange(self.bytes, offset + 24, offset + 32));
        Some(
            MemoryMapEntry {
                typ,
                physical_start: PhysAddr::new(start),
                number_of_pages: pages,
            },
        )
    }
}

} // verus!
