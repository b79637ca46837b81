use std::collections::HashMap;

use neoastrenos_kernel::frame_allocator::{FrameAllocator, IDENTITY_MAP_LIMIT};
use neoastrenos_kernel::page_table_entry::{PageFlags, PageTableEntry};
use neoastrenos_kernel::phys_addr::PhysAddr;
use neoastrenos_kernel::virt_addr::VirtAddr;
use neoastrenos_kernel::vmm::{
    efer_from_halves, efer_halves, efer_with_nxe, flags_step, map_step, translate_step, unmap_step,
    checked_table_ptr, FlagsStep, MapError, MapStep, TranslateStep, UnmapError, UnmapStep,
    VirtualMemoryManager, Walk,
};

/// Physical memory holding page tables: 512 words per 4 KiB table.
struct Memory {
    tables: HashMap<u64, Vec<u64>>,
}

impl Memory {
    fn new() -> Self {
        Memory { tables: HashMap::new() }
    }

    fn read(&self, w: &Walk) -> PageTableEntry {
        let word = self.tables.get(&w.table).map(|t| t[w.index()]).unwrap_or(0);
        PageTableEntry::from_raw(word)
    }

    fn write(&mut self, table: u64, index: usize, entry: PageTableEntry) {
        self.tables.entry(table).or_insert_with(|| vec![0u64; 512])[index] = entry.to_raw();
    }

    fn zero(&mut self, table: u64) {
        self.tables.insert(table, vec![0u64; 512]);
    }
}

fn translate(vmm: &VirtualMemoryManager, mem: &Memory, virt: u64) -> Option<PhysAddr> {
    let mut step = vmm.translate_start(VirtAddr::new(virt));
    loop {
        match step {
            TranslateStep::Read(w) => step = translate_step(w, mem.read(&w)),
            TranslateStep::Done(r) => return r,
        }
    }
}

fn flags_at(vmm: &VirtualMemoryManager, mem: &Memory, virt: u64) -> Option<PageFlags> {
    let mut step = vmm.flags_at_start(VirtAddr::new(virt));
    loop {
        match step {
            FlagsStep::Read(w) => step = flags_step(w, mem.read(&w)),
            FlagsStep::Done(r) => return r,
        }
    }
}

fn map(
    vmm: &VirtualMemoryManager,
    alloc: &mut FrameAllocator,
    mem: &mut Memory,
    virt: u64,
    phys: PhysAddr,
    flags: PageFlags,
) -> Result<(), MapError> {
    let mut step = vmm.map_start(VirtAddr::new(virt), phys);
    loop {
        match step {
            MapStep::Read(w) => step = map_step(alloc, w, mem.read(&w), phys, flags),
            MapStep::CreateTable { at, new_table, entry, next } => {
                mem.zero(new_table);
                mem.write(at.table, at.index(), entry);
                step = map_step(alloc, next, mem.read(&next), phys, flags);
            }
            MapStep::WriteLeaf { at, entry } => {
                mem.write(at.table, at.index(), entry);
                return Ok(());
            }
            MapStep::Failed(e) => return Err(e),
        }
    }
}

fn unmap(vmm: &VirtualMemoryManager, mem: &mut Memory, virt: u64) -> Result<PhysAddr, UnmapError> {
    let mut step = vmm.unmap_start(VirtAddr::new(virt));
    loop {
        match step {
            UnmapStep::Read(w) => step = unmap_step(w, mem.read(&w)),
            UnmapStep::Clear { at, frame } => {
                mem.write(at.table, at.index(), PageTableEntry::cleared());
                return Ok(frame);
            }
            UnmapStep::Failed(e) => return Err(e),
        }
    }
}

const HEAP_BASE: u64 = 0xFFFF_8800_0000_0000;

/// A manager whose PML4 is frame 0, and an allocator of 64 frames with
/// frame 0 in use.
fn setup() -> (VirtualMemoryManager, FrameAllocator, Memory) {
    let mut alloc = FrameAllocator::with_all_frames_free(64);
    alloc.mark_used(0);
    let mut mem = Memory::new();
    mem.zero(0);
    (VirtualMemoryManager::new(PhysAddr::new(0)), alloc, mem)
}

#[test]
fn map_then_translate_reports_the_mapped_frame() {
    let (vmm, mut alloc, mut mem) = setup();
    let frame = PhysAddr::from_frame_number(40);
    assert_eq!(map(&vmm, &mut alloc, &mut mem, HEAP_BASE, frame, PageFlags::read_write()), Ok(()));
    // Three intermediate tables were created, from the lowest free frames.
    assert_eq!(alloc.frames_free(), 63 - 3);
    assert!(!alloc.is_free(1) && !alloc.is_free(2) && !alloc.is_free(3));
    assert_eq!(translate(&vmm, &mem, HEAP_BASE), Some(frame));
    assert_eq!(translate(&vmm, &mem, HEAP_BASE + 0x123), Some(PhysAddr::new(frame.as_u64() + 0x123)));
    assert_eq!(translate(&vmm, &mem, HEAP_BASE + 0x1000), None);
}

#[test]
fn stored_flags_match_what_map_was_asked_for() {
    let (vmm, mut alloc, mut mem) = setup();
    let flags = PageFlags { writable: false, no_execute: true };
    map(&vmm, &mut alloc, &mut mem, HEAP_BASE, PhysAddr::from_frame_number(9), flags).unwrap();
    assert_eq!(flags_at(&vmm, &mem, HEAP_BASE), Some(flags));
    assert_eq!(flags_at(&vmm, &mem, HEAP_BASE + 0x1000), None);
}

#[test]
fn mapping_an_address_twice_is_refused() {
    let (vmm, mut alloc, mut mem) = setup();
    map(&vmm, &mut alloc, &mut mem, HEAP_BASE, PhysAddr::from_frame_number(9), PageFlags::read_write()).unwrap();
    assert_eq!(
        map(&vmm, &mut alloc, &mut mem, HEAP_BASE, PhysAddr::from_frame_number(10), PageFlags::read_write()),
        Err(MapError::AlreadyMapped)
    );
    // A second page in the same table reuses every intermediate table.
    let free = alloc.frames_free();
    map(&vmm, &mut alloc, &mut mem, HEAP_BASE + 0x1000, PhysAddr::from_frame_number(10), PageFlags::read_write()).unwrap();
    assert_eq!(alloc.frames_free(), free);
}

#[test]
fn unmap_returns_the_frame_and_removes_the_mapping() {
    let (vmm, mut alloc, mut mem) = setup();
    let frame = PhysAddr::from_frame_number(33);
    map(&vmm, &mut alloc, &mut mem, HEAP_BASE, frame, PageFlags::read_write()).unwrap();
    assert_eq!(unmap(&vmm, &mut mem, HEAP_BASE), Ok(frame));
    assert_eq!(translate(&vmm, &mem, HEAP_BASE), None);
    assert_eq!(unmap(&vmm, &mut mem, HEAP_BASE), Err(UnmapError::NotMapped));
    // The address can be mapped again afterwards.
    map(&vmm, &mut alloc, &mut mem, HEAP_BASE, frame, PageFlags::read_write()).unwrap();
    assert_eq!(translate(&vmm, &mem, HEAP_BASE), Some(frame));
}

#[test]
fn misaligned_addresses_are_refused() {
    let (vmm, mut alloc, mut mem) = setup();
    assert_eq!(
        map(&vmm, &mut alloc, &mut mem, HEAP_BASE + 8, PhysAddr::from_frame_number(9), PageFlags::read_write()),
        Err(MapError::NotPageAligned)
    );
    assert_eq!(
        map(&vmm, &mut alloc, &mut mem, HEAP_BASE, PhysAddr::new(0x9008), PageFlags::read_write()),
        Err(MapError::NotPageAligned)
    );
    assert_eq!(unmap(&vmm, &mut mem, HEAP_BASE + 8), Err(UnmapError::NotPageAligned));
}

#[test]
fn huge_pages_translate_with_their_offset_and_are_not_touched() {
    let (vmm, mut alloc, mut mem) = setup();
    // PML4[0] -> PDPT at frame 1; PDPT[1] is a 1 GiB page at 0x4000_0000,
    // PDPT[0] -> PD at frame 2 whose entry 1 is a 2 MiB page at 0x60_0000.
    mem.zero(0x1000);
    mem.zero(0x2000);
    mem.write(0, 0, PageTableEntry::from_raw(0x1000 | 3));
    mem.write(0x1000, 1, PageTableEntry::from_raw(0x4000_0000 | 0x83));
    mem.write(0x1000, 0, PageTableEntry::from_raw(0x2000 | 3));
    mem.write(0x2000, 1, PageTableEntry::from_raw(0x60_0000 | 0x83));
    alloc.mark_used(1);
    alloc.mark_used(2);
    assert_eq!(translate(&vmm, &mem, 0x4123_4567), Some(PhysAddr::new(0x4123_4567)));
    assert_eq!(translate(&vmm, &mem, 0x20_1234), Some(PhysAddr::new(0x60_1234)));
    assert_eq!(flags_at(&vmm, &mem, 0x20_1000), None);
    assert_eq!(unmap(&vmm, &mut mem, 0x20_0000), Err(UnmapError::IsHugePage));
    assert_eq!(unmap(&vmm, &mut mem, 0x4000_0000), Err(UnmapError::IsHugePage));
    assert_eq!(
        map(&vmm, &mut alloc, &mut mem, 0x20_0000, PhysAddr::from_frame_number(9), PageFlags::read_write()),
        Err(MapError::WouldOverlapHugePage)
    );
}

#[test]
fn tables_beyond_the_identity_map_stop_the_walk() {
    let (vmm, mut alloc, mut mem) = setup();
    mem.write(0, 0, PageTableEntry::from_raw(0x2_0000_0000 | 3));
    assert_eq!(translate(&vmm, &mem, 0x1000), None);
    assert_eq!(unmap(&vmm, &mut mem, 0x1000), Err(UnmapError::PageTableUnreachable));
    assert_eq!(
        map(&vmm, &mut alloc, &mut mem, 0x1000, PhysAddr::from_frame_number(9), PageFlags::read_write()),
        Err(MapError::PageTableUnreachable)
    );
    let far = VirtualMemoryManager::new(PhysAddr::new(IDENTITY_MAP_LIMIT));
    assert_eq!(far.translate_start(VirtAddr::new(0)), TranslateStep::Done(None));
    assert_eq!(checked_table_ptr(PhysAddr::new(IDENTITY_MAP_LIMIT)), Err(()));
    assert_eq!(checked_table_ptr(PhysAddr::new(0x5000)), Ok(0x5000));
    assert_eq!(far.pml4_phys(), PhysAddr::new(IDENTITY_MAP_LIMIT));
}

#[test]
fn running_out_of_frames_for_tables_is_reported() {
    let mut alloc = FrameAllocator::with_all_frames_free(1);
    alloc.mark_used(0);
    let mut mem = Memory::new();
    mem.zero(0);
    let vmm = VirtualMemoryManager::new(PhysAddr::new(0));
    assert_eq!(
        map(&vmm, &mut alloc, &mut mem, HEAP_BASE, PhysAddr::from_frame_number(5), PageFlags::read_write()),
        Err(MapError::OutOfFrames)
    );
}

#[test]
fn efer_gets_nxe_set_only_when_missing() {
    assert_eq!(efer_with_nxe(0x500), Some(0xD00));
    assert_eq!(efer_with_nxe(0xD01), None);
    assert_eq!(efer_from_halves(0x0000_0D00, 0x1), 0x1_0000_0D00);
    assert_eq!(efer_halves(0x1_0000_0D00), (0x0000_0D00, 0x1));
}
