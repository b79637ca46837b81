use neoastrenos_kernel::boot_info::{BootInfo, BOOTINFO_MAGIC, BOOTINFO_STRUCT_SIZE, BOOTINFO_VERSION};
use neoastrenos_kernel::frame_allocator::{FrameAllocator, InitError};
use neoastrenos_kernel::memory_map::{MemoryMapEntry, MemoryMapIter, EFI_CONVENTIONAL_MEMORY};
use neoastrenos_kernel::phys_addr::PhysAddr;

const STRIDE: usize = 48;

/// A memory map buffer holding `entries` (type, start, pages) at a 48-byte
/// stride, with filler in the bytes no field occupies.
fn map_bytes(entries: &[(u32, u64, u64)]) -> Vec<u8> {
    let mut bytes = vec![0xEEu8; entries.len() * STRIDE];
    for (i, (typ, start, pages)) in entries.iter().enumerate() {
        let base = i * STRIDE;
        bytes[base..base + 4].copy_from_slice(&typ.to_le_bytes());
        bytes[base + 8..base + 16].copy_from_slice(&start.to_le_bytes());
        bytes[base + 24..base + 32].copy_from_slice(&pages.to_le_bytes());
    }
    bytes
}

fn boot_info_for(bytes: &[u8], entry_count: u64) -> BootInfo {
    BootInfo {
        magic: BOOTINFO_MAGIC,
        version: BOOTINFO_VERSION,
        struct_size_bytes: BOOTINFO_STRUCT_SIZE,
        memory_map_phys_addr: 0x8000,
        memory_map_size_bytes: bytes.len() as u64,
        memory_map_descriptor_size: STRIDE as u64,
        memory_map_descriptor_version: 1,
        memory_map_entry_count: entry_count,
        kernel_physical_base: 0x10_0000,
        kernel_virtual_base: 0xFFFF_FFFF_8000_0000,
        kernel_size_bytes: 0x10_0000,
        kernel_stack_top: 0x9_0000,
        kernel_stack_size_bytes: 0x1_0000,
    }
}

const LOADER_DATA: u32 = 2;

#[test]
fn init_frees_conventional_frames_and_reserves_the_bitmap() {
    let bytes = map_bytes(&[
        (EFI_CONVENTIONAL_MEMORY, 0x1000, 0x9F),
        (LOADER_DATA, 0x10_0000, 0x100),
        (EFI_CONVENTIONAL_MEMORY, 0x20_0000, 0x1000),
    ]);
    let info = boot_info_for(&bytes, 3);
    let alloc = FrameAllocator::init(&info, &bytes).unwrap();
    // Highest end 0x120_0000: 0x1200 frames, a 576-byte bitmap in frame 1.
    assert_eq!(alloc.total_frames(), 0x1200);
    assert_eq!(alloc.frames_free(), 0x9E + 0x1000);
    assert!(!alloc.is_free(0));
    assert!(!alloc.is_free(1));
    assert!(alloc.is_free(2));
    assert!(alloc.is_free(0x9F));
    assert!(!alloc.is_free(0xA0));
    assert!(!alloc.is_free(0x100));
    assert!(alloc.is_free(0x200));
    assert!(alloc.is_free(0x11FF));
}

#[test]
fn init_allocations_come_from_conventional_memory() {
    let bytes = map_bytes(&[
        (LOADER_DATA, 0x0, 0x10),
        (EFI_CONVENTIONAL_MEMORY, 0x10_000, 0x10),
    ]);
    let info = boot_info_for(&bytes, 2);
    let mut alloc = FrameAllocator::init(&info, &bytes).unwrap();
    assert_eq!(alloc.total_frames(), 0x20);
    // The 4-byte bitmap takes frame 0x10; frames 0x11..0x20 are free.
    assert_eq!(alloc.frames_free(), 0xF);
    assert_eq!(alloc.allocate(), Some(PhysAddr::from_frame_number(0x11)));
}

#[test]
fn init_skips_empty_misaligned_and_overflowing_entries() {
    let bytes = map_bytes(&[
        (EFI_CONVENTIONAL_MEMORY, 0x1000, 0x10),
        (EFI_CONVENTIONAL_MEMORY, 0x8_0000, 0),
        (EFI_CONVENTIONAL_MEMORY, 0x9_0001, 0x10),
        (EFI_CONVENTIONAL_MEMORY, 0xFFFF_FFFF_FFFF_F000, 0x10),
    ]);
    let info = boot_info_for(&bytes, 4);
    let alloc = FrameAllocator::init(&info, &bytes).unwrap();
    assert_eq!(alloc.total_frames(), 0x11);
    assert_eq!(alloc.frames_free(), 0xF);
}

#[test]
fn init_rejects_a_map_too_small_for_its_entries() {
    let bytes = map_bytes(&[(EFI_CONVENTIONAL_MEMORY, 0x1000, 0x10)]);
    let mut info = boot_info_for(&bytes, 1);
    info.memory_map_entry_count = 2;
    assert_eq!(
        FrameAllocator::init(&info, &bytes).err(),
        Some(InitError::InconsistentMemoryMap)
    );
}

#[test]
fn init_rejects_a_map_without_usable_entries() {
    let bytes = map_bytes(&[(EFI_CONVENTIONAL_MEMORY, 0x1000, 0), (LOADER_DATA, 0x1234, 4)]);
    let info = boot_info_for(&bytes, 2);
    assert_eq!(
        FrameAllocator::init(&info, &bytes).err(),
        Some(InitError::InconsistentMemoryMap)
    );
    let empty: Vec<u8> = Vec::new();
    let info = boot_info_for(&empty, 0);
    assert_eq!(
        FrameAllocator::init(&info, &empty).err(),
        Some(InitError::InconsistentMemoryMap)
    );
}

#[test]
fn init_rejects_an_implied_address_space_too_large_to_track() {
    let bytes = map_bytes(&[(EFI_CONVENTIONAL_MEMORY, 0x1000, 0x10), (LOADER_DATA, 0x1_0000_0000_0000, 1)]);
    let info = boot_info_for(&bytes, 2);
    assert_eq!(
        FrameAllocator::init(&info, &bytes).err(),
        Some(InitError::ImpliedAddressSpaceTooLarge)
    );
}

#[test]
fn init_rejects_a_map_with_no_room_for_the_bitmap() {
    // The only conventional memory lies above the 4 GiB identity map.
    let bytes = map_bytes(&[(LOADER_DATA, 0x0, 0x100), (EFI_CONVENTIONAL_MEMORY, 0x1_0000_0000, 0x100)]);
    let info = boot_info_for(&bytes, 2);
    assert_eq!(
        FrameAllocator::init(&info, &bytes).err(),
        Some(InitError::NoSuitableBitmapRegion)
    );
}

#[test]
fn memory_map_walk_reads_fields_at_fixed_offsets() {
    let bytes = map_bytes(&[(7, 0x1234_5000, 3), (11, 0xFEE0_0000, 1)]);
    let mut iter = MemoryMapIter::new(&bytes, STRIDE, 2);
    let first = iter.next_entry().unwrap();
    assert_eq!(first.typ, 7);
    assert_eq!(first.physical_start, PhysAddr::new(0x1234_5000));
    assert_eq!(first.number_of_pages, 3);
    let second = iter.next_entry().unwrap();
    assert_eq!(second.typ, 11);
    assert_eq!(second.physical_start.as_u64(), 0xFEE0_0000);
    assert_eq!(iter.next_entry(), None);
}

#[test]
fn end_addr_adds_the_region_size_and_refuses_overflow() {
    let entry = MemoryMapEntry { typ: 7, physical_start: PhysAddr::new(0x1000), number_of_pages: 2 };
    assert_eq!(entry.end_addr(), Some(0x3000));
    let wrapping = MemoryMapEntry { typ: 7, physical_start: PhysAddr::new(0xFFFF_FFFF_FFFF_F000), number_of_pages: 1 };
    assert_eq!(wrapping.end_addr(), None);
    let huge = MemoryMapEntry { typ: 7, physical_start: PhysAddr::new(0), number_of_pages: 1 << 60 };
    assert_eq!(huge.end_addr(), None);
}

#[test]
fn boot_info_validation_checks_magic_version_and_size() {
    let bytes: Vec<u8> = Vec::new();
    let info = boot_info_for(&bytes, 0);
    assert!(info.is_valid());
    assert_eq!(BOOTINFO_MAGIC.to_le_bytes(), *b"XOSBOOT1");
    let mut bad = info;
    bad.magic = 0;
    assert!(!bad.is_valid());
    let mut bad = info;
    bad.version = 2;
    assert!(!bad.is_valid());
    let mut bad = info;
    bad.struct_size_bytes = 88;
    assert!(!bad.is_valid());
}
