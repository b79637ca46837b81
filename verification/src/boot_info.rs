//! The bootloader-to-kernel handoff record, as plain values.
use vstd::prelude::*;

verus! {

/// ASCII "XOSBOOT1" read as a little-endian `u64`.
pub const BOOTINFO_MAGIC: u64 = 0x3154_4F4F_4253_4F58;

/// The handoff format version this kernel understands.
pub const BOOTINFO_VERSION: u32 = 1;

/// The size in bytes of the handoff record in the bootloader's C layout:
/// ten `u64` fields and three `u32` fields at their natural alignment,
/// with four bytes of padding after `memory_map_descriptor_version`.
pub const BOOTINFO_STRUCT_SIZE: u32 = 96;

/// The handoff record's fields, in the bootloader's order.
#[derive(Debug, Clone, Copy, PartialEq, Eq, Structural)]
pub struct BootInfo {
    pub magic: u64,
    pub version: u32,
    pub struct_size_bytes: u32,
    pub memory_map_phys_addr: u64,
    pub memory_map_size_bytes: u64,
    pub memory_map_descriptor_size: u64,
    pub memory_map_descriptor_version: u32,
    pub memory_map_entry_count: u64,
    pub kernel_physical_base: u64,
    pub kernel_virtual_base: u64,
    pub kernel_size_bytes: u64,
    pub kernel_stack_top: u64,
    pub kernel_stack_size_bytes: u64,
}

impl BootInfo {
    /// The handoff is trusted only when its magic, version and recorded
    /// size all agree with this kernel's.
    pub fn is_valid(&self) -> (r: bool)
        ensures
            r == (self.magic == BOOTINFO_MAGIC && self.version == BOOTINFO_VERSION
                && self.struct_size_bytes == BOOTINFO_STRUCT_SIZE),
    {
        self.magic == BOOTINFO_MAGIC && self.version == BOOTINFO_VERSION && self.struct_size_bytes
            == BOOTINFO_STRUCT_SIZE
    }
}

} // verus!
