//! Encodings of the kernel's GDT descriptors: flat 64-bit code and data
//! segments and the 16-byte TSS descriptor.
use vstd::prelude::*;

verus! {

/// Access bytes (P, DPL, S, type): ring-0 code, ring-0 data, and an
/// available 64-bit TSS.
pub const ACCESS_KERNEL_CODE: u8 = 0x9A;

pub const ACCESS_KERNEL_DATA: u8 = 0x92;

pub const ACCESS_TSS: u8 = 0x89;

pub const KERNEL_CODE_SELECTOR: u16 = 0x08;

pub const KERNEL_DATA_SELECTOR: u16 = 0x10;

pub const TSS_SELECTOR: u16 = 0x18;

/// The interrupt stack table slot (1-based) of the double-fault handler.
pub const DOUBLE_FAULT_IST_INDEX: u16 = 1;

/// The architectural size of a 64-bit TSS.
pub const TSS_SIZE: u64 = 104;

/// The descriptor value for a code or data segment: limit 0xFFFFF with
/// 4 KiB granularity, base 0, the access byte at bits 47:40, and the flags
/// nibble (G, D/B, L, AVL) at bits 55:52: `L` set for 64-bit code, `D/B`
/// set otherwise.
pub open spec fn segment_descriptor_value(access: u8, long_mode: bool) -> int {
    let flags: int = if long_mode {
        0xA
    } else {
        0xC
    };
    0xFFFF + access * 0x100_0000_0000 + 0xF_0000_0000_0000 + flags * 0x10_0000_0000_0000
}

/// A flat code or data segment descriptor.
pub fn segment_descriptor(access: u8, long_mode: bool) -> (r: u64)
    ensures
        r == segment_descriptor_value(access, long_mode),
{
    let limit_low: u64 = 0xFFFF;
    let base: u64 = 0;
    let flags: u64 = if long_mode {
        0xA
    } else {
        0xC
    };
    let limit_high: u64 = 0xF;
    let a = access as u64;
    let r = limit_low | (base << 16u64) | (a << 40u64) | (limit_high << 48u64) | (flags << 52u64)
        | (base << 56u64);
    assert(r == 0xFFFFu64 + a * 0x100_0000_0000u64 + 0xF_0000_0000_0000u64 + flags
        * 0x10_0000_0000_0000u64) by (bit_vector)
        requires
            a < 256,
            flags == 0xAu64 || flags == 0xCu64,
            limit_low == 0xFFFFu64,
            limit_high == 0xFu64,
            base == 0u64,
            r == limit_low | (base << 16u64) | (a << 40u64) | (limit_high << 48u64) | (flags
                << 52u64) | (base << 56u64),
    ;
    r
}

/// The low word of a TSS descriptor for a TSS at `addr`: limit
/// `TSS_SIZE - 1`, base bits 23:0 at bits 39:16, the access byte at 47:40,
/// base bits 31:24 at bits 63:56.
pub open spec fn tss_descriptor_low(addr: u64) -> int {
    (TSS_SIZE - 1) + (addr % 0x100_0000) * 0x1_0000 + ACCESS_TSS * 0x100_0000_0000 + ((addr
        / 0x100_0000) % 0x100) * 0x100_0000_0000_0000
}

/// The two words of the TSS descriptor; the high word holds base bits
/// 63:32.
pub fn tss_descriptor(tss_addr: u64) -> (r: (u64, u64))
    ensures
        r.0 == tss_descriptor_low(tss_addr),
        r.1 == tss_addr / 0x1_0000_0000,
{
    let limit: u64 = TSS_SIZE - 1;
    let base_low_24 = tss_addr & 0xFF_FFFF;
    let base_mid_8 = (tss_addr >> 24u64) & 0xFF;
    let base_high_32 = tss_addr >> 32u64;
    let access = ACCESS_TSS as u64;
    let low = limit | (base_low_24 << 16u64) | (access << 40u64) | (base_mid_8 << 56u64);
    assert(low == 103u64 + (tss_addr % 0x100_0000u64) * 0x1_0000u64 + 0x89u64
        * 0x100_0000_0000u64 + ((tss_addr / 0x100_0000u64) % 0x100u64)
        * 0x100_0000_0000_0000u64 && base_high_32 == tss_addr / 0x1_0000_0000u64) by (bit_vector)
        requires
            limit == 103u64,
            access == 0x89u64,
            base_low_24 == tss_addr & 0xFF_FFFFu64,
            base_mid_8 == (tss_addr >> 24u64) & 0xFFu64,
            base_high_32 == tss_addr >> 32u64,
            low == limit | (base_low_24 << 16u64) | (access << 40u64) | (base_mid_8 << 56u64),
    ;
    (low, base_high_32)
}

/// The TSS's base address can be read back from its descriptor.
pub proof fn lemma_tss_descriptor_base(addr: u64)
    ensures
        ({
            let low = tss_descriptor_low(addr);
            (low / 0x1_0000) % 0x100_0000 + ((low / 0x100_0000_0000_0000) % 0x100) * 0x100_0000
                + (addr / 0x1_0000_0000) * 0x1_0000_0000 == addr
        }),
{
    let low: u64 = (103 + (addr % 0x100_0000) * 0x1_0000 + 0x89 * 0x100_0000_0000 + ((addr
        / 0x100_0000) % 0x100) * 0x100_0000_0000_0000) as u64;
    assert((low / 0x1_0000u64) % 0x100_0000u64 + ((low / 0x100_0000_0000_0000u64) % 0x100u64)
        * 0x100_0000u64 + (addr / 0x1_0000_0000u64) * 0x1_0000_0000u64 == addr) by (bit_vector)
        requires
            low == 103u64 + (addr % 0x100_0000u64) * 0x1_0000u64 + 0x89u64 * 0x100_0000_0000u64
                + ((addr / 0x100_0000u64) % 0x100u64) * 0x100_0000_0000_0000u64,
    ;
}

} // verus!
