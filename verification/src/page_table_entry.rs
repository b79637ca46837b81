//! The raw 64-bit x86_64 page-table entry: Present (bit 0), Writable
//! (bit 1), Page Size (bit 7, meaningful in PDPT/PD entries), the physical
//! address (bits 51:12) and No-Execute (bit 63).
use vstd::prelude::*;

use crate::phys_addr::PhysAddr;

verus! {

pub const FLAG_PRESENT: u64 = 0x1;

pub const FLAG_WRITABLE: u64 = 0x2;

/// Bit 7 of a PDPT or PD entry: the entry maps a huge page (1 GiB or
/// 2 MiB) instead of pointing at the next table.
pub const FLAG_PAGE_SIZE: u64 = 0x80;

/// Bit 63: execute disable (needs `EFER.NXE`).
pub const FLAG_NO_EXECUTE: u64 = 0x8000_0000_0000_0000;

/// Bits 51:12: the physical address of the next table or mapped frame.
pub const ADDR_MASK: u64 = 0x000F_FFFF_FFFF_F000;

/// The permissions a caller chooses for a new mapping.
#[derive(Debug, Clone, Copy, PartialEq, Eq, Structural)]
pub struct PageFlags {
    pub writable: bool,
    pub no_execute: bool,
}

impl PageFlags {
    /// Read-write and executable.
    pub fn read_write() -> (r: Self)
        ensures
            r.writable,
            !r.no_execute,
    {
        PageFlags { writable: true, no_execute: false }
    }
}

/// The part of `v` that lies in bits 51:12.
pub open spec fn address_bits(v: u64) -> int {
    (v as int % 0x10_0000_0000_0000) / 4096 * 4096
}

/// Bit 0 of `v`.
pub open spec fn present_bit(v: u64) -> bool {
    v % 2 == 1
}

/// Bit 1 of `v`.
pub open spec fn writable_bit(v: u64) -> bool {
    (v / 2) % 2 == 1
}

/// Bit 7 of `v`.
pub open spec fn page_size_bit(v: u64) -> bool {
    (v / 0x80) % 2 == 1
}

/// Bit 63 of `v`.
pub open spec fn no_execute_bit(v: u64) -> bool {
    v >= 0x8000_0000_0000_0000
}

/// The raw entry value of a present leaf mapping `addr` with `flags`.
pub open spec fn leaf_value(addr: u64, flags: PageFlags) -> int {
    address_bits(addr) + 1 + (if flags.writable {
        2int
    } else {
        0int
    }) + (if flags.no_execute {
        0x8000_0000_0000_0000int
    } else {
        0int
    })
}

/// The raw entry value of a present, writable pointer to the table at
/// `addr`.
pub open spec fn table_pointer_value(addr: u64) -> int {
    address_bits(addr) + 3
}

/// One raw page-table entry, at any of the four levels.
#[derive(Debug, Clone, Copy, PartialEq, Eq, Structural)]
pub struct PageTableEntry(u64);

impl View for PageTableEntry {
    type V = u64;

    closed spec fn view(&self) -> u64 {
        self.0
    }
}

proof fn lemma_entry_bits(v: u64)
    ensures
        (v & 1u64 != 0u64) == present_bit(v),
        (v & 2u64 != 0u64) == writable_bit(v),
        (v & 0x80u64 != 0u64) == page_size_bit(v),
        (v & 0x8000_0000_0000_0000u64 != 0u64) == no_execute_bit(v),
        (v & 0x000F_FFFF_FFFF_F000u64) as int == address_bits(v),
{
    assert((v & 1u64 != 0u64) == (v % 2u64 == 1u64)) by (bit_vector);
    assert((v & 2u64 != 0u64) == ((v / 2u64) % 2u64 == 1u64)) by (bit_vector);
    assert((v & 0x80u64 != 0u64) == ((v / 0x80u64) % 2u64 == 1u64)) by (bit_vector);
    assert((v & 0x8000_0000_0000_0000u64 != 0u64) == (v >= 0x8000_0000_0000_0000u64))
        by (bit_vector);
    assert(v & 0x000F_FFFF_FFFF_F000u64 == (v % 0x10_0000_0000_0000u64) / 4096u64 * 4096u64)
        by (bit_vector);
}

proof fn lemma_compose(a: u64, w: bool, x: bool)
    ensures
        ({
            let m = a & 0x000F_FFFF_FFFF_F000u64;
            let v = m | 1u64 | (if w {
                2u64
            } else {
                0u64
            }) | (if x {
                0x8000_0000_0000_0000u64
            } else {
                0u64
            });
            &&& v as int == address_bits(a) + 1 + (if w {
                2int
            } else {
                0int
            }) + (if x {
                0x8000_0000_0000_0000int
            } else {
                0int
            })
            &&& present_bit(v)
            &&& writable_bit(v) == w
            &&& !page_size_bit(v)
            &&& no_execute_bit(v) == x
            &&& address_bits(v) == address_bits(a)
        }),
{
    let m = a & 0x000F_FFFF_FFFF_F000u64;
    let wv: u64 = if w {
        2u64
    } else {
        0u64
    };
    let xv: u64 = if x {
        0x8000_0000_0000_0000u64
    } else {
        0u64
    };
    let v = m | 1u64 | wv | xv;
    lemma_entry_bits(a);
    assert(v == m + 1u64 + wv + xv && v % 2u64 == 1u64 && ((v / 2u64) % 2u64 == 1u64) == (wv
        == 2u64) && (v / 0x80u64) % 2u64 == 0u64 && (v >= 0x8000_0000_0000_0000u64) == (xv
        == 0x8000_0000_0000_0000u64) && (v % 0x10_0000_0000_0000u64) / 4096u64 * 4096u64 == m)
        by (bit_vector)
        requires
            m == a & 0x000F_FFFF_FFFF_F000u64,
            wv == 0u64 || wv == 2u64,
            xv == 0u64 || xv == 0x8000_0000_0000_0000u64,
            v == m | 1u64 | wv | xv,
    ;
}

impl PageTableEntry {
    /// The entry whose raw value is `v`.
    pub closed spec fn from_raw_spec(v: u64) -> PageTableEntry {
        PageTableEntry(v)
    }

    pub proof fn lemma_from_raw_spec(v: u64)
        ensures
            Self::from_raw_spec(v)@ == v,
    {
    }

    /// Two entries are equal exactly when their raw values are.
    pub proof fn lemma_view_injective(a: PageTableEntry, b: PageTableEntry)
        ensures
            (a@ == b@) <==> (a == b),
    {
    }

    /// The entry read back from a page-table word.
    pub fn from_raw(v: u64) -> (r: Self)
        ensures
            r@ == v,
    {
        PageTableEntry(v)
    }

    /// The raw value to store in a page-table word.
    pub fn to_raw(self) -> (r: u64)
        ensures
            r == self@,
    {
        self.0
    }

    pub fn is_present(self) -> (r: bool)
        ensures
            r == present_bit(self@),
    {
        proof {
            lemma_entry_bits(self.0);
        }
        (self.0 & FLAG_PRESENT) != 0
    }

    /// Whether any bit of `flag` is set in the entry.
    pub fn raw_has_flag(self, flag: u64) -> (r: bool)
        ensures
            r == (self@ & flag != 0),
            flag == FLAG_PAGE_SIZE ==> r == page_size_bit(self@),
    {
        proof {
            lemma_entry_bits(self.0);
        }
        (self.0 & flag) != 0
    }

    /// The physical address in bits 51:12 (meaningful only when present).
    pub fn addr(self) -> (r: PhysAddr)
        ensures
            r@ == address_bits(self@),
    {
        proof {
            lemma_entry_bits(self.0);
        }
        PhysAddr::new(self.0 & ADDR_MASK)
    }

    pub fn is_writable(self) -> (r: bool)
        ensures
            r == writable_bit(self@),
    {
        proof {
            lemma_entry_bits(self.0);
        }
        (self.0 & FLAG_WRITABLE) != 0
    }

    pub fn is_no_execute(self) -> (r: bool)
        ensures
            r == no_execute_bit(self@),
    {
        proof {
            lemma_entry_bits(self.0);
        }
        (self.0 & FLAG_NO_EXECUTE) != 0
    }

    /// A present, writable pointer to the next-level table at `addr`.
    pub fn new_table_pointer(addr: PhysAddr) -> (r: Self)
        ensures
            r@ == table_pointer_value(addr@),
            present_bit(r@),
            writable_bit(r@),
            !page_size_bit(r@),
            !no_execute_bit(r@),
            address_bits(r@) == address_bits(addr@),
    {
        let a = addr.as_u64();
        let v = (a & ADDR_MASK) | FLAG_PRESENT | FLAG_WRITABLE;
        proof {
            lemma_compose(a, true, false);
            assert(v == (a & 0x000F_FFFF_FFFF_F000u64) | 1u64 | 2u64 | 0u64) by (bit_vector)
                requires
                    v == (a & 0x000F_FFFF_FFFF_F000u64) | 1u64 | 2u64,
            ;
        }
        PageTableEntry(v)
    }

    /// A present leaf entry mapping the frame at `addr` with `flags`.
    pub fn new_leaf(addr: PhysAddr, flags: PageFlags) -> (r: Self)
        ensures
            r@ == leaf_value(addr@, flags),
            present_bit(r@),
            writable_bit(r@) == flags.writable,
            no_execute_bit(r@) == flags.no_execute,
            !page_size_bit(r@),
            address_bits(r@) == address_bits(addr@),
    {
        let writable = if flags.writable {
            FLAG_WRITABLE
        } else {
            0
        };
        let no_execute = if flags.no_execute {
            FLAG_NO_EXECUTE
        } else {
            0
        };
        let bits = (addr.as_u64() & ADDR_MASK) | FLAG_PRESENT | writable | no_execute;
        proof {
            lemma_compose(addr@, flags.writable, flags.no_execute);
        }
        PageTableEntry(bits)
    }

    /// The empty, not-present entry.
    pub fn cleared() -> (r: Self)
        ensures
            r@ == 0,
            !present_bit(r@),
    {
        PageTableEntry(0)
    }
}

/// An address that is frame-aligned and below 2^52 survives the round trip
/// through an entry's address bits unchanged.
pub proof fn lemma_aligned_address_round_trips(addr: u64)
    requires
        addr % 4096 == 0,
        addr < 0x10_0000_0000_0000,
    ensures
        address_bits(addr) == addr,
{
}

} // verus!
