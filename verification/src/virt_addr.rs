//! Virtual addresses, and their decomposition into the four 9-bit
//! page-table indices (PML4/PDPT/PD/PT) and the 12-bit page offset of
//! x86_64 4-level paging.
use vstd::prelude::*;

use crate::phys_addr::FRAME_SIZE;

verus! {

/// A virtual address. A labelling newtype: it does not validate.
#[derive(Clone, Copy, Debug, PartialEq, Eq, Structural, PartialOrd, Ord, Hash)]
pub struct VirtAddr(u64);

impl View for VirtAddr {
    type V = u64;

    closed spec fn view(&self) -> u64 {
        self.0
    }
}

/// Bits 20:12 of `addr`, 29:21, 38:30 and 47:39 respectively.
pub open spec fn pt_index_of(addr: u64) -> int {
    (addr as int / 0x1000) % 512
}

pub open spec fn pd_index_of(addr: u64) -> int {
    (addr as int / 0x20_0000) % 512
}

pub open spec fn pdpt_index_of(addr: u64) -> int {
    (addr as int / 0x4000_0000) % 512
}

pub open spec fn pml4_index_of(addr: u64) -> int {
    (addr as int / 0x80_0000_0000) % 512
}

impl VirtAddr {
    /// Two addresses are equal exactly when their raw values are.
    pub proof fn lemma_view_injective(a: VirtAddr, b: VirtAddr)
        ensures
            (a@ == b@) <==> (a == b),
    {
    }

    pub fn new(addr: u64) -> (r: Self)
        ensures
            r@ == addr,
    {
        VirtAddr(addr)
    }

    pub fn as_u64(self) -> (r: u64)
        ensures
            r == self@,
    {
        self.0
    }

    /// True when the address is a multiple of the 4 KiB page size.
    pub fn is_page_aligned(self) -> (r: bool)
        ensures
            r == (self@ % FRAME_SIZE == 0),
    {
        self.0 % FRAME_SIZE == 0
    }

    /// PML4 table index: bits 47:39.
    pub fn pml4_index(self) -> (r: usize)
        ensures
            r == pml4_index_of(self@),
            r < 512,
    {
        let a = self.0;
        assert((a >> 39u64) & 0x1ffu64 == (a / 0x80_0000_0000u64) % 512u64) by (bit_vector);
        ((a >> 39u64) & 0x1ff) as usize
    }

    /// PDPT index: bits 38:30.
    pub fn pdpt_index(self) -> (r: usize)
        ensures
            r == pdpt_index_of(self@),
            r < 512,
    {
        let a = self.0;
        assert((a >> 30u64) & 0x1ffu64 == (a / 0x4000_0000u64) % 512u64) by (bit_vector);
        ((a >> 30u64) & 0x1ff) as usize
    }

    /// PD index: bits 29:21.
    pub fn pd_index(self) -> (r: usize)
        ensures
            r == pd_index_of(self@),
            r < 512,
    {
        let a = self.0;
        assert((a >> 21u64) & 0x1ffu64 == (a / 0x20_0000u64) % 512u64) by (bit_vector);
        ((a >> 21u64) & 0x1ff) as usize
    }

    /// PT index: bits 20:12.
    pub fn pt_index(self) -> (r: usize)
        ensures
            r == pt_index_of(self@),
            r < 512,
    {
        let a = self.0;
        assert((a >> 12u64) & 0x1ffu64 == (a / 0x1000u64) % 512u64) by (bit_vector);
        ((a >> 12u64) & 0x1ff) as usize
    }

    /// Offset within the 4 KiB page: bits 11:0.
    pub fn page_offset(self) -> (r: u64)
        ensures
            r == self@ % 4096,
    {
        let a = self.0;
        assert(a & 0xfffu64 == a % 4096u64) by (bit_vector);
        a & 0xfff
    }
}

/// The four indices and the page offset put back together give the low 48
/// bits of the address they came from: the decomposition loses nothing
/// below bit 48.
pub proof fn lemma_indices_recombine(addr: u64)
    ensures
        pml4_index_of(addr) * 0x80_0000_0000 + pdpt_index_of(addr) * 0x4000_0000 + pd_index_of(
            addr,
        ) * 0x20_0000 + pt_index_of(addr) * 0x1000 + addr % 4096 == addr % 0x1_0000_0000_0000,
{
    assert((addr / 0x80_0000_0000u64) % 512u64 * 0x80_0000_0000u64 + (addr / 0x4000_0000u64)
        % 512u64 * 0x4000_0000u64 + (addr / 0x20_0000u64) % 512u64 * 0x20_0000u64 + (addr
        / 0x1000u64) % 512u64 * 0x1000u64 + addr % 4096u64 == addr % 0x1_0000_0000_0000u64)
        by (bit_vector);
}

/// Two addresses in the same 4 KiB page have the same four indices.
pub proof fn lemma_same_page_same_indices(a: u64, b: u64)
    requires
        a / 4096 == b / 4096,
    ensures
        pml4_index_of(a) == pml4_index_of(b),
        pdpt_index_of(a) == pdpt_index_of(b),
        pd_index_of(a) == pd_index_of(b),
        pt_index_of(a) == pt_index_of(b),
{
    assert(a / 4096u64 == b / 4096u64 ==> (a / 0x80_0000_0000u64) % 512u64 == (b
        / 0x80_0000_0000u64) % 512u64 && (a / 0x4000_0000u64) % 512u64 == (b / 0x4000_0000u64)
        % 512u64 && (a / 0x20_0000u64) % 512u64 == (b / 0x20_0000u64) % 512u64 && (a / 0x1000u64)
        % 512u64 == (b / 0x1000u64) % 512u64) by (bit_vector);
}

} // verus!
