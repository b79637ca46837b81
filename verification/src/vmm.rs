//! The decisions of the virtual memory manager's 4-level page-table walk.
//!
//! The page tables live in physical memory reached through the
//! bootloader's identity map. Each operation here (`translate`,
//! `flags_at`, `unmap`, `map`) is a state machine: it says which page-table
//! entry to read next, and from the entry read decides the next read, the
//! write to make, or the result. The caller performs the reads and writes
//! (and the TLB invalidation after each write) and hands each entry back.
//! Every page-table address the walk asks to touch is below
//! `IDENTITY_MAP_LIMIT`.
use vstd::prelude::*;

use crate::frame_allocator::{allocated_below, FrameAllocator, IDENTITY_MAP_LIMIT};
use crate::page_table_entry::{
    address_bits,
    no_execute_bit,
    page_size_bit,
    present_bit,
    writable_bit,
    PageFlags,
    PageTableEntry,
    FLAG_PAGE_SIZE,
};
use crate::phys_addr::PhysAddr;
use crate::virt_addr::{pd_index_of, pdpt_index_of, pml4_index_of, pt_index_of, VirtAddr};

verus! {

#[derive(Debug, Clone, Copy, PartialEq, Eq, Structural)]
pub enum MapError {
    /// `virt` or `phys` was not 4 KiB-aligned.
    NotPageAligned,
    /// A mapping already exists at this virtual address.
    AlreadyMapped,
    /// No free frame below `IDENTITY_MAP_LIMIT` for a new table.
    OutOfFrames,
    /// A table pointer met on the walk lies at or above
    /// `IDENTITY_MAP_LIMIT`.
    PageTableUnreachable,
    /// The walk met an existing huge-page entry.
    WouldOverlapHugePage,
}

#[derive(Debug, Clone, Copy, PartialEq, Eq, Structural)]
pub enum UnmapError {
    NotPageAligned,
    /// No mapping exists at this virtual address.
    NotMapped,
    PageTableUnreachable,
    /// The address falls within a huge-page mapping.
    IsHugePage,
}

/// The EFER machine-specific register and its no-execute-enable bit
/// (bit 11), without which bit 63 of an entry is reserved.
pub const EFER_MSR: u32 = 0xC000_0080;

pub const EFER_NXE_BIT: u64 = 0x800;

/// The EFER value read by RDMSR as its low (EAX) and high (EDX) halves.
pub fn efer_from_halves(low: u32, high: u32) -> (r: u64)
    ensures
        r == high * 0x1_0000_0000 + low,
{
    let h = high as u64;
    let l = low as u64;
    assert((h << 32u64) | l == h * 0x1_0000_0000u64 + l) by (bit_vector)
        requires
            h < 0x1_0000_0000u64,
            l < 0x1_0000_0000u64,
    ;
    (h << 32u64) | l
}

/// The low (EAX) and high (EDX) halves WRMSR takes for `value`.
pub fn efer_halves(value: u64) -> (r: (u32, u32))
    ensures
        r.0 == value % 0x1_0000_0000,
        r.1 == value / 0x1_0000_0000,
{
    assert(value & 0xFFFF_FFFFu64 == value % 0x1_0000_0000u64 && value >> 32u64 == value
        / 0x1_0000_0000u64) by (bit_vector);
    ((value & 0xFFFF_FFFF) as u32, (value >> 32u64) as u32)
}

/// The EFER value to write so that no-execute is enabled, keeping every
/// other bit; `None` when it already is (nothing to write).
pub fn efer_with_nxe(current: u64) -> (r: Option<u64>)
    ensures
        r == if current & EFER_NXE_BIT == 0 {
            Some(current | EFER_NXE_BIT)
        } else {
            None::<u64>
        },
        r matches Some(v) ==> v & EFER_NXE_BIT != 0 && v & !EFER_NXE_BIT == current
            & !EFER_NXE_BIT,
{
    if current & EFER_NXE_BIT == 0 {
        let v = current | EFER_NXE_BIT;
        assert(v & 0x800u64 != 0u64 && v & !0x800u64 == current & !0x800u64) by (bit_vector)
            requires
                v == current | 0x800u64,
        ;
        Some(v)
    } else {
        None
    }
}

/// The physical address of a page table, when the identity map reaches it.
pub fn checked_table_ptr(phys: PhysAddr) -> (r: Result<u64, ()>)
    ensures
        r == (if phys@ < IDENTITY_MAP_LIMIT {
            Ok::<u64, ()>(phys@)
        } else {
            Err::<u64, ()>(())
        }),
{
    if phys.as_u64() >= IDENTITY_MAP_LIMIT {
        return Err(());
    }
    Ok(phys.as_u64())
}

/// The table index the walk for `v` uses at `level` (0 = PML4, 1 = PDPT,
/// 2 = PD, 3 = PT).
pub open spec fn level_index(level: int, v: u64) -> int {
    if level == 0 {
        pml4_index_of(v)
    } else if level == 1 {
        pdpt_index_of(v)
    } else if level == 2 {
        pd_index_of(v)
    } else {
        pt_index_of(v)
    }
}

/// A position in a walk: the entry for `virt` in the table at physical
/// address `table`, which sits at `level` of the hierarchy.
#[derive(Debug, Clone, Copy, PartialEq, Eq, Structural)]
pub struct Walk {
    pub virt: VirtAddr,
    pub level: usize,
    pub table: u64,
}

impl Walk {
    /// The walk's levels run from 0 to 3, over tables the identity map
    /// reaches.
    pub open spec fn wf(&self) -> bool {
        &&& self.level <= 3
        &&& self.table < IDENTITY_MAP_LIMIT
    }

    /// The index of the entry to read in `table`.
    pub fn index(&self) -> (r: usize)
        requires
            self.wf(),
        ensures
            r == level_index(self.level as int, self.virt@),
            r < 512,
    {
        if self.level == 0 {
            self.virt.pml4_index()
        } else if self.level == 1 {
            self.virt.pdpt_index()
        } else if self.level == 2 {
            self.virt.pd_index()
        } else {
            self.virt.pt_index()
        }
    }
}

/// The walk one level further down, in the table at `next`.
pub open spec fn descend(w: Walk, next: u64) -> Walk {
    Walk { virt: w.virt, level: (w.level + 1) as usize, table: next }
}

/// The start of the walk for `virt` from the PML4 at `pml4`, or `None`
/// when the identity map does not reach it.
pub open spec fn walk_start(pml4: PhysAddr, virt: VirtAddr) -> Option<Walk> {
    if pml4@ < IDENTITY_MAP_LIMIT {
        Some(Walk { virt, level: 0, table: pml4@ })
    } else {
        None
    }
}

/// The translation of `virt` by a huge-page entry `e` at `level` (1: 1 GiB
/// page, 2: 2 MiB page): the page's base from the entry plus the offset of
/// `virt` within the page.
pub open spec fn huge_translation(level: int, e: u64, virt: u64) -> int {
    let page: int = if level == 1 {
        0x4000_0000
    } else {
        0x20_0000
    };
    address_bits(e) / page * page + (virt as int) % page
}

/// A step of `translate`.
#[derive(Debug, Clone, Copy, PartialEq, Eq, Structural)]
pub enum TranslateStep {
    /// Read the entry `walk` designates and hand it to `translate_step`.
    Read(Walk),
    /// The walk is over: the physical address `virt` maps to, if any.
    Done(Option<PhysAddr>),
}

/// Where `translate` goes from the entry `e` read at `w`.
pub open spec fn translate_next(w: Walk, e: u64) -> TranslateStep {
    if !present_bit(e) {
        TranslateStep::Done(None)
    } else if w.level == 3 {
        TranslateStep::Done(
            Some(PhysAddr::from_raw_spec((address_bits(e) + w.virt@ % 4096) as u64)),
        )
    } else if (w.level == 1 || w.level == 2) && page_size_bit(e) {
        TranslateStep::Done(
            Some(PhysAddr::from_raw_spec(huge_translation(w.level as int, e, w.virt@) as u64)),
        )
    } else if address_bits(e) >= IDENTITY_MAP_LIMIT {
        TranslateStep::Done(None)
    } else {
        TranslateStep::Read(descend(w, address_bits(e) as u64))
    }
}

/// A step of `flags_at`.
#[derive(Debug, Clone, Copy, PartialEq, Eq, Structural)]
pub enum FlagsStep {
    Read(Walk),
    /// The permissions of the 4 KiB mapping at `virt`, if there is one.
    Done(Option<PageFlags>),
}

/// Where `flags_at` goes from the entry `e` read at `w`.
pub open spec fn flags_next(w: Walk, e: u64) -> FlagsStep {
    if !present_bit(e) {
        FlagsStep::Done(None)
    } else if w.level == 3 {
        FlagsStep::Done(Some(PageFlags { writable: writable_bit(e), no_execute: no_execute_bit(e) }))
    } else if (w.level == 1 || w.level == 2) && page_size_bit(e) {
        FlagsStep::Done(None)
    } else if address_bits(e) >= IDENTITY_MAP_LIMIT {
        FlagsStep::Done(None)
    } else {
        FlagsStep::Read(descend(w, address_bits(e) as u64))
    }
}

/// A step of `unmap`.
#[derive(Debug, Clone, Copy, PartialEq, Eq, Structural)]
pub enum UnmapStep {
    Read(Walk),
    /// Write the cleared entry at `walk`, invalidate the TLB entry for
    /// `virt`, and report `frame` as the frame that was mapped.
    Clear { at: Walk, frame: PhysAddr },
    Failed(UnmapError),
}

/// Where `unmap` goes from the entry `e` read at `w`.
pub open spec fn unmap_next(w: Walk, e: u64) -> UnmapStep {
    if !present_bit(e) {
        UnmapStep::Failed(UnmapError::NotMapped)
    } else if w.level == 3 {
        UnmapStep::Clear { at: w, frame: PhysAddr::from_raw_spec(address_bits(e) as u64) }
    } else if (w.level == 1 || w.level == 2) && page_size_bit(e) {
        UnmapStep::Failed(UnmapError::IsHugePage)
    } else if address_bits(e) >= IDENTITY_MAP_LIMIT {
        UnmapStep::Failed(UnmapError::PageTableUnreachable)
    } else {
        UnmapStep::Read(descend(w, address_bits(e) as u64))
    }
}

/// A step of `map`.
#[derive(Debug, Clone, Copy, PartialEq, Eq, Structural)]
pub enum MapStep {
    Read(Walk),
    /// Zero the page at `new_table`, write `entry` (a pointer to it) at
    /// `at`, then read the entry `next` designates in the new table.
    CreateTable { at: Walk, new_table: u64, entry: PageTableEntry, next: Walk },
    /// Write the leaf `entry` at `at`, then invalidate the TLB entry for
    /// the address mapped: the mapping is made.
    WriteLeaf { at: Walk, entry: PageTableEntry },
    Failed(MapError),
}

/// Where `map` goes from the entry `e` read at `w`, when `e` is present or
/// `w` is at the last level (the other steps need no frame).
pub open spec fn map_next_present(w: Walk, e: u64, phys: PhysAddr, flags: PageFlags) -> MapStep {
    if w.level == 3 {
        if present_bit(e) {
            MapStep::Failed(MapError::AlreadyMapped)
        } else {
            MapStep::WriteLeaf {
                at: w,
                entry: PageTableEntry::from_raw_spec(
                    crate::page_table_entry::leaf_value(phys@, flags) as u64,
                ),
            }
        }
    } else if page_size_bit(e) {
        MapStep::Failed(MapError::WouldOverlapHugePage)
    } else if address_bits(e) >= IDENTITY_MAP_LIMIT {
        MapStep::Failed(MapError::PageTableUnreachable)
    } else {
        MapStep::Read(descend(w, address_bits(e) as u64))
    }
}

/// The virtual memory manager: the physical address of the active PML4.
#[derive(Debug, Clone, Copy, PartialEq, Eq, Structural)]
pub struct VirtualMemoryManager {
    pml4_phys: PhysAddr,
}

impl VirtualMemoryManager {
    pub closed spec fn pml4(&self) -> PhysAddr {
        self.pml4_phys
    }

    /// A manager over the tables whose PML4 sits at `pml4_phys` (the value
    /// of CR3 at boot).
    pub fn new(pml4_phys: PhysAddr) -> (r: Self)
        ensures
            r.pml4() == pml4_phys,
    {
        VirtualMemoryManager { pml4_phys }
    }

    pub fn pml4_phys(&self) -> (r: PhysAddr)
        ensures
            r == self.pml4(),
    {
        self.pml4_phys
    }

    /// The first entry to read for any walk of `virt`.
    fn start(&self, virt: VirtAddr) -> (r: Option<Walk>)
        ensures
            r == walk_start(self.pml4(), virt),
            r matches Some(w) ==> w.wf(),
    {
        match checked_table_ptr(self.pml4_phys) {
            Ok(table) => Some(Walk { virt, level: 0, table }),
            Err(()) => None,
        }
    }

    /// The first step of translating `virt` to the physical address it maps
    /// to.
    pub fn translate_start(&self, virt: VirtAddr) -> (r: TranslateStep)
        ensures
            r == match walk_start(self.pml4(), virt) {
                Some(w) => TranslateStep::Read(w),
                None => TranslateStep::Done(None),
            },
            r matches TranslateStep::Read(w) ==> w.wf(),
    {
        match self.start(virt) {
            Some(w) => TranslateStep::Read(w),
            None => TranslateStep::Done(None),
        }
    }

    /// The first step of reading the permissions of the mapping at `virt`.
    pub fn flags_at_start(&self, virt: VirtAddr) -> (r: FlagsStep)
        ensures
            r == match walk_start(self.pml4(), virt) {
                Some(w) => FlagsStep::Read(w),
                None => FlagsStep::Done(None),
            },
            r matches FlagsStep::Read(w) ==> w.wf(),
    {
        match self.start(virt) {
            Some(w) => FlagsStep::Read(w),
            None => FlagsStep::Done(None),
        }
    }

    /// The first step of removing the 4 KiB mapping at `virt`.
    pub fn unmap_start(&self, virt: VirtAddr) -> (r: UnmapStep)
        ensures
            r == if virt@ % 4096 != 0 {
                UnmapStep::Failed(UnmapError::NotPageAligned)
            } else {
                match walk_start(self.pml4(), virt) {
                    Some(w) => UnmapStep::Read(w),
                    None => UnmapStep::Failed(UnmapError::PageTableUnreachable),
                }
            },
            r matches UnmapStep::Read(w) ==> w.wf(),
    {
        if !virt.is_page_aligned() {
            return UnmapStep::Failed(UnmapError::NotPageAligned);
        }
        match self.start(virt) {
            Some(w) => UnmapStep::Read(w),
            None => UnmapStep::Failed(UnmapError::PageTableUnreachable),
        }
    }

    /// The first step of mapping `virt` to `phys`.
    pub fn map_start(&self, virt: VirtAddr, phys: PhysAddr) -> (r: MapStep)
        ensures
            r == if virt@ % 4096 != 0 || phys@ % 4096 != 0 {
                MapStep::Failed(MapError::NotPageAligned)
            } else {
                match walk_start(self.pml4(), virt) {
                    Some(w) => MapStep::Read(w),
                    None => MapStep::Failed(MapError::PageTableUnreachable),
                }
            },
            r matches MapStep::Read(w) ==> w.wf(),
    {
        if !virt.is_page_aligned() || !phys.is_frame_aligned() {
            return MapStep::Failed(MapError::NotPageAligned);
        }
        match self.start(virt) {
            Some(w) => MapStep::Read(w),
            None => MapStep::Failed(MapError::PageTableUnreachable),
        }
    }
}

/// The next table of a present, non-huge entry, when reachable.
fn next_table(walk: Walk, entry: PageTableEntry) -> (r: Option<Walk>)
    requires
        walk.wf(),
        walk.level < 3,
    ensures
        r == if address_bits(entry@) >= IDENTITY_MAP_LIMIT {
            None
        } else {
            Some(descend(walk, address_bits(entry@) as u64))
        },
        r matches Some(w) ==> w.wf(),
{
    match checked_table_ptr(entry.addr()) {
        Ok(table) => Some(Walk { virt: walk.virt, level: walk.level + 1, table }),
        Err(()) => None,
    }
}

/// Combining the base of a huge page with the offset of `virt` inside it.
proof fn lemma_huge_translation(level: int, a: u64, virt: u64)
    requires
        level == 1 || level == 2,
    ensures
        ({
            let mask: u64 = if level == 1 {
                0x3FFF_FFFFu64
            } else {
                0x1F_FFFFu64
            };
            let page: int = if level == 1 {
                0x4000_0000
            } else {
                0x20_0000
            };
            ((a & !mask) | (virt & mask)) as int == (a as int) / page * page + (virt as int) % page
        }),
{
    if level == 1 {
        assert((a & !0x3FFF_FFFFu64) | (virt & 0x3FFF_FFFFu64) == a / 0x4000_0000u64
            * 0x4000_0000u64 + virt % 0x4000_0000u64) by (bit_vector);
    } else {
        assert((a & !0x1F_FFFFu64) | (virt & 0x1F_FFFFu64) == a / 0x20_0000u64 * 0x20_0000u64
            + virt % 0x20_0000u64) by (bit_vector);
    }
}

/// A frame-aligned address combined with an in-page offset.
proof fn lemma_leaf_translation(a: u64, offset: u64)
    requires
        a % 4096 == 0,
        offset < 4096,
    ensures
        (a | offset) as int == a + offset,
{
    assert(a % 4096u64 == 0u64 && offset < 4096u64 ==> a | offset == a + offset) by (bit_vector);
}

/// The next step of `translate`, from the entry `entry` read at `walk`.
pub fn translate_step(walk: Walk, entry: PageTableEntry) -> (r: TranslateStep)
    requires
        walk.wf(),
    ensures
        r == translate_next(walk, entry@),
        r matches TranslateStep::Read(w) ==> w.wf(),
{
    if !entry.is_present() {
        return TranslateStep::Done(None);
    }
    if walk.level == 3 {
        let a = entry.addr().as_u64();
        let offset = walk.virt.page_offset();
        proof {
            lemma_leaf_translation(a, offset);
        }
        return TranslateStep::Done(Some(PhysAddr::new(a | offset)));
    }
    if (walk.level == 1 || walk.level == 2) && entry.raw_has_flag(FLAG_PAGE_SIZE) {
        let mask: u64 = if walk.level == 1 {
            0x3FFF_FFFF
        } else {
            0x1F_FFFF
        };
        let a = entry.addr().as_u64();
        proof {
            lemma_huge_translation(walk.level as int, a, walk.virt@);
        }
        let base = a & !mask;
        return TranslateStep::Done(Some(PhysAddr::new(base | (walk.virt.as_u64() & mask))));
    }
    match next_table(walk, entry) {
        Some(w) => TranslateStep::Read(w),
        None => TranslateStep::Done(None),
    }
}

/// The next step of `flags_at`, from the entry `entry` read at `walk`.
pub fn flags_step(walk: Walk, entry: PageTableEntry) -> (r: FlagsStep)
    requires
        walk.wf(),
    ensures
        r == flags_next(walk, entry@),
        r matches FlagsStep::Read(w) ==> w.wf(),
{
    if !entry.is_present() {
        return FlagsStep::Done(None);
    }
    if walk.level == 3 {
        return FlagsStep::Done(
            Some(PageFlags { writable: entry.is_writable(), no_execute: entry.is_no_execute() }),
        );
    }
    if (walk.level == 1 || walk.level == 2) && entry.raw_has_flag(FLAG_PAGE_SIZE) {
        return FlagsStep::Done(None);
    }
    match next_table(walk, entry) {
        Some(w) => FlagsStep::Read(w),
        None => FlagsStep::Done(None),
    }
}

/// The next step of `unmap`, from the entry `entry` read at `walk`.
pub fn unmap_step(walk: Walk, entry: PageTableEntry) -> (r: UnmapStep)
    requires
        walk.wf(),
    ensures
        r == unmap_next(walk, entry@),
        r matches UnmapStep::Read(w) ==> w.wf(),
        r matches UnmapStep::Clear { at, frame } ==> at.wf(),
{
    if !entry.is_present() {
        return UnmapStep::Failed(UnmapError::NotMapped);
    }
    if walk.level == 3 {
        let frame = entry.addr();
        proof {
            PhysAddr::lemma_from_raw_spec(address_bits(entry@) as u64);
            PhysAddr::lemma_view_injective(
                frame,
                PhysAddr::from_raw_spec(address_bits(entry@) as u64),
            );
        }
        return UnmapStep::Clear { at: walk, frame };
    }
    if (walk.level == 1 || walk.level == 2) && entry.raw_has_flag(FLAG_PAGE_SIZE) {
        return UnmapStep::Failed(UnmapError::IsHugePage);
    }
    match next_table(walk, entry) {
        Some(w) => UnmapStep::Read(w),
        None => UnmapStep::Failed(UnmapError::PageTableUnreachable),
    }
}

/// The next step of `map`, from the entry `entry` read at `walk`. A missing
/// intermediate table is allocated from `allocator` (the lowest free frame
/// below `IDENTITY_MAP_LIMIT`) and its creation requested.
pub fn map_step(
    allocator: &mut FrameAllocator,
    walk: Walk,
    entry: PageTableEntry,
    phys: PhysAddr,
    flags: PageFlags,
) -> (r: MapStep)
    requires
        old(allocator).wf(),
        walk.wf(),
    ensures
        final(allocator).wf(),
        walk.level == 3 || present_bit(entry@) ==> {
            &&& r == map_next_present(walk, entry@, phys, flags)
            &&& *final(allocator) == *old(allocator)
        },
        walk.level < 3 && !present_bit(entry@) ==> match r {
            MapStep::CreateTable { at, new_table, entry: table_entry, next } => {
                &&& allocated_below(
                    *old(allocator),
                    *final(allocator),
                    PhysAddr::from_raw_spec(IDENTITY_MAP_LIMIT),
                    PhysAddr::from_raw_spec(new_table),
                )
                &&& at == walk
                &&& table_entry@ == crate::page_table_entry::table_pointer_value(new_table)
                &&& next == descend(walk, new_table)
            },
            MapStep::Failed(MapError::OutOfFrames) => {
                &&& forall|f: int|
                    0 <= f < crate::frame_allocator::below_bound(
                        *old(allocator),
                        PhysAddr::from_raw_spec(IDENTITY_MAP_LIMIT),
                    ) ==> !#[trigger] old(allocator).free_map()[f]
                &&& crate::frame_allocator::same_state(*old(allocator), *final(allocator))
            },
            _ => false,
        },
        r matches MapStep::Read(w) ==> w.wf(),
        r matches MapStep::CreateTable { at, new_table, entry, next } ==> at.wf() && next.wf()
            && new_table < IDENTITY_MAP_LIMIT,
        r matches MapStep::WriteLeaf { at, entry } ==> at.wf(),
{
    if walk.level == 3 {
        if entry.is_present() {
            return MapStep::Failed(MapError::AlreadyMapped);
        }
        let leaf = PageTableEntry::new_leaf(phys, flags);
        proof {
            let v = crate::page_table_entry::leaf_value(phys@, flags) as u64;
            PageTableEntry::lemma_from_raw_spec(v);
            PageTableEntry::lemma_view_injective(leaf, PageTableEntry::from_raw_spec(v));
        }
        return MapStep::WriteLeaf { at: walk, entry: leaf };
    }
    if entry.is_present() {
        if entry.raw_has_flag(FLAG_PAGE_SIZE) {
            return MapStep::Failed(MapError::WouldOverlapHugePage);
        }
        return match next_table(walk, entry) {
            Some(w) => MapStep::Read(w),
            None => MapStep::Failed(MapError::PageTableUnreachable),
        };
    }
    let limit = PhysAddr::new(IDENTITY_MAP_LIMIT);
    let new_table_phys = match allocator.allocate_below(limit) {
        Some(f) => f,
        None => {
            return MapStep::Failed(MapError::OutOfFrames);
        },
    };
    proof {
        crate::frame_allocator::lemma_allocations_take_a_free_frame(
            *old(allocator),
            *allocator,
            limit,
            new_table_phys,
        );
        PhysAddr::lemma_from_raw_spec(new_table_phys@);
        PhysAddr::lemma_view_injective(new_table_phys, PhysAddr::from_raw_spec(new_table_phys@));
    }
    let new_table = match checked_table_ptr(new_table_phys) {
        Ok(t) => t,
        Err(()) => {
            return MapStep::Failed(MapError::PageTableUnreachable);
        },
    };
    let table_entry = PageTableEntry::new_table_pointer(new_table_phys);
    MapStep::CreateTable {
        at: walk,
        new_table,
        entry: table_entry,
        next: Walk { virt: walk.virt, level: walk.level + 1, table: new_table },
    }
}

// ---------------------------------------------------------------------------
// Laws: how the operations read what the operations write.
// ---------------------------------------------------------------------------

/// A leaf entry written by `map` for `phys` with `flags` reads back, at the
/// same place, as a mapping of the page at `virt` to `phys` with exactly
/// those flags: `translate` finds `phys`, `flags_at` finds `flags`,
/// `unmap` clears it and reports `phys`, and a second `map` is refused.
pub proof fn lemma_leaf_reads_back(w: Walk, phys: PhysAddr, flags: PageFlags)
    requires
        w.wf(),
        w.level == 3,
        w.virt@ % 4096 == 0,
        phys@ % 4096 == 0,
        phys@ < 0x10_0000_0000_0000,
    ensures
        ({
            let e = crate::page_table_entry::leaf_value(phys@, flags) as u64;
            &&& translate_next(w, e) == TranslateStep::Done(Some(phys))
            &&& flags_next(w, e) == FlagsStep::Done(Some(flags))
            &&& unmap_next(w, e) == UnmapStep::Clear { at: w, frame: phys }
            &&& map_next_present(w, e, phys, flags) == MapStep::Failed(MapError::AlreadyMapped)
        }),
{
    let e = crate::page_table_entry::leaf_value(phys@, flags) as u64;
    lemma_leaf_value_bits(phys@, flags);
    PhysAddr::lemma_from_raw_spec(phys@);
    PhysAddr::lemma_view_injective(phys, PhysAddr::from_raw_spec(phys@));
    assert(address_bits(e) == phys@);
}

/// The bits of a freshly built leaf entry, read back.
proof fn lemma_leaf_value_bits(a: u64, flags: PageFlags)
    requires
        a % 4096 == 0,
        a < 0x10_0000_0000_0000,
    ensures
        ({
            let e = crate::page_table_entry::leaf_value(a, flags);
            &&& 0 <= e <= u64::MAX
            &&& present_bit(e as u64)
            &&& writable_bit(e as u64) == flags.writable
            &&& no_execute_bit(e as u64) == flags.no_execute
            &&& !page_size_bit(e as u64)
            &&& address_bits(e as u64) == a
        }),
{
    let w: u64 = if flags.writable {
        2
    } else {
        0
    };
    let x: u64 = if flags.no_execute {
        0x8000_0000_0000_0000
    } else {
        0
    };
    assert(address_bits(a) == a);
    let e: u64 = (a + 1 + w + x) as u64;
    assert(e as int == crate::page_table_entry::leaf_value(a, flags));
    assert(e % 2 == 1 && ((e / 2) % 2 == 1) == (w == 2) && (e >= 0x8000_0000_0000_0000) == (x
        == 0x8000_0000_0000_0000) && (e / 0x80) % 2 == 0 && (e % 0x10_0000_0000_0000) / 4096
        * 4096 == a) by (bit_vector)
        requires
            a % 4096 == 0,
            a < 0x10_0000_0000_0000,
            w == 0 || w == 2,
            x == 0 || x == 0x8000_0000_0000_0000,
            e == a + 1 + w + x,
    ;
}

/// After `unmap` clears an entry, `translate` and `flags_at` find no
/// mapping there, a second `unmap` reports `NotMapped`, and `map` may
/// write a new leaf there.
pub proof fn lemma_cleared_reads_back(w: Walk, phys: PhysAddr, flags: PageFlags)
    requires
        w.wf(),
        w.level == 3,
    ensures
        translate_next(w, 0) == TranslateStep::Done(None),
        flags_next(w, 0) == FlagsStep::Done(None),
        unmap_next(w, 0) == UnmapStep::Failed(UnmapError::NotMapped),
        map_next_present(w, 0, phys, flags) matches MapStep::WriteLeaf { at, .. } && at == w,
{
}

/// Through a present entry that is not a huge page, all four operations
/// walk on to the same next table, or all stop because the identity map
/// does not reach it.
pub proof fn lemma_walks_agree(w: Walk, e: u64, phys: PhysAddr, flags: PageFlags)
    requires
        w.wf(),
        w.level < 3,
        present_bit(e),
        !page_size_bit(e),
    ensures
        address_bits(e) < IDENTITY_MAP_LIMIT ==> {
            let next = descend(w, address_bits(e) as u64);
            &&& translate_next(w, e) == TranslateStep::Read(next)
            &&& flags_next(w, e) == FlagsStep::Read(next)
            &&& unmap_next(w, e) == UnmapStep::Read(next)
            &&& map_next_present(w, e, phys, flags) == MapStep::Read(next)
        },
        address_bits(e) >= IDENTITY_MAP_LIMIT ==> {
            &&& translate_next(w, e) == TranslateStep::Done(None)
            &&& flags_next(w, e) == FlagsStep::Done(None)
            &&& unmap_next(w, e) == UnmapStep::Failed(UnmapError::PageTableUnreachable)
            &&& map_next_present(w, e, phys, flags) == MapStep::Failed(
                MapError::PageTableUnreachable,
            )
        },
{
}

/// A table pointer written by `map` when it creates a table leads every
/// later walk into that table.
pub proof fn lemma_created_table_is_followed(w: Walk, new_table: u64, phys: PhysAddr, flags: PageFlags)
    requires
        w.wf(),
        w.level < 3,
        new_table % 4096 == 0,
        new_table < IDENTITY_MAP_LIMIT,
    ensures
        ({
            let e = crate::page_table_entry::table_pointer_value(new_table) as u64;
            let next = descend(w, new_table);
            &&& translate_next(w, e) == TranslateStep::Read(next)
            &&& flags_next(w, e) == FlagsStep::Read(next)
            &&& unmap_next(w, e) == UnmapStep::Read(next)
            &&& map_next_present(w, e, phys, flags) == MapStep::Read(next)
        }),
{
    let flags_rw = PageFlags { writable: true, no_execute: false };
    lemma_leaf_value_bits(new_table, flags_rw);
    assert(crate::page_table_entry::table_pointer_value(new_table)
        == crate::page_table_entry::leaf_value(new_table, flags_rw));
}

/// A present entry ends the walk with the address it maps: a 4 KiB leaf
/// (level 3) maps `virt` to the frame in the entry's bits 51:12 plus
/// `virt`'s offset in its 4 KiB page; a huge-page entry at level 1 (1 GiB)
/// or level 2 (2 MiB) maps it to the entry's page base, aligned to that
/// page size, plus `virt`'s offset in the page. The result lies inside the
/// page the entry names.
pub proof fn lemma_present_entry_translation(w: Walk, e: u64)
    requires
        w.wf(),
        e % 2 == 1,
        w.level == 3 || ((w.level == 1 || w.level == 2) && (e / 0x80) % 2 == 1),
    ensures
        translate_next(w, e) matches TranslateStep::Done(Some(p)) && {
            let low = e as int % 0x10_0000_0000_0000;
            let page: int = if w.level == 1 {
                0x4000_0000
            } else if w.level == 2 {
                0x20_0000
            } else {
                0x1000
            };
            &&& p@ == low / page * page + w.virt@ as int % page
            &&& low / page * page <= p@ < low / page * page + page
        },
{
    let v = w.virt@;
    let low: u64 = e % 0x10_0000_0000_0000u64;
    if w.level == 3 {
        assert(address_bits(e) + v % 4096 == low / 0x1000 * 0x1000 + v % 0x1000);
        PhysAddr::lemma_from_raw_spec((address_bits(e) + v % 4096) as u64);
    } else if w.level == 1 {
        let m: u64 = (low / 0x1000u64 * 0x1000u64) as u64;
        assert(m / 0x4000_0000u64 * 0x4000_0000u64 == low / 0x4000_0000u64 * 0x4000_0000u64) by (bit_vector)
            requires
                m == low / 0x1000u64 * 0x1000u64,
                low < 0x10_0000_0000_0000u64,
        ;
        assert(low / 0x4000_0000u64 * 0x4000_0000u64 + v % 0x4000_0000u64 <= u64::MAX) by (
        bit_vector)
            requires
                low < 0x10_0000_0000_0000u64,
        ;
        PhysAddr::lemma_from_raw_spec(huge_translation(1, e, v) as u64);
    } else {
        let m: u64 = (low / 0x1000u64 * 0x1000u64) as u64;
        assert(m / 0x20_0000u64 * 0x20_0000u64 == low / 0x20_0000u64 * 0x20_0000u64) by (bit_vector)
            requires
                m == low / 0x1000u64 * 0x1000u64,
                low < 0x10_0000_0000_0000u64,
        ;
        assert(low / 0x20_0000u64 * 0x20_0000u64 + v % 0x20_0000u64 <= u64::MAX) by (bit_vector)
            requires
                low < 0x10_0000_0000_0000u64,
        ;
        PhysAddr::lemma_from_raw_spec(huge_translation(2, e, v) as u64);
    }
}

} // verus!
