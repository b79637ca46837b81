//! The kernel heap: a first-fit free-list allocator over the kernel-heap
//! region of the address space, grown on demand by mapping whole pages at
//! the next unmapped heap address.
//!
//! Growth runs in three parts: `growth_plan` decides how many pages to map
//! and where; `growth_start` and `growth_step` take a fresh frame for each
//! page in turn and ask the caller to map it read-write (through the
//! page-table walk of `vmm`), unwinding what was mapped if a frame or a
//! mapping fails; and `finish_growth`, given the finished growth, hands the
//! mapped region to the free list.
use vstd::prelude::*;

use crate::linked_list_allocator::{
    adjustable,
    adjusted_align,
    adjusted_size,
    alloc_found,
    frees_union,
    is_free_byte,
    is_power_of_two,
    lemma_free_run_satisfies_request,
    no_fit,
    round_up,
    scan_in_range,
    Layout,
    LinkedListAllocator,
};
use crate::frame_allocator::{allocated, deallocation, none_free, same_state, FrameAllocator};
use crate::page_table_entry::PageFlags;
use crate::phys_addr::PhysAddr;
use crate::virt_addr::VirtAddr;

verus! {

pub const PAGE_SIZE: u64 = 4096;

/// Base of the kernel heap region.
pub const HEAP_REGION_START: u64 = 0xFFFF_8800_0000_0000;

/// Top of the kernel heap region, where the kernel image begins; growth
/// never crosses it.
pub const HEAP_REGION_END: u64 = 0xFFFF_FFFF_8000_0000;

/// The fewest pages one growth step maps.
pub const HEAP_GROWTH_MIN_PAGES: u64 = 16;

/// A growth step: map `pages` pages from `start` on, then call
/// `finish_growth`.
#[derive(Debug, Clone, Copy, PartialEq, Eq, Structural)]
pub struct GrowthPlan {
    pub start: u64,
    pub pages: u64,
}

/// The number of pages a growth step for `l` maps: enough for its size
/// (at least one), and at least `HEAP_GROWTH_MIN_PAGES`.
pub open spec fn growth_pages(l: Layout) -> int {
    let needed = (l.size_spec() + 4095) / 4096;
    let needed = if needed < 1 {
        1
    } else {
        needed
    };
    if needed < HEAP_GROWTH_MIN_PAGES {
        HEAP_GROWTH_MIN_PAGES as int
    } else {
        needed
    }
}

/// The kernel heap: its free list and the next heap address not yet
/// mapped.
pub struct KernelHeap {
    allocator: LinkedListAllocator,
    next_unmapped: u64,
}

impl KernelHeap {
    pub closed spec fn free_list(&self) -> Seq<crate::linked_list_allocator::FreeBlock> {
        self.allocator.free_list()
    }

    /// The next heap address growth will map.
    pub closed spec fn frontier(&self) -> int {
        self.next_unmapped as int
    }

    /// The heap's invariant: its free memory lies between the region's base
    /// and the frontier, which is page-aligned and within the region.
    pub closed spec fn wf(&self) -> bool {
        &&& self.allocator.wf()
        &&& HEAP_REGION_START <= self.next_unmapped <= HEAP_REGION_END
        &&& self.next_unmapped % PAGE_SIZE == 0
        &&& forall|x: int|
            #[trigger] is_free_byte(self.allocator.free_list(), x) ==> HEAP_REGION_START <= x
                < self.next_unmapped
    }

    /// An empty heap: nothing mapped yet; the first allocation grows it.
    pub fn new() -> (r: Self)
        ensures
            r.wf(),
            r.frontier() == HEAP_REGION_START,
            r.free_list() == Seq::<crate::linked_list_allocator::FreeBlock>::empty(),
    {
        KernelHeap { allocator: LinkedListAllocator::new(), next_unmapped: HEAP_REGION_START }
    }

    /// Whether the heap's first-fit search can serve `layout` without
    /// leaving `usize` (to be tested before `try_alloc`).
    pub fn can_search(&self, layout: Layout) -> (r: bool)
        requires
            self.wf(),
            layout.wf(),
        ensures
            r == (adjustable(layout) && scan_in_range(
                self.free_list(),
                adjusted_size(layout),
                adjusted_align(layout),
            )),
    {
        layout.is_adjustable() && self.allocator.scan_stays_in_range(layout)
    }

    /// Allocate from memory already mapped: the address of the block, or 0
    /// when none fits.
    pub fn try_alloc(&mut self, layout: Layout) -> (r: usize)
        requires
            old(self).wf(),
            layout.wf(),
            adjustable(layout),
            scan_in_range(old(self).free_list(), adjusted_size(layout), adjusted_align(layout)),
        ensures
            final(self).wf(),
            final(self).frontier() == old(self).frontier(),
            no_fit(old(self).free_list(), layout) ==> r == 0 && final(self).free_list() == old(
                self,
            ).free_list(),
            !no_fit(old(self).free_list(), layout) ==> alloc_found(
                old(self).free_list(),
                final(self).free_list(),
                layout,
                r as int,
            ),
    {
        let ghost s = self.allocator.free_list();
        let r = self.allocator.alloc_first_fit(layout);
        proof {
            if !no_fit(s, layout) {
                let t = self.allocator.free_list();
                crate::linked_list_allocator::lemma_alloc_frees_within_old(s, t, layout, r as int);
            }
        }
        r
    }

    /// How to grow the heap for `layout`: map `growth_pages(layout)` pages
    /// at the frontier; `None` when that would cross `HEAP_REGION_END`
    /// (or leave the addresses `usize` holds).
    pub fn growth_plan(&self, layout: Layout) -> (r: Option<GrowthPlan>)
        requires
            self.wf(),
            layout.wf(),
        ensures
            ({
                let end = self.frontier() + growth_pages(layout) * PAGE_SIZE;
                match r {
                    Some(p) => {
                        &&& p.start == self.frontier()
                        &&& p.pages == growth_pages(layout)
                        &&& end <= HEAP_REGION_END
                        &&& end <= usize::MAX
                    },
                    None => end > HEAP_REGION_END || end > usize::MAX,
                }
            }),
    {
        proof {
            layout.lemma_wf_bounds();
        }
        let size = layout.size() as u64;
        let mut pages_needed = size / PAGE_SIZE + if size % PAGE_SIZE != 0 {
            1
        } else {
            0
        };
        if pages_needed < 1 {
            pages_needed = 1;
        }
        let pages_to_map = if pages_needed < HEAP_GROWTH_MIN_PAGES {
            HEAP_GROWTH_MIN_PAGES
        } else {
            pages_needed
        };
        proof {
            assert(pages_to_map == growth_pages(layout));
            assert(pages_to_map <= 0x8_0000_0000_0000);
        }
        let growth_bytes = pages_to_map * PAGE_SIZE;
        let growth_start = self.next_unmapped;
        let growth_end = match growth_start.checked_add(growth_bytes) {
            Some(end) => end,
            None => {
                return None;
            },
        };
        if growth_end > HEAP_REGION_END || growth_end > usize::MAX as u64 {
            return None;
        }
        Some(GrowthPlan { start: growth_start, pages: pages_to_map })
    }

    /// Hand the region a growth just mapped to the free list, and move the
    /// frontier past it: `growth` is the growth that reported `Finished`,
    /// every page of its plan mapped.
    pub fn finish_growth(&mut self, growth: &Growth)
        requires
            old(self).wf(),
            growth.wf(),
            growth.finished(),
            growth.planned().start == old(self).frontier(),
        ensures
            final(self).wf(),
            final(self).frontier() == growth.planned().start + growth.planned().pages * PAGE_SIZE,
            frees_union(
                old(self).free_list(),
                final(self).free_list(),
                growth.planned().start as int,
                growth.planned().pages * PAGE_SIZE,
            ),
    {
        let plan = growth.plan();
        let bytes = plan.pages * PAGE_SIZE;
        let ghost s = self.allocator.free_list();
        proof {
            assert(HEAP_REGION_START % 8 == 0);
            assert(bytes >= 16);
            assert forall|x: int|
                plan.start <= x < plan.start + bytes implies !#[trigger] is_free_byte(s, x) by {}
        }
        self.allocator.add_free_region(plan.start as usize, bytes as usize);
        self.next_unmapped = plan.start + bytes;
    }

    /// Return a block `try_alloc(layout)` handed out.
    pub fn dealloc(&mut self, ptr: usize, layout: Layout)
        requires
            old(self).wf(),
            layout.wf(),
            adjustable(layout),
            ptr % 8 == 0,
            HEAP_REGION_START <= ptr,
            ptr + adjusted_size(layout) <= old(self).frontier(),
            crate::linked_list_allocator::region_not_free(
                old(self).free_list(),
                ptr as int,
                adjusted_size(layout),
            ),
        ensures
            final(self).wf(),
            final(self).frontier() == old(self).frontier(),
            frees_union(old(self).free_list(), final(self).free_list(), ptr as int, adjusted_size(layout)),
    {
        self.allocator.dealloc(ptr, layout);
    }
}

/// A growth step maps the fewest pages that hold the layout's size, but
/// never fewer than `HEAP_GROWTH_MIN_PAGES` (16).
pub proof fn lemma_growth_pages_fit_the_request(l: Layout)
    requires
        l.wf(),
    ensures
        growth_pages(l) >= 16,
        growth_pages(l) * 4096 >= l.size_spec(),
        growth_pages(l) == 16 || (growth_pages(l) - 1) * 4096 < l.size_spec(),
{
    l.lemma_wf_bounds();
    let size = l.size_spec();
    let q = (size + 4095) / 4096;
    assert(q * 4096 >= size && (q - 1) * 4096 < size || size == 0) by (nonlinear_arith)
        requires
            q == (size + 4095) / 4096,
            size >= 0,
    ;
}

/// Every free byte of the heap lies between the region's base and the
/// frontier, which stays page-aligned and within the region: the frontier
/// only moves past a growth whose pages were all mapped.
pub proof fn lemma_free_memory_below_frontier(h: KernelHeap)
    requires
        h.wf(),
    ensures
        HEAP_REGION_START <= h.frontier() <= HEAP_REGION_END,
        h.frontier() % (PAGE_SIZE as int) == 0,
        forall|x: int|
            #[trigger] is_free_byte(h.free_list(), x) ==> HEAP_REGION_START <= x < h.frontier(),
{
}

/// A smaller power of two divides a larger one.
proof fn lemma_power_of_two_divides_larger(p: int, n: int)
    requires
        is_power_of_two(p),
        is_power_of_two(n),
        p <= n,
    ensures
        n % p == 0,
    decreases p,
{
    if p == 1 {
        assert(n % 1 == 0);
    } else {
        assert(p % 2 == 0 && is_power_of_two(p / 2));
        assert(n > 1);
        assert(n % 2 == 0 && is_power_of_two(n / 2));
        lemma_power_of_two_divides_larger(p / 2, n / 2);
        let k = (n / 2) / (p / 2);
        vstd::arithmetic::div_mod::lemma_fundamental_div_mod(n / 2, p / 2);
        assert(n == k * p) by (nonlinear_arith)
            requires
                n / 2 == (p / 2) * k,
                n == 2 * (n / 2),
                p == 2 * (p / 2),
        ;
        vstd::arithmetic::div_mod::lemma_mod_multiples_basic(k, p);
    }
}

/// Growing the heap for a layout makes room for it: after `finish_growth`
/// of the plan `growth_plan(layout)` gave, the first-fit search for that
/// layout finds a block, provided its alignment is at most a page (the
/// growth region starts on a page boundary).
pub proof fn lemma_growth_makes_room(
    before: KernelHeap,
    after: KernelHeap,
    layout: Layout,
    plan: GrowthPlan,
)
    requires
        before.wf(),
        after.wf(),
        layout.wf(),
        adjusted_align(layout) <= PAGE_SIZE,
        plan.start == before.frontier(),
        plan.pages == growth_pages(layout),
        frees_union(
            before.free_list(),
            after.free_list(),
            plan.start as int,
            plan.pages * PAGE_SIZE,
        ),
    ensures
        !no_fit(after.free_list(), layout),
{
    let al = adjusted_align(layout);
    let a = plan.start as int;
    let m = plan.pages * PAGE_SIZE;
    layout.lemma_wf_bounds();
    reveal_with_fuel(is_power_of_two, 14);
    assert(is_power_of_two(4096));
    assert(is_power_of_two(al));
    lemma_power_of_two_divides_larger(al, 4096);
    let c = 4096int / al;
    vstd::arithmetic::div_mod::lemma_fundamental_div_mod(4096, al);
    // The growth region starts on a page, hence on an `al` boundary.
    let q = a / 4096int;
    vstd::arithmetic::div_mod::lemma_fundamental_div_mod(a, 4096);
    assert(a == (q * c) * al) by (nonlinear_arith)
        requires
            a == 4096 * q,
            4096 == al * c,
    ;
    vstd::arithmetic::div_mod::lemma_mod_multiples_basic(q * c, al);
    // Its `m` bytes, a multiple of `al` no smaller than the size, hold the
    // padded size.
    let size = layout.size_spec();
    let pages = plan.pages as int;
    assert(size <= pages * 4096) by (nonlinear_arith)
        requires
            pages >= (size + 4095) / 4096,
            size >= 0,
    ;
    assert(pages * 4096 == (pages * c) * al) by (nonlinear_arith)
        requires
            4096 == al * c,
    ;
    assert(round_up(size, al) <= pages * 4096) by (nonlinear_arith)
        requires
            pages * 4096 == (pages * c) * al,
            size <= (pages * c) * al,
            size >= 0,
            al > 0,
            round_up(size, al) == (size + al - 1) / al * al,
    {
        let k = pages * c;
        assert((size + al - 1) / al <= k);
    }
    assert(adjusted_size(layout) <= m);
    assert forall|x: int| a <= x < a + adjusted_size(layout) implies #[trigger] is_free_byte(
        after.free_list(),
        x,
    ) by {}
    lemma_free_run_satisfies_request(after.free_list(), layout, a);
}

/// The virtual address of page `i` of a growth step.
pub fn growth_page(plan: GrowthPlan, i: u64) -> (r: VirtAddr)
    requires
        i < plan.pages,
        plan.start + plan.pages * PAGE_SIZE <= u64::MAX,
    ensures
        r@ == plan.start + i * PAGE_SIZE,
{
    proof {
        assert(i * PAGE_SIZE <= plan.pages * PAGE_SIZE) by (nonlinear_arith)
            requires
                i < plan.pages,
        ;
    }
    VirtAddr::new(plan.start + i * PAGE_SIZE)
}

/// The virtual address of page `i` of `plan`.
pub open spec fn plan_page(plan: GrowthPlan, i: int) -> u64 {
    (plan.start + i * PAGE_SIZE) as u64
}

/// A plan a growth can run: at least one page, ending within the heap
/// region and within `usize`.
pub open spec fn runnable(plan: GrowthPlan) -> bool {
    &&& plan.pages >= 1
    &&& plan.start + plan.pages * PAGE_SIZE <= HEAP_REGION_END
    &&& plan.start + plan.pages * PAGE_SIZE <= usize::MAX
}

/// `deallocate` of `frame` took `before` to `after`, with whichever
/// outcome it reported.
pub open spec fn freed(before: FrameAllocator, after: FrameAllocator, frame: PhysAddr) -> bool {
    exists|d: Result<(), crate::frame_allocator::DeallocError>|
        #[trigger] deallocation(before, after, frame, d)
}

/// What the caller does next for a growth in progress.
#[derive(Debug, Clone, Copy, PartialEq, Eq, Structural)]
pub enum GrowthAction {
    /// Map the page at `virt` to `frame` with `flags`, then report
    /// `Mapped` or `MapFailed`.
    MapPage { virt: VirtAddr, frame: PhysAddr, flags: PageFlags },
    /// Unmap the page at `virt`, then report `Unmapped` with the frame
    /// `unmap` returned, if any.
    UnmapPage { virt: VirtAddr },
    /// Every page of the plan is mapped: hand the growth to
    /// `KernelHeap::finish_growth`.
    Finished,
    /// The growth failed; every page it mapped has been unmapped (as far as
    /// `unmap` allowed) and its frame freed.
    Failed,
}

/// What the caller reports after carrying out a `GrowthAction`.
#[derive(Debug, Clone, Copy, PartialEq, Eq, Structural)]
pub enum GrowthEvent {
    Mapped,
    MapFailed,
    Unmapped(Option<PhysAddr>),
}

/// A growth in progress: mapping the pages of `plan` one by one, or
/// unwinding the ones mapped after a failure.
pub struct Growth {
    plan: GrowthPlan,
    /// Pages mapped so far (while mapping), or still mapped (while
    /// unwinding).
    mapped: u64,
    /// The frame taken for the page being mapped.
    pending: PhysAddr,
    unwinding: bool,
    /// The frames mapped to pages `0..mapped`, in order.
    frames: Ghost<Seq<PhysAddr>>,
}

impl Growth {
    /// The plan this growth maps.
    pub closed spec fn planned(&self) -> GrowthPlan {
        self.plan
    }

    pub fn plan(&self) -> (r: GrowthPlan)
        ensures
            r == self.planned(),
    {
        self.plan
    }

    /// The number of pages mapped (while mapping) or still to unmap (while
    /// unwinding).
    pub closed spec fn mapped_pages(&self) -> int {
        self.mapped as int
    }

    /// The frames mapped to pages `0..mapped_pages()`, in order.
    pub closed spec fn mapped_frames(&self) -> Seq<PhysAddr> {
        self.frames@
    }

    /// The frame taken for the page being mapped (meaningful while mapping).
    pub closed spec fn pending_frame(&self) -> PhysAddr {
        self.pending
    }

    pub closed spec fn unwinding_spec(&self) -> bool {
        self.unwinding
    }

    /// Every page of the plan is mapped.
    pub open spec fn finished(&self) -> bool {
        !self.unwinding_spec() && self.mapped_pages() == self.planned().pages
    }

    pub closed spec fn wf(&self) -> bool {
        &&& runnable(self.plan)
        &&& self.mapped <= self.plan.pages
        &&& self.frames@.len() == self.mapped
    }

    /// The event a caller can report for this growth: `Mapped` or
    /// `MapFailed` while a page is being mapped, `Unmapped` while
    /// unwinding with a page left to unmap.
    pub open spec fn expects(&self, event: GrowthEvent) -> bool {
        if self.unwinding_spec() {
            event is Unmapped && self.mapped_pages() > 0
        } else {
            !(event is Unmapped) && self.mapped_pages() < self.planned().pages
        }
    }
}

/// Start mapping `plan`: take a frame for its first page and ask for the
/// page to be mapped read-write to it, or fail at once (nothing mapped)
/// when no frame is free.
pub fn growth_start(allocator: &mut FrameAllocator, plan: GrowthPlan) -> (r: (Growth, GrowthAction))
    requires
        old(allocator).wf(),
        runnable(plan),
    ensures
        final(allocator).wf(),
        r.0.wf(),
        r.0.planned() == plan,
        r.0.mapped_pages() == 0,
        r.0.mapped_frames() == Seq::<PhysAddr>::empty(),
        match r.1 {
            GrowthAction::MapPage { virt, frame, flags } => {
                &&& allocated(*old(allocator), *final(allocator), frame)
                &&& virt@ == plan_page(plan, 0)
                &&& flags == PageFlags { writable: true, no_execute: false }
                &&& !r.0.unwinding_spec()
                &&& r.0.pending_frame() == frame
            },
            GrowthAction::Failed => {
                &&& none_free(old(allocator).free_map())
                &&& same_state(*old(allocator), *final(allocator))
                &&& r.0.unwinding_spec()
            },
            _ => false,
        },
{
    let virt = growth_page(plan, 0);
    match allocator.allocate() {
        Some(frame) => (
            Growth { plan, mapped: 0, pending: frame, unwinding: false, frames: Ghost(Seq::empty()) },
            GrowthAction::MapPage { virt, frame, flags: PageFlags::read_write() },
        ),
        None => (
            Growth {
                plan,
                mapped: 0,
                pending: PhysAddr::new(0),
                unwinding: true,
                frames: Ghost(Seq::empty()),
            },
            GrowthAction::Failed,
        ),
    }
}

/// The next step of a growth, from the outcome of the last action:
/// - `Mapped`: the page is recorded as mapped to its frame; then either
///   every page is mapped (`Finished`), or a frame is taken for the next
///   page and its mapping asked for, or, no frame being free, unwinding
///   starts with the last page mapped.
/// - `MapFailed`: the frame taken for the page is freed and unwinding
///   starts with the last page mapped.
/// - `Unmapped`: the frame `unmap` returned is freed (a page `unmap`
///   could not remove keeps its frame), and the page before is asked to be
///   unmapped.
/// Unwinding ends in `Failed` once no mapped page is left.
pub fn growth_step(allocator: &mut FrameAllocator, growth: Growth, event: GrowthEvent) -> (r: (
    Growth,
    GrowthAction,
))
    requires
        old(allocator).wf(),
        growth.wf(),
        growth.expects(event),
    ensures
        final(allocator).wf(),
        r.0.wf(),
        r.0.planned() == growth.planned(),
        r.1 matches GrowthAction::MapPage { virt, frame, flags } ==> {
            &&& allocated(*old(allocator), *final(allocator), frame)
            &&& virt@ == plan_page(growth.planned(), r.0.mapped_pages())
            &&& flags == PageFlags { writable: true, no_execute: false }
            &&& !r.0.unwinding_spec()
            &&& r.0.pending_frame() == frame
        },
        r.1 matches GrowthAction::UnmapPage { virt } ==> {
            &&& r.0.unwinding_spec()
            &&& r.0.mapped_pages() > 0
            &&& virt@ == plan_page(growth.planned(), r.0.mapped_pages() - 1)
        },
        r.1 is Finished ==> r.0.finished() && *final(allocator) == *old(allocator),
        r.1 is Failed ==> r.0.unwinding_spec() && r.0.mapped_pages() == 0,
        event == GrowthEvent::Mapped ==> {
            let m = growth.mapped_pages() + 1;
            let fs = growth.mapped_frames().push(growth.pending_frame());
            &&& r.0.mapped_pages() == m
            &&& r.0.mapped_frames() == fs
            &&& (m == growth.planned().pages <==> r.1 is Finished)
            &&& m < growth.planned().pages ==> (r.1 is MapPage || (r.1 is UnmapPage && none_free(
                old(allocator).free_map(),
            ) && same_state(*old(allocator), *final(allocator))))
        },
        event == GrowthEvent::MapFailed ==> {
            &&& freed(*old(allocator), *final(allocator), growth.pending_frame())
            &&& r.0.mapped_pages() == growth.mapped_pages()
            &&& r.0.mapped_frames() == growth.mapped_frames()
            &&& (growth.mapped_pages() == 0 <==> r.1 is Failed)
            &&& r.1 is UnmapPage || r.1 is Failed
        },
        event matches GrowthEvent::Unmapped(res) ==> {
            let k = growth.mapped_pages() - 1;
            &&& r.0.mapped_pages() == k
            &&& r.0.mapped_frames() == growth.mapped_frames().take(k)
            &&& res matches Some(f) ==> freed(*old(allocator), *final(allocator), f)
            &&& res is None ==> *final(allocator) == *old(allocator)
            &&& (k == 0 <==> r.1 is Failed)
            &&& r.1 is UnmapPage || r.1 is Failed
        },
{
    let plan = growth.plan;
    let ghost fs0 = growth.frames@;
    match event {
        GrowthEvent::Mapped => {
            let m = growth.mapped + 1;
            let ghost fs = fs0.push(growth.pending);
            if m == plan.pages {
                return (
                    Growth { plan, mapped: m, pending: growth.pending, unwinding: false, frames: Ghost(fs) },
                    GrowthAction::Finished,
                );
            }
            match allocator.allocate() {
                Some(frame) => (
                    Growth { plan, mapped: m, pending: frame, unwinding: false, frames: Ghost(fs) },
                    GrowthAction::MapPage {
                        virt: growth_page(plan, m),
                        frame,
                        flags: PageFlags::read_write(),
                    },
                ),
                None => (
                    Growth { plan, mapped: m, pending: growth.pending, unwinding: true, frames: Ghost(fs) },
                    GrowthAction::UnmapPage { virt: growth_page(plan, m - 1) },
                ),
            }
        },
        GrowthEvent::MapFailed => {
            let d = allocator.deallocate(growth.pending);
            proof {
                assert(deallocation(*old(allocator), *allocator, growth.pending, d));
            }
            let next = Growth {
                plan,
                mapped: growth.mapped,
                pending: growth.pending,
                unwinding: true,
                frames: Ghost(fs0),
            };
            if growth.mapped == 0 {
                (next, GrowthAction::Failed)
            } else {
                (next, GrowthAction::UnmapPage { virt: growth_page(plan, growth.mapped - 1) })
            }
        },
        GrowthEvent::Unmapped(res) => {
            match res {
                Some(f) => {
                    let d = allocator.deallocate(f);
                    proof {
                        assert(deallocation(*old(allocator), *allocator, f, d));
                    }
                },
                None => {},
            }
            let k = growth.mapped - 1;
            let next = Growth {
                plan,
                mapped: k,
                pending: growth.pending,
                unwinding: true,
                frames: Ghost(fs0.take(k as int)),
            };
            if k == 0 {
                (next, GrowthAction::Failed)
            } else {
                (next, GrowthAction::UnmapPage { virt: growth_page(plan, k - 1) })
            }
        },
    }
}

} // verus!
