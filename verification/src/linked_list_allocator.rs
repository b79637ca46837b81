//! First-fit free-list heap allocation over an address range handed in by
//! the caller.
//!
//! The free list is kept sorted by address and coalesced: a freed region
//! merges with an immediately adjacent free block on either side, so the
//! list always holds maximal, pairwise separated runs of free bytes.
//! Leftover gaps smaller than one block header are lost rather than
//! tracked.
use vstd::prelude::*;

use vstd::arithmetic::div_mod::lemma_mod_multiples_basic;

verus! {

/// The smallest block the allocator tracks: a freed block must hold its own
/// list header (a size and a link, 16 bytes on a 64-bit target).
pub const MIN_BLOCK_SIZE: usize = 16;

/// The alignment every block start keeps (that of the list header).
pub const BLOCK_ALIGN: usize = 8;

/// `n` is a power of two.
pub open spec fn is_power_of_two(n: int) -> bool
    decreases n,
{
    if n <= 0 {
        false
    } else if n == 1 {
        true
    } else {
        n % 2 == 0 && is_power_of_two(n / 2)
    }
}

/// `x` rounded up to a multiple of `align`.
pub open spec fn round_up(x: int, align: int) -> int {
    (x + align - 1) / align * align
}

/// The largest value of `isize`, as the bound std places on allocation
/// sizes.
pub open spec fn isize_max() -> int {
    isize::MAX as int
}

/// A size and power-of-two alignment for an allocation, with the size,
/// rounded up to the alignment, no larger than `isize::MAX`.
#[derive(Debug, Clone, Copy, PartialEq, Eq, Structural)]
pub struct Layout {
    size: usize,
    align: usize,
}

impl Layout {
    pub closed spec fn size_spec(&self) -> int {
        self.size as int
    }

    pub closed spec fn align_spec(&self) -> int {
        self.align as int
    }

    /// Every layout keeps these.
    pub closed spec fn wf(&self) -> bool {
        &&& is_power_of_two(self.align as int)
        &&& self.size <= isize::MAX - (self.align - 1)
    }

    /// A layout of `size` bytes aligned to `align`; `None` unless `align`
    /// is a power of two and `size` rounded up to it fits in `isize`.
    pub fn from_size_align(size: usize, align: usize) -> (r: Option<Layout>)
        ensures
            match r {
                Some(l) => {
                    &&& l.wf()
                    &&& l.size_spec() == size
                    &&& l.align_spec() == align
                },
                None => !is_power_of_two(align as int) || size > isize::MAX - (align - 1),
            },
    {
        if !power_of_two(align) {
            return None;
        }
        let max_size: usize = isize::MAX as usize;
        if align - 1 > max_size || size > max_size - (align - 1) {
            return None;
        }
        Some(Layout { size, align })
    }

    /// What every layout keeps: a positive power-of-two alignment, and a size
    /// no larger than `isize::MAX`.
    pub proof fn lemma_wf_bounds(&self)
        requires
            self.wf(),
        ensures
            0 <= self.size_spec() <= isize_max(),
            self.align_spec() >= 1,
            is_power_of_two(self.align_spec()),
    {
    }

    /// Whether raising this layout's alignment to `BLOCK_ALIGN` keeps its
    /// padded size within `isize::MAX`, as reserving a block for it needs.
    pub fn is_adjustable(&self) -> (r: bool)
        requires
            self.wf(),
        ensures
            r == adjustable(*self),
    {
        let align = if self.align < BLOCK_ALIGN {
            BLOCK_ALIGN
        } else {
            self.align
        };
        let max_size: usize = isize::MAX as usize;
        align - 1 <= max_size && self.size <= max_size - (align - 1)
    }

    pub fn size(&self) -> (r: usize)
        ensures
            r == self.size_spec(),
    {
        self.size
    }

    pub fn align(&self) -> (r: usize)
        ensures
            r == self.align_spec(),
    {
        self.align
    }
}

/// Whether `n` is a power of two.
fn power_of_two(n: usize) -> (r: bool)
    ensures
        r == is_power_of_two(n as int),
{
    if n == 0 {
        return false;
    }
    let mut m = n;
    while m > 1 && m % 2 == 0
        invariant
            m >= 1,
            is_power_of_two(m as int) == is_power_of_two(n as int),
        decreases m,
    {
        m = m / 2;
    }
    m == 1
}

proof fn lemma_power_of_two_divides(n: int)
    requires
        is_power_of_two(n),
        n >= 8,
    ensures
        n % 8 == 0,
{
    assert(n / 2 >= 4);
    assert(is_power_of_two(n / 2));
    assert(n / 4 >= 2);
    assert(is_power_of_two(n / 4));
    assert((n / 4) % 2 == 0);
}

/// The size and alignment actually reserved for `l`: alignment at least
/// `BLOCK_ALIGN`, size padded to that alignment and at least
/// `MIN_BLOCK_SIZE`.
pub open spec fn adjusted_align(l: Layout) -> int {
    if l.align_spec() < BLOCK_ALIGN {
        BLOCK_ALIGN as int
    } else {
        l.align_spec()
    }
}

pub open spec fn adjusted_size(l: Layout) -> int {
    let s = round_up(l.size_spec(), adjusted_align(l));
    if s < MIN_BLOCK_SIZE {
        MIN_BLOCK_SIZE as int
    } else {
        s
    }
}

/// Raising `l`'s alignment to `BLOCK_ALIGN` keeps its padded size within
/// `isize::MAX` (raising it further would not fit).
pub open spec fn adjustable(l: Layout) -> bool {
    l.size_spec() <= isize_max() - (adjusted_align(l) - 1)
}

/// Rounds `layout` up to what the allocator reserves for it.
pub fn adjusted_size_align(layout: Layout) -> (r: (usize, usize))
    requires
        layout.wf(),
        adjustable(layout),
    ensures
        r.0 == adjusted_size(layout),
        r.1 == adjusted_align(layout),
        r.0 % BLOCK_ALIGN == 0,
        r.1 % BLOCK_ALIGN == 0,
        r.0 % r.1 == 0 || r.0 == MIN_BLOCK_SIZE,
        is_power_of_two(r.1 as int),
        r.0 <= isize::MAX,
{
    let align = if layout.align() < BLOCK_ALIGN {
        BLOCK_ALIGN
    } else {
        layout.align()
    };
    proof {
        reveal_with_fuel(is_power_of_two, 4);
        lemma_power_of_two_divides(align as int);
        assert((layout.size_spec() + align - 1) / (align as int) * (align as int) <= isize_max())
            by (nonlinear_arith)
            requires
                layout.size_spec() <= isize_max() - (align - 1),
                align >= 8,
        ;
    }
    let padded = (layout.size() + align - 1) / align * align;
    let size = if padded < MIN_BLOCK_SIZE {
        MIN_BLOCK_SIZE
    } else {
        padded
    };
    proof {
        assert((padded as int) % (align as int) == 0) by (nonlinear_arith)
            requires
                padded == (layout.size_spec() + align - 1) / (align as int) * (align as int),
                align > 0,
        ;
        let q = (layout.size_spec() + align - 1) / (align as int);
        let m = (align as int) / 8;
        assert(padded == (q * m) * 8) by (nonlinear_arith)
            requires
                padded == q * (align as int),
                align as int == m * 8,
        ;
        lemma_mod_multiples_basic(q * m, 8);
    }
    (size, align)
}

/// What is reserved for a layout: its alignment raised to at least 8; and
/// its size rounded up to the smallest multiple of that alignment that
/// holds it, or 16 bytes (a list header) when that multiple is smaller.
pub proof fn lemma_reserved_size_and_alignment(l: Layout)
    requires
        l.wf(),
    ensures
        adjusted_align(l) == (if l.align_spec() < 8 {
            8
        } else {
            l.align_spec()
        }),
        ({
            let size = l.size_spec();
            let al = adjusted_align(l);
            let s = adjusted_size(l);
            &&& size <= 16 && (al <= 16 || size == 0) ==> s == 16
            &&& !(size <= 16 && (al <= 16 || size == 0)) ==> s % al == 0 && size <= s < size
                + al
        }),
{
    l.lemma_wf_bounds();
    let size = l.size_spec();
    let al = adjusted_align(l);
    reveal_with_fuel(is_power_of_two, 4);
    assert(al >= 8);
    assert(is_power_of_two(al));
    if al >= 8 {
        lemma_power_of_two_divides(al);
    }
    let q = (size + al - 1) / al;
    assert(size <= q * al < size + al) by (nonlinear_arith)
        requires
            q == (size + al - 1) / al,
            al > 0,
            size >= 0,
    ;
    lemma_mod_multiples_basic(q, al);
    assert(round_up(size, al) == q * al);
    assert(adjusted_size(l) == if q * al < 16 {
        16
    } else {
        q * al
    });
    if size <= 16 && al <= 16 {
        assert(al == 8 || al == 16) by {
            if al != 8 && al != 16 {
                assert(al > 8 && al < 16);
                assert(al % 8 == 0);
            }
        }
        assert(q * al <= 16) by (nonlinear_arith)
            requires
                q == (size + al - 1) / al,
                size <= 16,
                al == 8 || al == 16,
        ;
    }
    if size == 0 {
        assert(q * al == 0) by (nonlinear_arith)
            requires
                q == (size + al - 1) / al,
                size == 0,
                al > 0,
        ;
    }
    assert(size <= 16 && al <= 16 ==> q * al <= 16);
    if size > 0 && al > 16 {
        assert(q >= 1) by (nonlinear_arith)
            requires
                q == (size + al - 1) / al,
                size > 0,
                al > 0,
        ;
        assert(q * al >= al) by (nonlinear_arith)
            requires
                q >= 1,
                al > 0,
        ;
    }
}

// ---------------------------------------------------------------------------
// The free list.
// ---------------------------------------------------------------------------

/// A run of free bytes `[addr, addr + size)`.
#[derive(Debug, Clone, Copy, PartialEq, Eq, Structural)]
pub struct FreeBlock {
    pub addr: usize,
    pub size: usize,
}

pub open spec fn block_end(b: FreeBlock) -> int {
    b.addr + b.size
}

/// Byte `x` lies in block `b`.
pub open spec fn block_contains(b: FreeBlock, x: int) -> bool {
    b.addr <= x < block_end(b)
}

/// Byte `x` lies in some block of `s`.
pub open spec fn is_free_byte(s: Seq<FreeBlock>, x: int) -> bool {
    exists|i: int| 0 <= i < s.len() && #[trigger] block_contains(s[i], x)
}

/// A well-formed free list: every block is aligned, large enough to hold a
/// header and inside the address space, and the blocks are sorted by
/// address with a gap between each and the next (free runs are maximal).
pub open spec fn list_wf(s: Seq<FreeBlock>) -> bool {
    &&& forall|i: int|
        0 <= i < s.len() ==> {
            &&& (#[trigger] s[i]).size >= MIN_BLOCK_SIZE
            &&& s[i].addr % BLOCK_ALIGN == 0
            &&& block_end(s[i]) <= usize::MAX
        }
    &&& forall|i: int, j: int| #![trigger s[i], s[j]] 0 <= i < j < s.len() ==> block_end(s[i]) < s[j].addr
}

/// Every byte of `[addr, addr + size)` is outside the free list.
pub open spec fn region_not_free(s: Seq<FreeBlock>, addr: int, size: int) -> bool {
    forall|x: int| addr <= x < addr + size ==> !#[trigger] is_free_byte(s, x)
}

/// `t` frees exactly the bytes `s` frees plus `[addr, addr + size)`.
pub open spec fn frees_union(s: Seq<FreeBlock>, t: Seq<FreeBlock>, addr: int, size: int) -> bool {
    forall|x: int| #[trigger] is_free_byte(t, x) == (is_free_byte(s, x) || addr <= x < addr + size)
}

/// The first multiple of `align` at or after `b`'s start.
pub open spec fn aligned_start(b: FreeBlock, align: int) -> int {
    round_up(b.addr as int, align)
}

/// `size` bytes aligned to `align` fit inside block `b`.
pub open spec fn fits(b: FreeBlock, size: int, align: int) -> bool {
    aligned_start(b, align) + size <= block_end(b)
}

/// Block `i` is the first of `s` in address order that fits the request.
pub open spec fn first_fit(s: Seq<FreeBlock>, size: int, align: int, i: int) -> bool {
    &&& 0 <= i < s.len()
    &&& fits(s[i], size, align)
    &&& forall|j: int| 0 <= j < i ==> !#[trigger] fits(s[j], size, align)
}

/// Rounding up the start of every block the first-fit scan reaches stays
/// within `usize` (the scan reaches the blocks up to the first that fits).
pub open spec fn scan_in_range(s: Seq<FreeBlock>, size: int, align: int) -> bool {
    forall|j: int|
        0 <= j < s.len() && (forall|k: int| 0 <= k < j ==> !#[trigger] fits(s[k], size, align))
            ==> #[trigger] s[j].addr + align - 1 <= usize::MAX
}

/// `t` holds free what `s` held free outside block `b`, plus the gap in
/// front of the `size` bytes taken at `r` and the gap behind them, each
/// only when it can hold a list header.
pub open spec fn carved(s: Seq<FreeBlock>, t: Seq<FreeBlock>, b: FreeBlock, r: int, size: int) -> bool {
    forall|x: int| #[trigger]
        is_free_byte(t, x) == ((is_free_byte(s, x) && !block_contains(b, x)) || (r - b.addr
            >= MIN_BLOCK_SIZE && b.addr <= x < r) || (block_end(b) - (r + size) >= MIN_BLOCK_SIZE
            && r + size <= x < block_end(b)))
}

/// `alloc(l)` found room and returned `r`, taking free list `s` to `t`: the
/// first block that fits gave up `[r, r + size)`, `r` being its first
/// suitably aligned address.
pub open spec fn alloc_found(s: Seq<FreeBlock>, t: Seq<FreeBlock>, l: Layout, r: int) -> bool {
    exists|i: int|
        #![trigger s[i]]
        first_fit(s, adjusted_size(l), adjusted_align(l), i) && r == aligned_start(
            s[i],
            adjusted_align(l),
        ) && carved(s, t, s[i], r, adjusted_size(l))
}

/// No block of `s` fits the request for `l`.
pub open spec fn no_fit(s: Seq<FreeBlock>, l: Layout) -> bool {
    forall|i: int| 0 <= i < s.len() ==> !#[trigger] fits(s[i], adjusted_size(l), adjusted_align(l))
}

/// Removing a block from a well-formed list keeps it well formed and frees
/// exactly the bytes outside that block.
proof fn lemma_remove_block(s: Seq<FreeBlock>, i: int)
    requires
        list_wf(s),
        0 <= i < s.len(),
    ensures
        list_wf(s.remove(i)),
        forall|x: int| #[trigger]
            is_free_byte(s.remove(i), x) == (is_free_byte(s, x) && !block_contains(s[i], x)),
{
    let t = s.remove(i);
    assert forall|a: int| 0 <= a < t.len() implies {
        &&& (#[trigger] t[a]).size >= MIN_BLOCK_SIZE
        &&& t[a].addr % BLOCK_ALIGN == 0
        &&& block_end(t[a]) <= usize::MAX
    } by {
        if a < i {
            assert(t[a] == s[a]);
        } else {
            assert(t[a] == s[a + 1]);
        }
    }
    assert forall|a: int, b: int| #![trigger t[a], t[b]] 0 <= a < b < t.len() implies block_end(
        t[a],
    ) < t[b].addr by {
        if b < i {
            assert(t[a] == s[a] && t[b] == s[b]);
        } else if a < i {
            assert(t[a] == s[a] && t[b] == s[b + 1]);
        } else {
            assert(t[a] == s[a + 1] && t[b] == s[b + 1]);
        }
    }
    assert forall|x: int| #[trigger]
        is_free_byte(t, x) == (is_free_byte(s, x) && !block_contains(s[i], x)) by {
        if is_free_byte(t, x) {
            let j = choose|j: int| 0 <= j < t.len() && #[trigger] block_contains(t[j], x);
            let k = if j < i {
                j
            } else {
                j + 1
            };
            assert(t[j] == s[k]);
            assert(block_contains(s[k], x));
            if k < i {
                assert(block_end(s[k]) < s[i].addr);
            } else {
                assert(block_end(s[i]) < s[k].addr);
            }
        }
        if is_free_byte(s, x) && !block_contains(s[i], x) {
            let j = choose|j: int| 0 <= j < s.len() && #[trigger] block_contains(s[j], x);
            if j < i {
                assert(t[j] == s[j]);
                assert(block_contains(t[j], x));
            } else {
                assert(t[j - 1] == s[j]);
                assert(block_contains(t[j - 1], x));
            }
        }
    }
}

/// A multiple of `big` is a multiple of every divisor `small` of `big`.
proof fn lemma_mod_transitive(a: int, big: int, small: int)
    requires
        big > 0,
        small > 0,
        a % big == 0,
        big % small == 0,
    ensures
        a % small == 0,
{
    vstd::arithmetic::div_mod::lemma_fundamental_div_mod(a, big);
    vstd::arithmetic::div_mod::lemma_fundamental_div_mod(big, small);
    let m = big / small;
    let q = a / big;
    assert(a == (m * q) * small) by (nonlinear_arith)
        requires
            a == big * q,
            big == small * m,
    ;
    lemma_mod_multiples_basic(m * q, small);
}

/// `addr` rounded up to a multiple of `align`.
fn align_up(addr: usize, align: usize) -> (r: usize)
    requires
        align > 0,
        addr + align - 1 <= usize::MAX,
    ensures
        r == round_up(addr as int, align as int),
        addr <= r,
        r % align == 0,
{
    let t = addr + (align - 1);
    let q = t / align;
    proof {
        assert(addr <= q * align <= t) by (nonlinear_arith)
            requires
                q == t / align,
                t == addr + align - 1,
                align > 0,
        ;
        lemma_mod_multiples_basic(q as int, align as int);
    }
    q * align
}

/// A first-fit allocator over the address-sorted, coalesced free list.
pub struct LinkedListAllocator {
    blocks: Vec<FreeBlock>,
}

impl LinkedListAllocator {
    /// The free list, in address order.
    pub closed spec fn free_list(&self) -> Seq<FreeBlock> {
        self.blocks@
    }

    pub open spec fn wf(&self) -> bool {
        list_wf(self.free_list())
    }

    /// An allocator with no memory to hand out.
    pub fn new() -> (r: Self)
        ensures
            r.wf(),
            r.free_list() == Seq::<FreeBlock>::empty(),
    {
        LinkedListAllocator { blocks: Vec::new() }
    }

    /// First-fit allocation: the first block (in address order) that can
    /// hold `layout`, once its alignment is raised to `BLOCK_ALIGN` and its
    /// size padded and raised to `MIN_BLOCK_SIZE`, is taken off the list;
    /// the gaps in front of and behind the allocation go back on the list
    /// when they can hold a list header, and are lost otherwise. Returns
    /// the allocation's address, or 0 (null) when no block fits.
    pub fn alloc_first_fit(&mut self, layout: Layout) -> (r: usize)
        requires
            old(self).wf(),
            layout.wf(),
            adjustable(layout),
            scan_in_range(
                old(self).free_list(),
                adjusted_size(layout),
                adjusted_align(layout),
            ),
        ensures
            final(self).wf(),
            no_fit(old(self).free_list(), layout) ==> r == 0 && final(self).free_list() == old(
                self,
            ).free_list(),
            !no_fit(old(self).free_list(), layout) ==> alloc_found(
                old(self).free_list(),
                final(self).free_list(),
                layout,
                r as int,
            ),
    {
        let (size, align) = adjusted_size_align(layout);
        let ghost s = self.blocks@;
        let len = self.blocks.len();
        let mut i: usize = 0;
        while i < len
            invariant
                self.blocks@ == s,
                s == old(self).free_list(),
                list_wf(s),
                len == s.len(),
                i <= len,
                size == adjusted_size(layout),
                align == adjusted_align(layout),
                align > 0,
                size % BLOCK_ALIGN == 0,
                align % BLOCK_ALIGN == 0,
                scan_in_range(s, size as int, align as int),
                forall|k: int| 0 <= k < i ==> !#[trigger] fits(s[k], size as int, align as int),
            decreases len - i,
        {
            let b = self.blocks[i];
            let region_end = b.addr + b.size;
            let alloc_start = align_up(b.addr, align);
            let fit_end = alloc_start.checked_add(size);
            if fit_end.is_some() && fit_end.unwrap() <= region_end {
                let alloc_end = fit_end.unwrap();
                self.blocks.remove(i);
                proof {
                    lemma_remove_block(s, i as int);
                    assert(first_fit(s, size as int, align as int, i as int));
                }
                let ghost s1 = self.blocks@;
                let front_gap = alloc_start - b.addr;
                if front_gap >= MIN_BLOCK_SIZE {
                    self.add_free_region(b.addr, front_gap);
                }
                let ghost s2 = self.blocks@;
                proof {
                    assert forall|x: int| #[trigger]
                        is_free_byte(s2, x) == ((is_free_byte(s, x) && !block_contains(b, x))
                            || (front_gap >= MIN_BLOCK_SIZE && b.addr <= x < alloc_start)) by {
                        assert(is_free_byte(s1, x) == (is_free_byte(s, x) && !block_contains(
                            s[i as int],
                            x,
                        )));
                    }
                    lemma_mod_transitive(alloc_start as int, align as int, 8);
                    assert((alloc_end as int) % 8 == 0);
                }
                let back_gap = region_end - alloc_end;
                if back_gap >= MIN_BLOCK_SIZE {
                    self.add_free_region(alloc_end, back_gap);
                }
                proof {
                    let t = self.blocks@;
                    assert(carved(s, t, s[i as int], alloc_start as int, size as int));
                }
                return alloc_start;
            }
            i = i + 1;
        }
        0
    }

    /// Whether the first-fit search for `layout` can round the start of
    /// every block it reaches up to the layout's alignment within `usize`.
    pub fn scan_stays_in_range(&self, layout: Layout) -> (r: bool)
        requires
            self.wf(),
            layout.wf(),
            adjustable(layout),
        ensures
            r == scan_in_range(self.free_list(), adjusted_size(layout), adjusted_align(layout)),
    {
        let (size, align) = adjusted_size_align(layout);
        let ghost s = self.blocks@;
        let mut i: usize = 0;
        while i < self.blocks.len()
            invariant
                self.blocks@ == s,
                list_wf(s),
                i <= s.len(),
                size == adjusted_size(layout),
                align == adjusted_align(layout),
                align > 0,
                forall|k: int| 0 <= k < i ==> !#[trigger] fits(s[k], size as int, align as int),
                forall|k: int| 0 <= k < i ==> #[trigger] s[k].addr + align - 1 <= usize::MAX,
            decreases s.len() - i,
        {
            let b = self.blocks[i];
            if b.addr > usize::MAX - (align - 1) {
                return false;
            }
            let alloc_start = align_up(b.addr, align);
            let region_end = b.addr + b.size;
            match alloc_start.checked_add(size) {
                Some(end) => {
                    if end <= region_end {
                        proof {
                            assert(fits(s[i as int], size as int, align as int));
                            assert forall|j: int|
                                0 <= j < s.len() && (forall|k: int|
                                    0 <= k < j ==> !#[trigger] fits(s[k], size as int, align as int))
                                    implies #[trigger] s[j].addr + align - 1 <= usize::MAX by {
                                if j > i {
                                    assert(fits(s[i as int], size as int, align as int));
                                }
                            }
                        }
                        return true;
                    }
                },
                None => {},
            }
            i = i + 1;
        }
        true
    }

    /// Return a block taken by `alloc_first_fit(layout)` to the free list: the size
    /// reserved is recomputed from `layout` exactly as `alloc_first_fit` computed it.
    pub fn dealloc(&mut self, ptr: usize, layout: Layout)
        requires
            old(self).wf(),
            layout.wf(),
            adjustable(layout),
            ptr % BLOCK_ALIGN == 0,
            ptr + adjusted_size(layout) <= usize::MAX,
            region_not_free(old(self).free_list(), ptr as int, adjusted_size(layout)),
        ensures
            final(self).wf(),
            frees_union(
                old(self).free_list(),
                final(self).free_list(),
                ptr as int,
                adjusted_size(layout),
            ),
    {
        let (size, _align) = adjusted_size_align(layout);
        self.add_free_region(ptr, size);
    }

    /// Add `[addr, addr + size)` to the free list, merging it with an
    /// adjacent free block on either side, keeping the list sorted.
    ///
    /// The region must be aligned for a list header, hold at least one,
    /// and not overlap memory the allocator already holds free.
    pub fn add_free_region(&mut self, addr: usize, size: usize)
        requires
            old(self).wf(),
            addr % BLOCK_ALIGN == 0,
            size >= MIN_BLOCK_SIZE,
            addr + size <= usize::MAX,
            region_not_free(old(self).free_list(), addr as int, size as int),
        ensures
            final(self).wf(),
            frees_union(old(self).free_list(), final(self).free_list(), addr as int, size as int),
    {
        let ghost s = self.blocks@;
        let len = self.blocks.len();
        let mut i: usize = 0;
        while i < len && self.blocks[i].addr < addr
            invariant
                self.blocks@ == s,
                len == s.len(),
                i <= len,
                forall|j: int| 0 <= j < i ==> (#[trigger] s[j]).addr < addr,
            decreases len - i,
        {
            i = i + 1;
        }
        // Where the region sits relative to its neighbours.
        proof {
            if i > 0 {
                let p = s[i - 1];
                if block_end(p) > addr {
                    assert(block_contains(s[i - 1], addr as int));
                    assert(is_free_byte(s, addr as int));
                }
                assert(block_end(p) <= addr);
            }
            if i < len {
                let n = s[i as int];
                if n.addr < addr + size {
                    assert(block_contains(s[i as int], n.addr as int));
                    assert(is_free_byte(s, n.addr as int));
                }
                assert(n.addr >= addr + size);
            }
        }
        let merge_backward = i > 0 && self.blocks[i - 1].addr + self.blocks[i - 1].size == addr;
        let merge_forward = i < len && addr + size == self.blocks[i].addr;
        if merge_backward && merge_forward {
            let p = self.blocks[i - 1];
            let n = self.blocks[i];
            self.blocks.set(i - 1, FreeBlock { addr: p.addr, size: p.size + size + n.size });
            self.blocks.remove(i);
            proof {
                lemma_insert_bridging(s, self.blocks@, i as int, addr, size);
            }
        } else if merge_backward {
            let p = self.blocks[i - 1];
            self.blocks.set(i - 1, FreeBlock { addr: p.addr, size: p.size + size });
            proof {
                lemma_insert_extending_back(s, self.blocks@, i as int, addr, size);
            }
        } else if merge_forward {
            let n = self.blocks[i];
            self.blocks.set(i, FreeBlock { addr, size: size + n.size });
            proof {
                lemma_insert_extending_front(s, self.blocks@, i as int, addr, size);
            }
        } else {
            self.blocks.insert(i, FreeBlock { addr, size });
            proof {
                lemma_insert_separate(s, self.blocks@, i as int, addr, size);
            }
        }
    }
}

/// Where a region to be freed sits in a list: after the first `i` blocks,
/// ending no later than the next one starts, and starting no earlier than
/// the previous one ends.
pub open spec fn insertion_point(s: Seq<FreeBlock>, i: int, addr: usize, size: usize) -> bool {
    &&& list_wf(s)
    &&& 0 <= i <= s.len()
    &&& addr % BLOCK_ALIGN == 0
    &&& size >= MIN_BLOCK_SIZE
    &&& addr + size <= usize::MAX
    &&& forall|j: int| 0 <= j < i ==> (#[trigger] s[j]).addr < addr
    &&& i > 0 ==> block_end(s[i - 1]) <= addr
    &&& i < s.len() ==> addr + size <= s[i].addr
}

/// The region touches both neighbours: they merge into one block.
#[verifier::spinoff_prover]
#[verifier::rlimit(40)]
proof fn lemma_insert_bridging(s: Seq<FreeBlock>, t: Seq<FreeBlock>, i: int, addr: usize, size: usize)
    requires
        insertion_point(s, i, addr, size),
        0 < i < s.len(),
        block_end(s[i - 1]) == addr,
        addr + size == s[i].addr,
        t == s.update(
            i - 1,
            FreeBlock { addr: s[i - 1].addr, size: (s[i - 1].size + size + s[i].size) as usize },
        ).remove(i),
    ensures
        list_wf(t),
        frees_union(s, t, addr as int, size as int),
{
    assert forall|a: int| 0 <= a < t.len() implies {
        &&& (#[trigger] t[a]).size >= MIN_BLOCK_SIZE
        &&& t[a].addr % BLOCK_ALIGN == 0
        &&& block_end(t[a]) <= usize::MAX
    } by {
        if a < i - 1 {
            assert(t[a] == s[a]);
        } else if a > i - 1 {
            assert(t[a] == s[a + 1]);
        } else {
            assert(s[i - 1].addr % BLOCK_ALIGN == 0);
            assert(block_end(s[i]) <= usize::MAX);
        }
    }
    assert forall|a: int, b: int| #![trigger t[a], t[b]] 0 <= a < b < t.len() implies block_end(
        t[a],
    ) < t[b].addr by {
        if b < i - 1 {
            assert(t[a] == s[a] && t[b] == s[b]);
        } else if b == i - 1 {
            assert(t[a] == s[a]);
            assert(block_end(s[a]) < s[i - 1].addr);
        } else if a < i - 1 {
            assert(t[a] == s[a] && t[b] == s[b + 1]);
            assert(block_end(s[a]) < s[b + 1].addr);
        } else if a == i - 1 {
            assert(t[b] == s[b + 1]);
            assert(block_end(s[i]) < s[b + 1].addr);
        } else {
            assert(t[a] == s[a + 1] && t[b] == s[b + 1]);
            assert(block_end(s[a + 1]) < s[b + 1].addr);
        }
    }
    assert forall|x: int| #[trigger]
        is_free_byte(t, x) == (is_free_byte(s, x) || addr <= x < addr + size) by {
        if is_free_byte(t, x) {
            let j = choose|j: int| 0 <= j < t.len() && #[trigger] block_contains(t[j], x);
            if j < i - 1 {
                assert(t[j] == s[j]);
                assert(block_contains(s[j], x));
            } else if j > i - 1 {
                assert(t[j] == s[j + 1]);
                assert(block_contains(s[j + 1], x));
            } else if x < addr {
                assert(block_contains(s[i - 1], x));
            } else if x >= addr + size {
                assert(block_contains(s[i], x));
            }
        }
        if is_free_byte(s, x) {
            let j = choose|j: int| 0 <= j < s.len() && #[trigger] block_contains(s[j], x);
            if j < i - 1 {
                assert(t[j] == s[j]);
                assert(block_contains(t[j], x));
            } else if j > i {
                assert(t[j - 1] == s[j]);
                assert(block_contains(t[j - 1], x));
            } else {
                assert(block_contains(t[i - 1], x));
            }
        }
        if addr <= x < addr + size {
            assert(block_contains(t[i - 1], x));
        }
    }
}

/// The region touches only the block before it, which grows to cover it.
#[verifier::spinoff_prover]
#[verifier::rlimit(40)]
proof fn lemma_insert_extending_back(
    s: Seq<FreeBlock>,
    t: Seq<FreeBlock>,
    i: int,
    addr: usize,
    size: usize,
)
    requires
        insertion_point(s, i, addr, size),
        0 < i,
        block_end(s[i - 1]) == addr,
        i < s.len() ==> addr + size < s[i].addr,
        t == s.update(i - 1, FreeBlock { addr: s[i - 1].addr, size: (s[i - 1].size + size) as usize }),
    ensures
        list_wf(t),
        frees_union(s, t, addr as int, size as int),
{
    assert forall|a: int| 0 <= a < t.len() implies {
        &&& (#[trigger] t[a]).size >= MIN_BLOCK_SIZE
        &&& t[a].addr % BLOCK_ALIGN == 0
        &&& block_end(t[a]) <= usize::MAX
    } by {
        if a != i - 1 {
            assert(t[a] == s[a]);
        }
    }
    assert forall|a: int, b: int| #![trigger t[a], t[b]] 0 <= a < b < t.len() implies block_end(
        t[a],
    ) < t[b].addr by {
        if b == i - 1 {
            assert(t[a] == s[a]);
            assert(block_end(s[a]) < s[i - 1].addr);
        } else if a == i - 1 {
            assert(t[b] == s[b]);
            assert(s[i].addr <= s[b].addr);
        } else {
            assert(t[a] == s[a] && t[b] == s[b]);
        }
    }
    assert forall|x: int| #[trigger]
        is_free_byte(t, x) == (is_free_byte(s, x) || addr <= x < addr + size) by {
        if is_free_byte(t, x) {
            let j = choose|j: int| 0 <= j < t.len() && #[trigger] block_contains(t[j], x);
            if j != i - 1 {
                assert(t[j] == s[j]);
                assert(block_contains(s[j], x));
            } else if x < addr {
                assert(block_contains(s[i - 1], x));
            }
        }
        if is_free_byte(s, x) {
            let j = choose|j: int| 0 <= j < s.len() && #[trigger] block_contains(s[j], x);
            if j != i - 1 {
                assert(t[j] == s[j]);
            }
            assert(block_contains(t[j], x));
        }
        if addr <= x < addr + size {
            assert(block_contains(t[i - 1], x));
        }
    }
}

/// The region touches only the block after it, which grows down to cover
/// it.
#[verifier::spinoff_prover]
#[verifier::rlimit(40)]
proof fn lemma_insert_extending_front(
    s: Seq<FreeBlock>,
    t: Seq<FreeBlock>,
    i: int,
    addr: usize,
    size: usize,
)
    requires
        insertion_point(s, i, addr, size),
        i < s.len(),
        i > 0 ==> block_end(s[i - 1]) < addr,
        addr + size == s[i].addr,
        t == s.update(i, FreeBlock { addr: addr, size: (size + s[i].size) as usize }),
    ensures
        list_wf(t),
        frees_union(s, t, addr as int, size as int),
{
    assert forall|a: int| 0 <= a < t.len() implies {
        &&& (#[trigger] t[a]).size >= MIN_BLOCK_SIZE
        &&& t[a].addr % BLOCK_ALIGN == 0
        &&& block_end(t[a]) <= usize::MAX
    } by {
        if a != i {
            assert(t[a] == s[a]);
        }
    }
    assert forall|a: int, b: int| #![trigger t[a], t[b]] 0 <= a < b < t.len() implies block_end(
        t[a],
    ) < t[b].addr by {
        if b == i {
            assert(t[a] == s[a]);
            if a < i - 1 {
                assert(block_end(s[a]) < s[i - 1].addr);
            }
        } else if a == i {
            assert(t[b] == s[b]);
            assert(block_end(s[i]) < s[b].addr);
        } else {
            assert(t[a] == s[a] && t[b] == s[b]);
        }
    }
    assert forall|x: int| #[trigger]
        is_free_byte(t, x) == (is_free_byte(s, x) || addr <= x < addr + size) by {
        if is_free_byte(t, x) {
            let j = choose|j: int| 0 <= j < t.len() && #[trigger] block_contains(t[j], x);
            if j != i {
                assert(t[j] == s[j]);
                assert(block_contains(s[j], x));
            } else if x >= addr + size {
                assert(block_contains(s[i], x));
            }
        }
        if is_free_byte(s, x) {
            let j = choose|j: int| 0 <= j < s.len() && #[trigger] block_contains(s[j], x);
            if j != i {
                assert(t[j] == s[j]);
            }
            assert(block_contains(t[j], x));
        }
        if addr <= x < addr + size {
            assert(block_contains(t[i], x));
        }
    }
}

/// The region touches neither neighbour: it becomes a block of its own.
#[verifier::spinoff_prover]
#[verifier::rlimit(40)]
proof fn lemma_insert_separate(s: Seq<FreeBlock>, t: Seq<FreeBlock>, i: int, addr: usize, size: usize)
    requires
        insertion_point(s, i, addr, size),
        i > 0 ==> block_end(s[i - 1]) < addr,
        i < s.len() ==> addr + size < s[i].addr,
        t == s.insert(i, FreeBlock { addr: addr, size: size }),
    ensures
        list_wf(t),
        frees_union(s, t, addr as int, size as int),
{
    assert forall|a: int| 0 <= a < t.len() implies {
        &&& (#[trigger] t[a]).size >= MIN_BLOCK_SIZE
        &&& t[a].addr % BLOCK_ALIGN == 0
        &&& block_end(t[a]) <= usize::MAX
    } by {
        if a < i {
            assert(t[a] == s[a]);
        } else if a > i {
            assert(t[a] == s[a - 1]);
        }
    }
    assert forall|a: int, c: int| #![trigger t[a], t[c]] 0 <= a < c < t.len() implies block_end(
        t[a],
    ) < t[c].addr by {
        if c < i {
            assert(t[a] == s[a] && t[c] == s[c]);
        } else if c == i {
            assert(t[a] == s[a]);
            if a < i - 1 {
                assert(block_end(s[a]) < s[i - 1].addr);
            }
        } else if a < i {
            assert(t[a] == s[a] && t[c] == s[c - 1]);
            assert(block_end(s[a]) < s[c - 1].addr);
        } else if a == i {
            assert(t[c] == s[c - 1]);
            if c - 1 > i {
                assert(block_end(s[i]) < s[c - 1].addr);
            }
        } else {
            assert(t[a] == s[a - 1] && t[c] == s[c - 1]);
        }
    }
    assert forall|x: int| #[trigger]
        is_free_byte(t, x) == (is_free_byte(s, x) || addr <= x < addr + size) by {
        if is_free_byte(t, x) {
            let j = choose|j: int| 0 <= j < t.len() && #[trigger] block_contains(t[j], x);
            if j < i {
                assert(t[j] == s[j]);
                assert(block_contains(s[j], x));
            } else if j > i {
                assert(t[j] == s[j - 1]);
                assert(block_contains(s[j - 1], x));
            }
        }
        if is_free_byte(s, x) {
            let j = choose|j: int| 0 <= j < s.len() && #[trigger] block_contains(s[j], x);
            if j < i {
                assert(t[j] == s[j]);
                assert(block_contains(t[j], x));
            } else {
                assert(t[j + 1] == s[j]);
                assert(block_contains(t[j + 1], x));
            }
        }
        if addr <= x < addr + size {
            assert(block_contains(t[i], x));
        }
    }
}

// ---------------------------------------------------------------------------
// Laws.
// ---------------------------------------------------------------------------

/// At most one block is the first fit.
proof fn lemma_first_fit_unique(s: Seq<FreeBlock>, size: int, align: int, i: int, j: int)
    requires
        first_fit(s, size, align, i),
        first_fit(s, size, align, j),
    ensures
        i == j,
{
    if i < j {
        assert(!fits(s[i], size, align));
    } else if j < i {
        assert(!fits(s[j], size, align));
    }
}

/// Rounding a block start up to a multiple of `align` never goes below it.
proof fn lemma_round_up_bounds(x: int, align: int)
    requires
        0 <= x,
        align > 0,
    ensures
        x <= round_up(x, align) <= x + align - 1,
        round_up(x, align) % align == 0,
{
    let q = (x + align - 1) / align;
    assert(x <= q * align <= x + align - 1) by (nonlinear_arith)
        requires
            q == (x + align - 1) / align,
            align > 0,
            x >= 0,
    ;
    lemma_mod_multiples_basic(q, align);
}

/// An allocation hands out bytes that were free and are free no longer,
/// at an address aligned as the layout asks.
pub proof fn lemma_allocation_takes_free_bytes(
    s: Seq<FreeBlock>,
    t: Seq<FreeBlock>,
    l: Layout,
    r: int,
)
    requires
        list_wf(s),
        l.wf(),
        alloc_found(s, t, l, r),
    ensures
        forall|x: int|
            #![trigger is_free_byte(s, x)]
            #![trigger is_free_byte(t, x)]
            r <= x < r + adjusted_size(l) ==> is_free_byte(s, x) && !is_free_byte(t, x),
        r % l.align_spec() == 0,
        r % (BLOCK_ALIGN as int) == 0,
{
    let i = choose|i: int|
        #![trigger s[i]]
        first_fit(s, adjusted_size(l), adjusted_align(l), i) && r == aligned_start(
            s[i],
            adjusted_align(l),
        ) && carved(s, t, s[i], r, adjusted_size(l));
    let b = s[i];
    lemma_round_up_bounds(b.addr as int, adjusted_align(l));
    assert(fits(s[i], adjusted_size(l), adjusted_align(l)));
    assert(b.addr <= r);
    assert forall|x: int|
        #![trigger is_free_byte(s, x)]
        #![trigger is_free_byte(t, x)]
        r <= x < r + adjusted_size(l) implies is_free_byte(s, x) && !is_free_byte(t, x) by {
        assert(block_contains(s[i], x));
        assert(is_free_byte(s, x));
        assert(carved(s, t, s[i], r, adjusted_size(l)));
    }
    reveal_with_fuel(is_power_of_two, 4);
    let a = l.align_spec();
    if a >= 8 {
        lemma_power_of_two_divides(a);
        lemma_mod_transitive(r, a, 8);
    } else {
        assert(a == 1 || a == 2 || a == 4);
        if a == 1 {
            lemma_mod_transitive(r, 8, 1);
        } else if a == 2 {
            lemma_mod_transitive(r, 8, 2);
        } else {
            lemma_mod_transitive(r, 8, 4);
        }
    }
}

/// `size` bytes from `x` end within block `b`.
pub open spec fn room_at(b: FreeBlock, x: int, size: int) -> bool {
    x + size <= b.addr + b.size
}

/// The smallest multiple of `align` at or above `x` is `round_up(x, align)`.
proof fn lemma_round_up_is_least(x: int, align: int, y: int)
    requires
        0 <= x,
        align > 0,
        y % align == 0,
        x <= y,
    ensures
        round_up(x, align) <= y,
{
    vstd::arithmetic::div_mod::lemma_fundamental_div_mod(y, align);
    let k = y / align;
    let q = (x + align - 1) / align;
    assert(q * align <= y) by (nonlinear_arith)
        requires
            q == (x + align - 1) / align,
            y == align * k,
            x <= y,
            align > 0,
            x >= 0,
    ;
}

/// An allocation is first fit: it lies in a free block at the lowest
/// address of that block aligned as reserved, with room for the reserved
/// size; and no earlier block (in address order) has any such aligned
/// address with room.
pub proof fn lemma_allocation_is_first_fit(s: Seq<FreeBlock>, t: Seq<FreeBlock>, l: Layout, r: int)
    requires
        list_wf(s),
        l.wf(),
        alloc_found(s, t, l, r),
    ensures
        exists|i: int|
            #![trigger s[i]]
            0 <= i < s.len() && s[i].addr <= r < s[i].addr + adjusted_align(l) && r % adjusted_align(
                l,
            ) == 0 && room_at(s[i], r, adjusted_size(l)) && forall|j: int, x: int|
                0 <= j < i && s[j].addr <= x && x % adjusted_align(l) == 0 ==> !#[trigger] room_at(
                    s[j],
                    x,
                    adjusted_size(l),
                ),
{
    let al = adjusted_align(l);
    let n = adjusted_size(l);
    let i = choose|i: int|
        #![trigger s[i]]
        first_fit(s, n, al, i) && r == aligned_start(s[i], al) && carved(s, t, s[i], r, n);
    l.lemma_wf_bounds();
    lemma_round_up_bounds(s[i].addr as int, al);
    assert forall|j: int, x: int|
        0 <= j < i && s[j].addr <= x && x % al == 0 implies !#[trigger] room_at(s[j], x, n) by {
        assert(!fits(s[j], n, al));
        lemma_round_up_is_least(s[j].addr as int, al, x);
    }
}

/// The bytes an allocation took stay taken through later allocations.
proof fn lemma_taken_bytes_stay_taken(
    lists: Seq<Seq<FreeBlock>>,
    layouts: Seq<Layout>,
    addrs: Seq<int>,
    j: int,
    k: int,
    x: int,
)
    requires
        lists.len() == layouts.len() + 1,
        addrs.len() == layouts.len(),
        forall|m: int| 0 <= m < lists.len() ==> list_wf(#[trigger] lists[m]),
        forall|m: int| 0 <= m < layouts.len() ==> (#[trigger] layouts[m]).wf(),
        forall|m: int|
            0 <= m < layouts.len() ==> alloc_found(lists[m], #[trigger] lists[m + 1], layouts[m], addrs[m]),
        0 <= j < k < lists.len(),
        addrs[j] <= x < addrs[j] + adjusted_size(layouts[j]),
    ensures
        !is_free_byte(lists[k], x),
    decreases k - j,
{
    let m = k - 1;
    assert(alloc_found(lists[m], lists[m + 1], layouts[m], addrs[m]));
    if m > j {
        lemma_taken_bytes_stay_taken(lists, layouts, addrs, j, m, x);
        lemma_alloc_frees_within_old(lists[m], lists[m + 1], layouts[m], addrs[m]);
    } else {
        lemma_allocation_takes_free_bytes(lists[j], lists[j + 1], layouts[j], addrs[j]);
    }
}

/// Allocations with no free in between never overlap: the byte ranges any
/// two of them hand out are disjoint.
pub proof fn lemma_successive_allocations_disjoint(
    lists: Seq<Seq<FreeBlock>>,
    layouts: Seq<Layout>,
    addrs: Seq<int>,
)
    requires
        lists.len() == layouts.len() + 1,
        addrs.len() == layouts.len(),
        forall|m: int| 0 <= m < lists.len() ==> list_wf(#[trigger] lists[m]),
        forall|m: int| 0 <= m < layouts.len() ==> (#[trigger] layouts[m]).wf(),
        forall|m: int|
            0 <= m < layouts.len() ==> alloc_found(lists[m], #[trigger] lists[m + 1], layouts[m], addrs[m]),
    ensures
        forall|j: int, k: int|
            0 <= j < k < addrs.len() ==> #[trigger] addrs[j] + adjusted_size(layouts[j]) <= addrs[k]
                || #[trigger] addrs[k] + adjusted_size(layouts[k]) <= addrs[j],
{
    assert forall|j: int, k: int| 0 <= j < k < addrs.len() implies #[trigger] addrs[j]
        + adjusted_size(layouts[j]) <= addrs[k] || #[trigger] addrs[k] + adjusted_size(layouts[k])
        <= addrs[j] by {
        if !(addrs[j] + adjusted_size(layouts[j]) <= addrs[k] || addrs[k] + adjusted_size(
            layouts[k],
        ) <= addrs[j]) {
            let x = if addrs[j] <= addrs[k] {
                addrs[k]
            } else {
                addrs[j]
            };
            assert(alloc_found(lists[k], lists[k + 1], layouts[k], addrs[k]));
            lemma_allocation_takes_free_bytes(lists[k], lists[k + 1], layouts[k], addrs[k]);
            assert(adjusted_size(layouts[k]) >= MIN_BLOCK_SIZE);
            assert(adjusted_size(layouts[j]) >= MIN_BLOCK_SIZE);
            lemma_taken_bytes_stay_taken(lists, layouts, addrs, j, k, x);
            assert(is_free_byte(lists[k], x));
        }
    }
}

/// In a well-formed list a run of free bytes lies within a single block:
/// adjacent free memory is always coalesced.
pub proof fn lemma_free_run_in_one_block(s: Seq<FreeBlock>, a: int, b: int)
    requires
        list_wf(s),
        a < b,
        forall|x: int| a <= x < b ==> #[trigger] is_free_byte(s, x),
    ensures
        exists|i: int| 0 <= i < s.len() && s[i].addr <= a && b <= block_end(#[trigger] s[i]),
{
    assert(is_free_byte(s, a));
    let i = choose|i: int| 0 <= i < s.len() && #[trigger] block_contains(s[i], a);
    if block_end(s[i]) < b {
        let e = block_end(s[i]);
        assert(is_free_byte(s, e));
        let j = choose|j: int| 0 <= j < s.len() && #[trigger] block_contains(s[j], e);
        if j < i {
            assert(block_end(s[j]) < s[i].addr);
        } else if j > i {
            assert(block_end(s[i]) < s[j].addr);
        }
    }
}

/// When some run of free bytes can hold the request at a suitably aligned
/// address, the first-fit search finds a block: freed memory, coalesced,
/// serves requests larger than any of its freed pieces.
pub proof fn lemma_free_run_satisfies_request(s: Seq<FreeBlock>, l: Layout, a: int)
    requires
        list_wf(s),
        l.wf(),
        0 <= a,
        a % adjusted_align(l) == 0,
        forall|x: int| a <= x < a + adjusted_size(l) ==> #[trigger] is_free_byte(s, x),
    ensures
        !no_fit(s, l),
{
    assert(adjusted_size(l) >= MIN_BLOCK_SIZE);
    lemma_free_run_in_one_block(s, a, a + adjusted_size(l));
    let i = choose|i: int|
        0 <= i < s.len() && s[i].addr <= a && a + adjusted_size(l) <= block_end(#[trigger] s[i]);
    let al = adjusted_align(l);
    let q = (s[i].addr + al - 1) / al;
    let qa = a / al;
    vstd::arithmetic::div_mod::lemma_fundamental_div_mod(a, al);
    assert(q * al <= a) by (nonlinear_arith)
        requires
            q == (s[i].addr + al - 1) / al,
            a == al * qa,
            s[i].addr <= a,
            al > 0,
    ;
    assert(fits(s[i], adjusted_size(l), al));
}

/// Freeing an allocation right after making it gives back every byte that
/// was free before, except the bytes of gaps too small to track; and frees
/// nothing that was not free before.
pub proof fn lemma_dealloc_undoes_alloc(
    s0: Seq<FreeBlock>,
    s1: Seq<FreeBlock>,
    s2: Seq<FreeBlock>,
    l: Layout,
    r: int,
)
    requires
        list_wf(s0),
        l.wf(),
        alloc_found(s0, s1, l, r),
        frees_union(s1, s2, r, adjusted_size(l)),
    ensures
        forall|x: int| #[trigger] is_free_byte(s2, x) ==> is_free_byte(s0, x),
        forall|i: int|
            #![trigger s0[i]]
            first_fit(s0, adjusted_size(l), adjusted_align(l), i) ==> forall|x: int|
                #[trigger] is_free_byte(s0, x) && !(r - s0[i].addr < MIN_BLOCK_SIZE && s0[i].addr <= x
                    < r) && !(block_end(s0[i]) - (r + adjusted_size(l)) < MIN_BLOCK_SIZE && r
                    + adjusted_size(l) <= x < block_end(s0[i])) ==> is_free_byte(s2, x),
{
    let size = adjusted_size(l);
    let i = choose|i: int|
        #![trigger s0[i]]
        first_fit(s0, size, adjusted_align(l), i) && r == aligned_start(s0[i], adjusted_align(l))
            && carved(s0, s1, s0[i], r, size);
    lemma_round_up_bounds(s0[i].addr as int, adjusted_align(l));
    assert forall|x: int| #[trigger] is_free_byte(s2, x) implies is_free_byte(s0, x) by {
        if s0[i].addr <= x < block_end(s0[i]) {
            assert(block_contains(s0[i], x));
        } else {
            assert(is_free_byte(s1, x));
        }
    }
    assert forall|k: int|
        #![trigger s0[k]]
        first_fit(s0, size, adjusted_align(l), k) implies forall|x: int|
        #[trigger] is_free_byte(s0, x) && !(r - s0[k].addr < MIN_BLOCK_SIZE && s0[k].addr <= x < r)
            && !(block_end(s0[k]) - (r + size) < MIN_BLOCK_SIZE && r + size <= x < block_end(s0[k]))
            ==> is_free_byte(s2, x) by {
        lemma_first_fit_unique(s0, size, adjusted_align(l), i, k);
    }
}

/// A well-formed free list is determined by which bytes it holds free:
/// since blocks are sorted and every adjacent run is coalesced, two lists
/// freeing the same bytes are the same list.
pub proof fn lemma_list_determined_by_free_bytes(s: Seq<FreeBlock>, t: Seq<FreeBlock>)
    requires
        list_wf(s),
        list_wf(t),
        forall|x: int|
            #![trigger is_free_byte(s, x)]
            #![trigger is_free_byte(t, x)]
            is_free_byte(s, x) == is_free_byte(t, x),
    ensures
        s == t,
    decreases s.len(),
{
    if s.len() == 0 || t.len() == 0 {
        if s.len() > 0 {
            assert(block_contains(s[0], s[0].addr as int));
            assert(is_free_byte(s, s[0].addr as int));
        }
        if t.len() > 0 {
            assert(block_contains(t[0], t[0].addr as int));
            assert(is_free_byte(t, t[0].addr as int));
        }
        assert(s =~= t);
    } else {
        let a = s[0];
        let b = t[0];
        // The first blocks start at the lowest free byte.
        if a.addr < b.addr {
            assert(block_contains(s[0], a.addr as int));
            assert(is_free_byte(t, a.addr as int));
            let j = choose|j: int| 0 <= j < t.len() && #[trigger] block_contains(t[j], a.addr as int);
            if j > 0 {
                assert(block_end(t[0]) < t[j].addr);
            }
        }
        if b.addr < a.addr {
            assert(block_contains(t[0], b.addr as int));
            assert(is_free_byte(s, b.addr as int));
            let j = choose|j: int| 0 <= j < s.len() && #[trigger] block_contains(s[j], b.addr as int);
            if j > 0 {
                assert(block_end(s[0]) < s[j].addr);
            }
        }
        // They end at the first byte after it that is not free.
        if block_end(a) < block_end(b) {
            let e = block_end(a);
            assert(block_contains(t[0], e));
            assert(is_free_byte(s, e));
            let j = choose|j: int| 0 <= j < s.len() && #[trigger] block_contains(s[j], e);
            if j > 0 {
                assert(block_end(s[0]) < s[j].addr);
            }
        }
        if block_end(b) < block_end(a) {
            let e = block_end(b);
            assert(block_contains(s[0], e));
            assert(is_free_byte(t, e));
            let j = choose|j: int| 0 <= j < t.len() && #[trigger] block_contains(t[j], e);
            if j > 0 {
                assert(block_end(t[0]) < t[j].addr);
            }
        }
        assert(a == b);
        lemma_remove_block(s, 0);
        lemma_remove_block(t, 0);
        assert forall|x: int| #[trigger] is_free_byte(s.remove(0), x) == is_free_byte(
            t.remove(0),
            x,
        ) by {}
        lemma_list_determined_by_free_bytes(s.remove(0), t.remove(0));
        assert forall|k: int| 0 <= k < s.len() implies s[k] == t[k] by {
            if k > 0 {
                assert(s[k] == s.remove(0)[k - 1]);
                assert(t[k] == t.remove(0)[k - 1]);
            }
        }
        assert(s =~= t);
    }
}

/// Freeing two regions gives the same free list in either order.
pub proof fn lemma_free_order_irrelevant(
    s: Seq<FreeBlock>,
    t1: Seq<FreeBlock>,
    u1: Seq<FreeBlock>,
    t2: Seq<FreeBlock>,
    u2: Seq<FreeBlock>,
    a: int,
    m: int,
    b: int,
    n: int,
)
    requires
        list_wf(u1),
        list_wf(u2),
        frees_union(s, t1, a, m),
        frees_union(t1, u1, b, n),
        frees_union(s, t2, b, n),
        frees_union(t2, u2, a, m),
    ensures
        u1 == u2,
{
    assert forall|x: int| #[trigger] is_free_byte(u1, x) == is_free_byte(u2, x) by {
        assert(is_free_byte(t1, x) == (is_free_byte(s, x) || a <= x < a + m));
        assert(is_free_byte(t2, x) == (is_free_byte(s, x) || b <= x < b + n));
    }
    lemma_list_determined_by_free_bytes(u1, u2);
}

/// An allocation only takes bytes away: what is free afterwards was free
/// before.
pub proof fn lemma_alloc_frees_within_old(s: Seq<FreeBlock>, t: Seq<FreeBlock>, l: Layout, r: int)
    requires
        list_wf(s),
        alloc_found(s, t, l, r),
    ensures
        forall|x: int| #[trigger] is_free_byte(t, x) ==> is_free_byte(s, x),
{
    let i = choose|i: int|
        #![trigger s[i]]
        first_fit(s, adjusted_size(l), adjusted_align(l), i) && r == aligned_start(
            s[i],
            adjusted_align(l),
        ) && carved(s, t, s[i], r, adjusted_size(l));
    lemma_round_up_bounds(s[i].addr as int, adjusted_align(l));
    assert forall|x: int| #[trigger] is_free_byte(t, x) implies is_free_byte(s, x) by {
        if s[i].addr <= x < block_end(s[i]) {
            assert(block_contains(s[i], x));
        }
    }
}

} // verus!
