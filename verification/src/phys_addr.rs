//! Physical addresses and the 4 KiB frames they fall in.
use vstd::prelude::*;

verus! {

/// The frame size the whole memory manager works in: 4 KiB, the x86_64
/// base page size.
pub const FRAME_SIZE: u64 = 4096;

/// A physical address. A labelling newtype: it does not validate.
#[derive(Clone, Copy, Debug, PartialEq, Eq, Structural, PartialOrd, Ord, Hash)]
pub struct PhysAddr(u64);

impl View for PhysAddr {
    type V = u64;

    closed spec fn view(&self) -> u64 {
        self.0
    }
}

impl PhysAddr {
    /// The address whose raw value is `addr`.
    pub closed spec fn from_raw_spec(addr: u64) -> PhysAddr {
        PhysAddr(addr)
    }

    pub proof fn lemma_from_raw_spec(addr: u64)
        ensures
            Self::from_raw_spec(addr)@ == addr,
    {
    }

    /// Two addresses are equal exactly when their raw values are.
    pub proof fn lemma_view_injective(a: PhysAddr, b: PhysAddr)
        ensures
            (a@ == b@) <==> (a == b),
    {
    }

    pub fn new(addr: u64) -> (r: Self)
        ensures
            r@ == addr,
            r == Self::from_raw_spec(addr),
    {
        PhysAddr(addr)
    }

    pub fn as_u64(self) -> (r: u64)
        ensures
            r == self@,
    {
        self.0
    }

    /// The frame this address falls in: the address divided by
    /// `FRAME_SIZE`, dropping any in-frame offset (taken to `usize`, which
    /// holds every such quotient on a 64-bit target).
    pub fn frame_number(self) -> (r: usize)
        ensures
            r == frame_number_of(self@),
    {
        #[verifier::truncate]
        ((self.0 / FRAME_SIZE) as usize)
    }

    /// The frame-aligned address of frame `frame`; the inverse of
    /// `frame_number` on aligned addresses.
    pub fn from_frame_number(frame: usize) -> (r: Self)
        requires
            frame * FRAME_SIZE <= u64::MAX,
        ensures
            r@ == frame * FRAME_SIZE,
    {
        PhysAddr(frame as u64 * FRAME_SIZE)
    }

    /// True when the address is a multiple of `FRAME_SIZE`.
    pub fn is_frame_aligned(self) -> (r: bool)
        ensures
            r == (self@ % FRAME_SIZE == 0),
    {
        self.0 % FRAME_SIZE == 0
    }
}

/// The frame number of raw address `addr`, as `frame_number` computes it.
pub open spec fn frame_number_of(addr: u64) -> usize {
    #[verifier::truncate]
    ((addr / FRAME_SIZE) as usize)
}

/// `frame_number` undoes `from_frame_number`, whose addresses are
/// frame-aligned; and `from_frame_number` of an address's frame number is
/// the address with its in-frame offset cleared (when that frame number
/// fits in a `usize`, as every one does on a 64-bit target).
pub proof fn lemma_frame_number_round_trip(n: usize, a: u64)
    requires
        n * FRAME_SIZE <= u64::MAX,
    ensures
        frame_number_of((n * FRAME_SIZE) as u64) == n,
        (n * FRAME_SIZE) % (FRAME_SIZE as int) == 0,
        a / FRAME_SIZE <= usize::MAX ==> frame_number_of(a) * FRAME_SIZE == a - a % FRAME_SIZE,
        a / FRAME_SIZE <= usize::MAX ==> frame_number_of(a) * FRAME_SIZE == a & !0xFFFu64,
{
    let m: u64 = (n * 4096) as u64;
    assert((n * 4096) / 4096 == n) by (nonlinear_arith);
    assert(m / 4096 == n);
    assert((n * 4096) % 4096 == 0) by (nonlinear_arith);
    assert(a - a % 4096 == (a / 4096) * 4096) by (nonlinear_arith);
    assert(a & !0xFFFu64 == (a / 4096u64) * 4096u64) by (bit_vector);
}

} // verus!
