//! The IDT's 16-byte gate entries and the installation of the 32 CPU
//! exception handlers.
use vstd::prelude::*;

use crate::gdt::{DOUBLE_FAULT_IST_INDEX, KERNEL_CODE_SELECTOR};

verus! {

/// Type/attribute byte of a present, ring-0, 64-bit interrupt gate.
pub const TYPE_ATTR_INTERRUPT_GATE: u8 = 0x8E;

/// The number of IDT vectors.
pub const IDT_ENTRIES: usize = 256;

/// The number of architecturally defined CPU exception vectors.
pub const EXCEPTION_VECTORS: usize = 32;

/// One interrupt gate: the handler address split over three fields, the
/// code selector, the IST slot and the type/attribute byte.
#[derive(Debug, Clone, Copy, PartialEq, Eq, Structural)]
pub struct IdtEntry {
    pub offset_low: u16,
    pub selector: u16,
    pub ist: u8,
    pub type_attr: u8,
    pub offset_mid: u16,
    pub offset_high: u32,
    pub reserved: u32,
}

/// The IDT entry for `handler` on IST slot `ist` (0: no stack switch).
pub open spec fn gate(handler: u64, ist: u8) -> IdtEntry {
    IdtEntry {
        offset_low: (handler % 0x1_0000) as u16,
        selector: KERNEL_CODE_SELECTOR,
        ist,
        type_attr: TYPE_ATTR_INTERRUPT_GATE,
        offset_mid: ((handler / 0x1_0000) % 0x1_0000) as u16,
        offset_high: (handler / 0x1_0000_0000) as u32,
        reserved: 0,
    }
}

/// Gate `prev` once pointed at `handler` on IST slot `ist`: every field
/// of `gate(handler, ist)` but the reserved one, which keeps its value.
pub open spec fn installed(prev: IdtEntry, handler: u64, ist: u8) -> IdtEntry {
    IdtEntry { reserved: prev.reserved, ..gate(handler, ist) }
}

/// The all-zero entry, with the present bit clear.
pub open spec fn missing_gate() -> IdtEntry {
    IdtEntry {
        offset_low: 0,
        selector: 0,
        ist: 0,
        type_attr: 0,
        offset_mid: 0,
        offset_high: 0,
        reserved: 0,
    }
}

/// The IST slot the handler for `vector` runs on: the double fault gets
/// its own stack, every other exception stays on the current one.
pub open spec fn exception_ist(vector: int) -> u8 {
    if vector == 8 {
        DOUBLE_FAULT_IST_INDEX as u8
    } else {
        0
    }
}

impl IdtEntry {
    /// An absent gate: taking this vector faults as "interrupt does not
    /// exist" instead of jumping anywhere.
    pub fn missing() -> (r: Self)
        ensures
            r == missing_gate(),
    {
        IdtEntry {
            offset_low: 0,
            selector: 0,
            ist: 0,
            type_attr: 0,
            offset_mid: 0,
            offset_high: 0,
            reserved: 0,
        }
    }

    /// Point this gate at `handler`, on the kernel code segment and IST
    /// slot `ist`. The reserved field keeps its value.
    pub fn set_handler(&mut self, handler: u64, ist: u8)
        ensures
            final(self).offset_low == handler % 0x1_0000,
            final(self).offset_mid == (handler / 0x1_0000) % 0x1_0000,
            final(self).offset_high == handler / 0x1_0000_0000,
            final(self).selector == KERNEL_CODE_SELECTOR,
            final(self).ist == ist,
            final(self).type_attr == TYPE_ATTR_INTERRUPT_GATE,
            final(self).reserved == old(self).reserved,
    {
        self.offset_low = (handler & 0xFFFF) as u16;
        self.offset_mid = ((handler >> 16u64) & 0xFFFF) as u16;
        self.offset_high = (handler >> 32u64) as u32;
        self.selector = KERNEL_CODE_SELECTOR;
        self.ist = ist;
        self.type_attr = TYPE_ATTR_INTERRUPT_GATE;
        assert(handler & 0xFFFFu64 == handler % 0x1_0000u64 && (handler >> 16u64) & 0xFFFFu64 == (
        handler / 0x1_0000u64) % 0x1_0000u64 && handler >> 32u64 == handler / 0x1_0000_0000u64)
            by (bit_vector);
    }

    /// The handler address held by the three offset fields.
    pub open spec fn handler_address(&self) -> int {
        self.offset_low + self.offset_mid * 0x1_0000 + self.offset_high * 0x1_0000_0000
    }
}

/// The offset fields of a gate put back together give its handler.
pub proof fn lemma_gate_handler_round_trip(handler: u64, ist: u8)
    ensures
        gate(handler, ist).handler_address() == handler,
{
    assert(handler % 0x1_0000u64 + ((handler / 0x1_0000u64) % 0x1_0000u64) * 0x1_0000u64 + (handler
        / 0x1_0000_0000u64) * 0x1_0000_0000u64 == handler) by (bit_vector);
}

/// An IDT with every gate absent.
pub fn empty_idt() -> (r: [IdtEntry; 256])
    ensures
        forall|v: int| 0 <= v < 256 ==> #[trigger] r[v] == missing_gate(),
{
    [IdtEntry::missing();256]
}

/// Point gate `vector` at `handler` on IST slot `ist`.
pub fn set_entry(idt: &mut [IdtEntry; 256], vector: usize, handler: u64, ist: u8)
    requires
        vector < IDT_ENTRIES,
    ensures
        final(idt)@ == old(idt)@.update(
            vector as int,
            installed(old(idt)@[vector as int], handler, ist),
        ),
{
    let mut entry = idt[vector];
    entry.set_handler(handler, ist);
    idt[vector] = entry;
}

/// Install the 32 exception handlers, `handlers[v]` being the address of
/// the handler for vector `v`: each gets an interrupt gate on the kernel
/// code segment, the double fault (vector 8) on its own IST stack. The
/// other 224 gates are left as they are.
pub fn install_handlers(idt: &mut [IdtEntry; 256], handlers: &[u64; 32])
    ensures
        forall|v: int|
            0 <= v < 32 ==> #[trigger] final(idt)@[v] == installed(
                old(idt)@[v],
                handlers@[v],
                exception_ist(v),
            ),
        forall|v: int| 32 <= v < 256 ==> #[trigger] final(idt)@[v] == old(idt)@[v],
{
    let mut vector: usize = 0;
    while vector < EXCEPTION_VECTORS
        invariant
            vector <= 32,
            idt@.len() == 256,
            forall|v: int|
                0 <= v < vector ==> #[trigger] idt@[v] == installed(
                    old(idt)@[v],
                    handlers@[v],
                    exception_ist(v),
                ),
            forall|v: int| vector <= v < 256 ==> #[trigger] idt@[v] == old(idt)@[v],
        decreases 32 - vector,
    {
        let ist: u8 = if vector == 8 {
            DOUBLE_FAULT_IST_INDEX as u8
        } else {
            0
        };
        set_entry(idt, vector, handlers[vector], ist);
        vector = vector + 1;
    }
}

} // verus!
