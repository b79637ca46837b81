//! The diagnostic report printed when a CPU exception is caught.
use vstd::prelude::*;
use vstd::string::StringSliceAdditionalSpecFns;

use crate::serial::{hex64_text, push_hex64, push_str};

verus! {

/// The frame the CPU pushes before invoking an exception handler.
#[derive(Debug, Clone, Copy, PartialEq, Eq, Structural)]
pub struct InterruptStackFrame {
    pub rip: u64,
    pub cs: u64,
    pub rflags: u64,
    pub rsp: u64,
    pub ss: u64,
}

/// The vector of the page fault, which pushes an error code and sets CR2.
pub const PAGE_FAULT_VECTOR: u8 = 14;

/// The vector of the breakpoint trap, the one exception execution resumes
/// after.
pub const BREAKPOINT_VECTOR: u8 = 3;

/// The CPU exceptions that push an error code: double fault, invalid TSS,
/// segment not present, stack-segment fault, general protection, page
/// fault, alignment check, control protection, VMM communication and
/// security exceptions.
pub open spec fn has_error_code(vector: int) -> bool {
    vector == 8 || vector == 10 || vector == 11 || vector == 12 || vector == 13 || vector == 14
        || vector == 17 || vector == 21 || vector == 29 || vector == 30
}

/// Whether the CPU pushes an error code for exception `vector`.
pub fn pushes_error_code(vector: u8) -> (r: bool)
    ensures
        r == has_error_code(vector as int),
{
    vector == 8 || vector == 10 || vector == 11 || vector == 12 || vector == 13 || vector == 14
        || vector == 17 || vector == 21 || vector == 29 || vector == 30
}

/// The name of CPU exception `vector` (vectors 0 to 31; "Reserved" for
/// the unassigned ones and any other).
pub open spec fn exception_name_of(vector: int) -> Seq<char> {
    if vector == 0 {
        "Divide Error (#DE)"@
    } else if vector == 1 {
        "Debug (#DB)"@
    } else if vector == 2 {
        "Non-Maskable Interrupt"@
    } else if vector == 3 {
        "Breakpoint (#BP)"@
    } else if vector == 4 {
        "Overflow (#OF)"@
    } else if vector == 5 {
        "Bound Range Exceeded (#BR)"@
    } else if vector == 6 {
        "Invalid Opcode (#UD)"@
    } else if vector == 7 {
        "Device Not Available (#NM)"@
    } else if vector == 8 {
        "Double Fault (#DF)"@
    } else if vector == 9 {
        "Reserved (legacy Coprocessor Segment Overrun)"@
    } else if vector == 10 {
        "Invalid TSS (#TS)"@
    } else if vector == 11 {
        "Segment Not Present (#NP)"@
    } else if vector == 12 {
        "Stack-Segment Fault (#SS)"@
    } else if vector == 13 {
        "General Protection Fault (#GP)"@
    } else if vector == 14 {
        "Page Fault (#PF)"@
    } else if vector == 16 {
        "x87 Floating-Point Exception (#MF)"@
    } else if vector == 17 {
        "Alignment Check (#AC)"@
    } else if vector == 18 {
        "Machine Check (#MC)"@
    } else if vector == 19 {
        "SIMD Floating-Point Exception (#XM)"@
    } else if vector == 20 {
        "Virtualization Exception (#VE)"@
    } else if vector == 21 {
        "Control Protection Exception (#CP)"@
    } else if vector == 28 {
        "Hypervisor Injection Exception (#HV)"@
    } else if vector == 29 {
        "VMM Communication Exception (#VC)"@
    } else if vector == 30 {
        "Security Exception (#SX)"@
    } else {
        "Reserved"@
    }
}

/// The name the report gives CPU exception `vector`.
pub fn exception_name(vector: u8) -> (r: &'static str)
    ensures
        r@ == exception_name_of(vector as int),
{
    match vector {
        0 => "Divide Error (#DE)",
        1 => "Debug (#DB)",
        2 => "Non-Maskable Interrupt",
        3 => "Breakpoint (#BP)",
        4 => "Overflow (#OF)",
        5 => "Bound Range Exceeded (#BR)",
        6 => "Invalid Opcode (#UD)",
        7 => "Device Not Available (#NM)",
        8 => "Double Fault (#DF)",
        9 => "Reserved (legacy Coprocessor Segment Overrun)",
        10 => "Invalid TSS (#TS)",
        11 => "Segment Not Present (#NP)",
        12 => "Stack-Segment Fault (#SS)",
        13 => "General Protection Fault (#GP)",
        14 => "Page Fault (#PF)",
        16 => "x87 Floating-Point Exception (#MF)",
        17 => "Alignment Check (#AC)",
        18 => "Machine Check (#MC)",
        19 => "SIMD Floating-Point Exception (#XM)",
        20 => "Virtualization Exception (#VE)",
        21 => "Control Protection Exception (#CP)",
        28 => "Hypervisor Injection Exception (#HV)",
        29 => "VMM Communication Exception (#VC)",
        30 => "Security Exception (#SX)",
        _ => "Reserved",
    }
}

/// Bit `k` of `v`.
pub open spec fn bit_set(v: u64, k: nat) -> bool {
    (v as int / vstd::arithmetic::power2::pow2(k) as int) % 2 == 1
}

/// The line decoding a page-fault error code: present/not present,
/// write/read, user/supervisor, then the reserved-bit and
/// instruction-fetch causes when set.
pub open spec fn page_fault_cause_text(error_code: u64) -> Seq<u8> {
    "  Cause: ".spec_bytes() + (if bit_set(error_code, 0) {
        "protection violation (page present)".spec_bytes()
    } else {
        "non-present page".spec_bytes()
    }) + ", ".spec_bytes() + (if bit_set(error_code, 1) {
        "write".spec_bytes()
    } else {
        "read".spec_bytes()
    }) + ", ".spec_bytes() + (if bit_set(error_code, 2) {
        "user-mode".spec_bytes()
    } else {
        "supervisor-mode".spec_bytes()
    }) + (if bit_set(error_code, 3) {
        ", reserved-bit-set page table entry".spec_bytes()
    } else {
        Seq::empty()
    }) + (if bit_set(error_code, 4) {
        ", instruction fetch".spec_bytes()
    } else {
        Seq::empty()
    }) + "\r\n".spec_bytes()
}

/// The full report for `vector` (named `name`) with the optional error
/// code, the saved frame, and CR2 (shown for page faults only), ending
/// with whether execution resumes (breakpoint) or halts.
pub open spec fn report_text(
    vector: u8,
    name: Seq<u8>,
    error_code: Option<u64>,
    frame: InterruptStackFrame,
    cr2: u64,
) -> Seq<u8> {
    "\r\n!!! CPU EXCEPTION !!!\r\n".spec_bytes() + "Vector: 0x".spec_bytes() + hex64_text(
        vector as u64,
    ) + " (".spec_bytes() + name + ")\r\n".spec_bytes() + (match error_code {
        Some(code) => "Error code: 0x".spec_bytes() + hex64_text(code) + "\r\n".spec_bytes() + (
        if vector == PAGE_FAULT_VECTOR {
            page_fault_cause_text(code)
        } else {
            Seq::empty()
        }),
        None => Seq::empty(),
    }) + (if vector == PAGE_FAULT_VECTOR {
        "CR2 (faulting address): 0x".spec_bytes() + hex64_text(cr2) + "\r\n".spec_bytes()
    } else {
        Seq::empty()
    }) + "RIP: 0x".spec_bytes() + hex64_text(frame.rip) + "  CS: 0x".spec_bytes() + hex64_text(
        frame.cs,
    ) + "\r\nRFLAGS: 0x".spec_bytes() + hex64_text(frame.rflags) + "\r\nRSP: 0x".spec_bytes()
        + hex64_text(frame.rsp) + "  SS: 0x".spec_bytes() + hex64_text(frame.ss)
        + "\r\n".spec_bytes() + (if vector == BREAKPOINT_VECTOR {
        "(Breakpoint — resuming execution.)\r\n".spec_bytes()
    } else {
        "Kernel halted.\r\n".spec_bytes()
    })
}

proof fn lemma_low_bits(v: u64)
    ensures
        (v & 1u64 != 0) == bit_set(v, 0),
        (v & 2u64 != 0) == bit_set(v, 1),
        (v & 4u64 != 0) == bit_set(v, 2),
        (v & 8u64 != 0) == bit_set(v, 3),
        (v & 16u64 != 0) == bit_set(v, 4),
{
    vstd::arithmetic::power2::lemma2_to64();
    assert((v & 1u64 != 0) == (v % 2 == 1) && (v & 2u64 != 0) == ((v / 2) % 2 == 1) && (v & 4u64
        != 0) == ((v / 4) % 2 == 1) && (v & 8u64 != 0) == ((v / 8) % 2 == 1) && (v & 16u64 != 0)
        == ((v / 16) % 2 == 1)) by (bit_vector);
}

/// The line decoding the cause bits of a page-fault error code.
pub fn report_page_fault_error_code(error_code: u64) -> (r: Vec<u8>)
    ensures
        r@ == page_fault_cause_text(error_code),
{
    proof {
        lemma_low_bits(error_code);
    }
    let mut out: Vec<u8> = Vec::new();
    push_str(&mut out, "  Cause: ");
    push_str(
        &mut out,
        if error_code & 1 != 0 {
            "protection violation (page present)"
        } else {
            "non-present page"
        },
    );
    push_str(&mut out, ", ");
    push_str(
        &mut out,
        if error_code & 0b10 != 0 {
            "write"
        } else {
            "read"
        },
    );
    push_str(&mut out, ", ");
    push_str(
        &mut out,
        if error_code & 0b100 != 0 {
            "user-mode"
        } else {
            "supervisor-mode"
        },
    );
    if error_code & 0b1000 != 0 {
        push_str(&mut out, ", reserved-bit-set page table entry");
    }
    if error_code & 0b10000 != 0 {
        push_str(&mut out, ", instruction fetch");
    }
    push_str(&mut out, "\r\n");
    proof {
        assert(out@ =~= page_fault_cause_text(error_code));
    }
    out
}

/// The report for an exception: the text to print, and whether execution
/// resumes afterwards (true only for the breakpoint trap) or halts.
pub fn report(
    vector: u8,
    name: &str,
    error_code: Option<u64>,
    frame: &InterruptStackFrame,
    cr2: u64,
) -> (r: (Vec<u8>, bool))
    ensures
        r.0@ == report_text(vector, name.spec_bytes(), error_code, *frame, cr2),
        r.1 == (vector == BREAKPOINT_VECTOR),
{
    let mut out: Vec<u8> = Vec::new();
    push_str(&mut out, "\r\n!!! CPU EXCEPTION !!!\r\n");
    push_str(&mut out, "Vector: 0x");
    push_hex64(&mut out, vector as u64);
    push_str(&mut out, " (");
    push_str(&mut out, name);
    push_str(&mut out, ")\r\n");
    let ghost head = out@;
    match error_code {
        Some(code) => {
            push_str(&mut out, "Error code: 0x");
            push_hex64(&mut out, code);
            push_str(&mut out, "\r\n");
            if vector == PAGE_FAULT_VECTOR {
                let cause = report_page_fault_error_code(code);
                let mut i: usize = 0;
                let ghost before = out@;
                while i < cause.len()
                    invariant
                        i <= cause@.len(),
                        out@ == before + cause@.subrange(0, i as int),
                    decreases cause@.len() - i,
                {
                    out.push(cause[i]);
                    i = i + 1;
                    proof {
                        assert(out@ =~= before + cause@.subrange(0, i as int));
                    }
                }
                proof {
                    assert(cause@.subrange(0, cause@.len() as int) =~= cause@);
                }
            }
        },
        None => {},
    }
    let ghost after_code = out@;
    if vector == PAGE_FAULT_VECTOR {
        push_str(&mut out, "CR2 (faulting address): 0x");
        push_hex64(&mut out, cr2);
        push_str(&mut out, "\r\n");
    }
    let ghost after_cr2 = out@;
    push_str(&mut out, "RIP: 0x");
    push_hex64(&mut out, frame.rip);
    push_str(&mut out, "  CS: 0x");
    push_hex64(&mut out, frame.cs);
    push_str(&mut out, "\r\nRFLAGS: 0x");
    push_hex64(&mut out, frame.rflags);
    push_str(&mut out, "\r\nRSP: 0x");
    push_hex64(&mut out, frame.rsp);
    push_str(&mut out, "  SS: 0x");
    push_hex64(&mut out, frame.ss);
    push_str(&mut out, "\r\n");
    if vector == BREAKPOINT_VECTOR {
        push_str(&mut out, "(Breakpoint — resuming execution.)\r\n");
        proof {
            assert(out@ =~= report_text(vector, name.spec_bytes(), error_code, *frame, cr2));
        }
        return (out, true);
    }
    push_str(&mut out, "Kernel halted.\r\n");
    proof {
        assert(out@ =~= report_text(vector, name.spec_bytes(), error_code, *frame, cr2));
    }
    (out, false)
}

} // verus!
