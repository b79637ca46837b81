//! The bytes the early-boot serial console puts on the line: text with
//! each newline sent as CR LF, and `u64` values as 16 upper-case hex
//! digits.
use vstd::prelude::*;
use vstd::string::StringSliceAdditionalSpecFns;

verus! {

/// What writing byte `b` sends: a newline goes out as CR LF.
pub open spec fn line_bytes(b: u8) -> Seq<u8> {
    if b == 10 {
        seq![13u8, 10u8]
    } else {
        seq![b]
    }
}

/// What writing the bytes `s` in order sends.
pub open spec fn line_encoding(s: Seq<u8>) -> Seq<u8>
    decreases s.len(),
{
    if s.len() == 0 {
        Seq::empty()
    } else {
        line_encoding(s.drop_last()) + line_bytes(s.last())
    }
}

/// The ASCII upper-case hex digit for `d` (0 to 15).
pub open spec fn hex_digit(d: int) -> u8 {
    if d < 10 {
        (48 + d) as u8
    } else {
        (55 + d) as u8
    }
}

/// 16 to the power `k`.
pub open spec fn pow16(k: nat) -> nat
    decreases k,
{
    if k == 0 {
        1
    } else {
        16 * pow16((k - 1) as nat)
    }
}

/// The hex digit at position `i` (0 = most significant) of `value` written
/// in 16 digits.
pub open spec fn hex64_digit(value: u64, i: int) -> u8 {
    hex_digit((value as int / pow16((15 - i) as nat) as int) % 16)
}

/// The bytes writing `b` sends: the first `r.1` entries of `r.0`.
pub fn write_byte(b: u8) -> (r: ([u8; 2], usize))
    ensures
        r.1 <= 2,
        r.0@.subrange(0, r.1 as int) == line_bytes(b),
{
    if b == 10 {
        let r = [13u8, 10u8];
        assert(r@.subrange(0, 2) =~= line_bytes(b));
        (r, 2)
    } else {
        let r = [b, 0u8];
        assert(r@.subrange(0, 1) =~= line_bytes(b));
        (r, 1)
    }
}

/// Append the bytes that writing `b` sends.
fn push_line_byte(out: &mut Vec<u8>, b: u8)
    ensures
        final(out)@ == old(out)@ + line_bytes(b),
{
    if b == 10 {
        out.push(13);
    }
    out.push(b);
    proof {
        if b == 10 {
            assert(final(out)@ =~= old(out)@ + line_bytes(b));
        } else {
            assert(final(out)@ =~= old(out)@ + line_bytes(b));
        }
    }
}

/// The bytes writing `s` to the serial line sends: its bytes, each newline
/// preceded by a carriage return.
pub fn write_str(s: &str) -> (r: Vec<u8>)
    ensures
        r@ == line_encoding(s.spec_bytes()),
{
    let bytes = s.as_bytes();
    let mut out: Vec<u8> = Vec::new();
    let mut i: usize = 0;
    while i < bytes.len()
        invariant
            bytes@ == s.spec_bytes(),
            i <= bytes@.len(),
            out@ == line_encoding(bytes@.subrange(0, i as int)),
        decreases bytes@.len() - i,
    {
        proof {
            assert(bytes@.subrange(0, i + 1).drop_last() =~= bytes@.subrange(0, i as int));
        }
        push_line_byte(&mut out, bytes[i]);
        i = i + 1;
    }
    proof {
        assert(bytes@.subrange(0, bytes@.len() as int) =~= bytes@);
    }
    out
}

/// The bytes writing `value` as a fixed-width, 16-digit upper-case hex
/// number sends.
pub fn write_hex64(value: u64) -> (r: [u8; 16])
    ensures
        r@.len() == 16,
        forall|i: int| 0 <= i < 16 ==> #[trigger] r@[i] == hex64_digit(value, i),
{
    let mut buf: [u8; 16] = [0u8; 16];
    let mut v = value;
    let mut k: usize = 0;
    assert(pow16(0) == 1);
    while k < 16
        invariant
            k <= 16,
            buf@.len() == 16,
            v as int == value as int / pow16(k as nat) as int,
            forall|i: int| 15 - k < i < 16 ==> #[trigger] buf@[i] == hex64_digit(value, i),
        decreases 16 - k,
    {
        let d = (v % 16) as u8;
        let slot = 15 - k;
        let digit = if d < 10 {
            48 + d
        } else {
            55 + d
        };
        buf[slot] = digit;
        proof {
            assert(pow16((15 - slot) as nat) == pow16(k as nat));
            assert(hex64_digit(value, slot as int) == hex_digit(d as int));
            assert(pow16((k + 1) as nat) == 16 * pow16(k as nat));
            assert(pow16(k as nat) > 0) by {
                lemma_pow16_positive(k as nat);
            }
            vstd::arithmetic::div_mod::lemma_div_denominator(
                value as int,
                pow16(k as nat) as int,
                16,
            );
        }
        v = v / 16;
        k = k + 1;
    }
    buf
}

proof fn lemma_pow16_positive(k: nat)
    ensures
        pow16(k) > 0,
    decreases k,
{
    if k > 0 {
        lemma_pow16_positive((k - 1) as nat);
    }
}

/// The 16 hex digits of `v`.
pub open spec fn hex64_text(v: u64) -> Seq<u8> {
    Seq::new(16, |i: int| hex64_digit(v, i))
}

/// Append the bytes of `s`.
pub fn push_str(out: &mut Vec<u8>, s: &str)
    ensures
        final(out)@ == old(out)@ + s.spec_bytes(),
{
    let bytes = s.as_bytes();
    let mut i: usize = 0;
    while i < bytes.len()
        invariant
            bytes@ == s.spec_bytes(),
            i <= bytes@.len(),
            out@ == old(out)@ + bytes@.subrange(0, i as int),
        decreases bytes@.len() - i,
    {
        out.push(bytes[i]);
        i = i + 1;
        proof {
            assert(out@ =~= old(out)@ + bytes@.subrange(0, i as int));
        }
    }
    proof {
        assert(bytes@.subrange(0, bytes@.len() as int) =~= bytes@);
    }
}

/// Append the 16 hex digits of `v`.
pub fn push_hex64(out: &mut Vec<u8>, v: u64)
    ensures
        final(out)@ == old(out)@ + hex64_text(v),
{
    let digits = write_hex64(v);
    let mut i: usize = 0;
    while i < 16
        invariant
            digits@.len() == 16,
            forall|j: int| 0 <= j < 16 ==> #[trigger] digits@[j] == hex64_digit(v, j),
            i <= 16,
            out@ == old(out)@ + hex64_text(v).subrange(0, i as int),
        decreases 16 - i,
    {
        out.push(digits[i]);
        i = i + 1;
        proof {
            assert(out@ =~= old(out)@ + hex64_text(v).subrange(0, i as int));
        }
    }
    proof {
        assert(hex64_text(v).subrange(0, 16) =~= hex64_text(v));
    }
}

} // verus!
