//! The checksum engine: CRC-32 over a byte sequence.
//!
//! The code is defined by a 32-bit shift register. The register starts with
//! all bits set. Every input byte is taken with its bits in reverse order and
//! folded into the top of the register, which is then shifted left eight
//! times, the generator polynomial being folded in whenever a set bit leaves
//! at the top. The result is the final register with its bits reversed and
//! complemented.

use vstd::prelude::*;

verus! {

/// The generator polynomial in normal form, without its leading term.
pub const POLYNOMIAL: u32 = 0x04C11DB7;

/// The generator polynomial with its bits in reverse order.
pub const REFLECTED_POLYNOMIAL: u32 = 0xEDB88320;

/// The byte `b` with its bits in reverse order: bit `i` of the result is bit
/// `7 - i` of `b`.
pub open spec fn reverse8(b: u8) -> u8 {
    (b & 0x01) << 7 | (b & 0x02) << 5 | (b & 0x04) << 3 | (b & 0x08) << 1 | (b & 0x10) >> 1 | (b
        & 0x20) >> 3 | (b & 0x40) >> 5 | (b & 0x80) >> 7
}

/// The word `x` with its bits in reverse order: its four bytes change places
/// end for end, and each has its own bits reversed.
pub open spec fn reverse32(x: u32) -> u32 {
    (reverse8((x & 0xff) as u8) as u32) << 24 | (reverse8(((x >> 8) & 0xff) as u8) as u32) << 16 | (
    reverse8(((x >> 16) & 0xff) as u8) as u32) << 8 | (reverse8(((x >> 24) & 0xff) as u8) as u32)
}

/// `u8::reverse_bits` of the standard library: the result holds the bits of
/// `b` in reverse order, the least significant bit becoming the most
/// significant one.
pub assume_specification[ u8::reverse_bits ](b: u8) -> (r: u8)
    ensures
        r == reverse8(b),
;

/// `u32::reverse_bits` of the standard library: the result holds the bits of
/// `x` in reverse order, the least significant bit becoming the most
/// significant one.
pub assume_specification[ u32::reverse_bits ](x: u32) -> (r: u32)
    ensures
        r == reverse32(x),
;

/// One shift of the register: the top bit leaves, and where it was set the
/// polynomial is folded in.
pub open spec fn shift_once(reg: u32) -> u32 {
    if reg & 0x8000_0000 != 0 {
        (reg << 1) ^ POLYNOMIAL
    } else {
        reg << 1
    }
}

/// `n` shifts of the register.
pub open spec fn shift_times(reg: u32, n: nat) -> u32
    decreases n,
{
    if n == 0 {
        reg
    } else {
        shift_times(shift_once(reg), (n - 1) as nat)
    }
}

/// The register after one more input byte.
pub open spec fn feed(reg: u32, byte: u8) -> u32 {
    shift_times(reg ^ ((reverse8(byte) as u32) << 24), 8)
}

/// The register after all of `bytes`, starting from all bits set.
pub open spec fn register(bytes: Seq<u8>) -> u32
    decreases bytes.len(),
{
    if bytes.len() == 0 {
        0xFFFF_FFFF
    } else {
        feed(register(bytes.drop_last()), bytes.last())
    }
}

/// The CRC-32 of `bytes`.
pub open spec fn crc32(bytes: Seq<u8>) -> u32 {
    !reverse32(register(bytes))
}

/// Computes the CRC-32 of `bytes` in one pass.
pub fn digest(bytes: &[u8]) -> (crc: u32)
    ensures
        crc == crc32(bytes@),
{
    let mut crc: u32 = !0;
    assert(crc == 0xFFFF_FFFFu32) by (bit_vector)
        requires
            crc == !0u32,
    ;
    for i in 0..bytes.len()
        invariant
            crc == register(bytes@.take(i as int)),
    {
        let ghost before = crc;
        crc = crc ^ ((bytes[i].reverse_bits() as u32) << 24);
        for k in 0..8
            invariant
                i < bytes@.len(),
                shift_times(crc, (8 - k) as nat) == feed(before, bytes@[i as int]),
        {
            assert((crc & (1u32 << 31) > 0) == (crc & 0x8000_0000 != 0)) by (bit_vector);
            if crc & (1 << 31) > 0 {
                crc = (crc << 1) ^ POLYNOMIAL;
            } else {
                crc = crc << 1;
            }
        }
        assert(bytes@.take(i + 1).drop_last() == bytes@.take(i as int));
    }
    assert(bytes@.take(bytes@.len() as int) == bytes@);
    !crc.reverse_bits()
}

/// One shift of the register in the bit-reversed arrangement, in which the
/// bits leave at the bottom.
pub open spec fn reflected_shift_once(reg: u32) -> u32 {
    if reg & 1 != 0 {
        (reg >> 1) ^ REFLECTED_POLYNOMIAL
    } else {
        reg >> 1
    }
}

/// `n` shifts of the register in the bit-reversed arrangement.
pub open spec fn reflected_shift_times(reg: u32, n: nat) -> u32
    decreases n,
{
    if n == 0 {
        reg
    } else {
        reflected_shift_times(reflected_shift_once(reg), (n - 1) as nat)
    }
}

/// The register of the bit-reversed arrangement after all of `bytes`: every
/// byte is folded into the bottom of the register as it stands, with no
/// reversal of its bits.
pub open spec fn reflected_register(bytes: Seq<u8>) -> u32
    decreases bytes.len(),
{
    if bytes.len() == 0 {
        0xFFFF_FFFF
    } else {
        reflected_shift_times(reflected_register(bytes.drop_last()) ^ (bytes.last() as u32), 8)
    }
}

proof fn lemma_shift_once_injective(a: u32, b: u32)
    requires
        shift_once(a) == shift_once(b),
    ensures
        a == b,
{
    assert(shift_once(a) == shift_once(b) ==> a == b) by (bit_vector);
}

proof fn lemma_shift_times_injective(a: u32, b: u32, n: nat)
    requires
        shift_times(a, n) == shift_times(b, n),
    ensures
        a == b,
    decreases n,
{
    if n > 0 {
        lemma_shift_times_injective(shift_once(a), shift_once(b), (n - 1) as nat);
        lemma_shift_once_injective(a, b);
    }
}

/// Two feeds that end in the same register began in the same register
/// exactly when they took the same byte.
pub proof fn lemma_feed_injective(r1: u32, x1: u8, r2: u32, x2: u8)
    requires
        feed(r1, x1) == feed(r2, x2),
    ensures
        r1 == r2 <==> x1 == x2,
{
    let a = r1 ^ ((reverse8(x1) as u32) << 24);
    let b = r2 ^ ((reverse8(x2) as u32) << 24);
    lemma_shift_times_injective(a, b, 8);
    assert(r1 ^ ((reverse8(x1) as u32) << 24) == r2 ^ ((reverse8(x2) as u32) << 24) ==> (r1 == r2
        <==> x1 == x2)) by (bit_vector);
}

/// Two sequences of one length that differ in exactly one byte leave the
/// register in different states.
proof fn lemma_register_single_byte_change(a: Seq<u8>, b: Seq<u8>, at: int)
    requires
        a.len() == b.len(),
        0 <= at < a.len(),
        a[at] != b[at],
        forall|j: int| 0 <= j < a.len() && j != at ==> a[j] == b[j],
    ensures
        register(a) != register(b),
    decreases a.len(),
{
    if at == a.len() - 1 {
        assert(a.drop_last() =~= b.drop_last());
    } else {
        lemma_register_single_byte_change(a.drop_last(), b.drop_last(), at);
    }
    if register(a) == register(b) {
        lemma_feed_injective(
            register(a.drop_last()),
            a.last(),
            register(b.drop_last()),
            b.last(),
        );
    }
}

/// The code detects every change of a single byte: two sequences of one
/// length that differ in exactly one place have different codes.
pub proof fn lemma_single_byte_change(a: Seq<u8>, b: Seq<u8>, at: int)
    requires
        a.len() == b.len(),
        0 <= at < a.len(),
        a[at] != b[at],
        forall|j: int| 0 <= j < a.len() && j != at ==> a[j] == b[j],
    ensures
        crc32(a) != crc32(b),
{
    lemma_register_single_byte_change(a, b, at);
    let x = register(a);
    let y = register(b);
    assert(!reverse32(x) == !reverse32(y) ==> x == y) by (bit_vector);
}

proof fn lemma_reflected_shift_times(reg: u32, n: nat)
    ensures
        reverse32(shift_times(reg, n)) == reflected_shift_times(reverse32(reg), n),
    decreases n,
{
    if n > 0 {
        assert(reverse32(shift_once(reg)) == reflected_shift_once(reverse32(reg)))
            by (bit_vector);
        lemma_reflected_shift_times(shift_once(reg), (n - 1) as nat);
    }
}

/// The code is the one that the common bit-reversed arrangement computes:
/// there the register shifts right, takes each byte as it stands, and is
/// complemented at the end.
pub proof fn lemma_reflected_form(bytes: Seq<u8>)
    ensures
        reverse32(register(bytes)) == reflected_register(bytes),
        crc32(bytes) == !reflected_register(bytes),
    decreases bytes.len(),
{
    if bytes.len() == 0 {
        assert(reverse32(0xFFFF_FFFFu32) == 0xFFFF_FFFFu32) by (bit_vector);
    } else {
        let reg = register(bytes.drop_last());
        let byte = bytes.last();
        lemma_reflected_form(bytes.drop_last());
        lemma_reflected_shift_times(reg ^ ((reverse8(byte) as u32) << 24), 8);
        assert(reverse32(reg ^ ((reverse8(byte) as u32) << 24)) == reverse32(reg) ^ (byte as u32))
            by (bit_vector);
    }
}

} // verus!
