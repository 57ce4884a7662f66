//! Fixed-width little-endian integers, the wire form of Candid's `nat16` ..
//! `nat64` and `int16` .. `int64` values.
use byteorder::{ByteOrder, LittleEndian};
use vstd::prelude::*;

verus! {

/// The `width` low bytes of `n`, least significant first.
pub open spec fn le_bytes(n: nat, width: nat) -> Seq<u8>
    decreases width,
{
    if width == 0 {
        seq![]
    } else {
        seq![(n % 256) as u8] + le_bytes(n / 256, (width - 1) as nat)
    }
}

/// Reads little-endian bytes back as a number.
pub open spec fn le_decode(s: Seq<u8>) -> nat
    decreases s.len(),
{
    if s.len() == 0 {
        0
    } else {
        s[0] as nat + 256 * le_decode(s.drop_first())
    }
}

/// Little-endian bytes decode back: a number below `256` to the power
/// `width` is read back from its `width` bytes.
pub proof fn law_le_roundtrip(n: nat, width: nat)
    requires
        n < vstd::arithmetic::power::pow(256, width),
    ensures
        le_bytes(n, width).len() == width,
        le_decode(le_bytes(n, width)) == n,
    decreases width,
{
    vstd::arithmetic::power::lemma_pow0(256);
    if width > 0 {
        let p = vstd::arithmetic::power::pow(256, (width - 1) as nat);
        vstd::arithmetic::power::lemma_pow_adds(256, 1, (width - 1) as nat);
        vstd::arithmetic::power::lemma_pow1(256);
        assert(n / 256 < p) by (nonlinear_arith)
            requires
                n < 256 * p,
        ;
        law_le_roundtrip(n / 256, (width - 1) as nat);
        let s = le_bytes(n, width);
        assert(s.drop_first() =~= le_bytes(n / 256, (width - 1) as nat));
        assert(n % 256 + 256 * (n / 256) == n) by (nonlinear_arith);
    }
}

/// The two's complement of `i` modulo `modulus` (a power of two), as a
/// natural number.
pub open spec fn twos_complement(i: int, modulus: nat) -> nat {
    if i < 0 {
        (i + modulus) as nat
    } else {
        i as nat
    }
}

/// Calls `<LittleEndian as ByteOrder>::write_u16` on a two-byte buffer.
/// Trusted: it stores `n.to_le_bytes()` there.
#[verifier::external_body]
pub(crate) fn le_u16(n: u16) -> (r: [u8; 2])
    ensures
        r@ == le_bytes(n as nat, 2),
{
    let mut buf = [0u8; 2];
    LittleEndian::write_u16(&mut buf, n);
    buf
}

/// Calls `<LittleEndian as ByteOrder>::write_u32` on a four-byte buffer.
/// Trusted: it stores `n.to_le_bytes()` there.
#[verifier::external_body]
pub(crate) fn le_u32(n: u32) -> (r: [u8; 4])
    ensures
        r@ == le_bytes(n as nat, 4),
{
    let mut buf = [0u8; 4];
    LittleEndian::write_u32(&mut buf, n);
    buf
}

/// Calls `<LittleEndian as ByteOrder>::write_u64` on an eight-byte buffer.
/// Trusted: it stores `n.to_le_bytes()` there.
#[verifier::external_body]
pub(crate) fn le_u64(n: u64) -> (r: [u8; 8])
    ensures
        r@ == le_bytes(n as nat, 8),
{
    let mut buf = [0u8; 8];
    LittleEndian::write_u64(&mut buf, n);
    buf
}

/// Calls `<LittleEndian as ByteOrder>::write_i16` on a two-byte buffer.
/// Trusted: it stores the bytes of `n as u16`, least significant first.
#[verifier::external_body]
pub(crate) fn le_i16(n: i16) -> (r: [u8; 2])
    ensures
        r@ == le_bytes(twos_complement(n as int, 0x1_0000), 2),
{
    let mut buf = [0u8; 2];
    LittleEndian::write_i16(&mut buf, n);
    buf
}

/// Calls `<LittleEndian as ByteOrder>::write_i32` on a four-byte buffer.
/// Trusted: it stores the bytes of `n as u32`, least significant first.
#[verifier::external_body]
pub(crate) fn le_i32(n: i32) -> (r: [u8; 4])
    ensures
        r@ == le_bytes(twos_complement(n as int, 0x1_0000_0000), 4),
{
    let mut buf = [0u8; 4];
    LittleEndian::write_i32(&mut buf, n);
    buf
}

/// Calls `<LittleEndian as ByteOrder>::write_i64` on an eight-byte buffer.
/// Trusted: it stores the bytes of `n as u64`, least significant first.
#[verifier::external_body]
pub(crate) fn le_i64(n: i64) -> (r: [u8; 8])
    ensures
        r@ == le_bytes(twos_complement(n as int, 0x1_0000_0000_0000_0000), 8),
{
    let mut buf = [0u8; 8];
    LittleEndian::write_i64(&mut buf, n);
    buf
}

} // verus!
