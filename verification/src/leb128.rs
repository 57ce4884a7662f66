//! LEB128 variable-length integers, as used for every length, count, index and
//! `nat`/`int` value of the Candid binary format.
use vstd::prelude::*;

verus! {

/// Unsigned LEB128: seven bits per byte, least significant group first,
/// the high bit set on every byte but the last.
pub open spec fn uleb(n: nat) -> Seq<u8>
    decreases n,
{
    if n < 128 {
        seq![n as u8]
    } else {
        seq![(n % 128 + 128) as u8] + uleb(n / 128)
    }
}

/// Signed LEB128 (two's complement): seven bits per byte, least significant
/// group first, stopping once the rest is the sign extension of bit 6.
pub open spec fn sleb(i: int) -> Seq<u8>
    decreases (if i < 0 { -i } else { i }),
{
    if -64 <= i < 64 {
        seq![(i % 128) as u8]
    } else {
        seq![(i % 128 + 128) as u8] + sleb(i / 128)
    }
}

/// Reads an unsigned LEB128 number back: each byte gives its low seven bits,
/// least significant group first.
pub open spec fn uleb_decode(s: Seq<u8>) -> nat
    decreases s.len(),
{
    if s.len() == 0 {
        0
    } else {
        (s[0] % 128) as nat + 128 * uleb_decode(s.drop_first())
    }
}

/// Reads a signed LEB128 number back: as `uleb_decode`, but the last byte's
/// seven bits are a two's complement number.
pub open spec fn sleb_decode(s: Seq<u8>) -> int
    decreases s.len(),
{
    if s.len() <= 1 {
        let b = s[0] % 128;
        if b >= 64 {
            b - 128
        } else {
            b as int
        }
    } else {
        (s[0] % 128) as int + 128 * sleb_decode(s.drop_first())
    }
}

/// Unsigned LEB128 is self-delimiting and decodes back: every byte but the
/// last has the high bit set, the last has it clear, and reading the bytes
/// gives the number that was written.
pub proof fn law_uleb_roundtrip(n: nat)
    ensures
        uleb(n).len() >= 1,
        uleb(n).last() < 128,
        forall|i: int| 0 <= i < uleb(n).len() - 1 ==> uleb(n)[i] >= 128,
        uleb_decode(uleb(n)) == n,
    decreases n,
{
    if n < 128 {
        assert(uleb_decode(uleb(n)) == (uleb(n)[0] % 128) as nat + 128 * uleb_decode(uleb(n).drop_first()));
        assert(uleb(n).drop_first() =~= Seq::<u8>::empty());
    } else {
        law_uleb_roundtrip(n / 128);
        let s = uleb(n);
        assert(s.drop_first() =~= uleb(n / 128));
        assert(s[0] % 128 == n % 128);
        assert(n % 128 + 128 * (n / 128) == n) by (nonlinear_arith);
        assert(uleb_decode(s) == (s[0] % 128) as nat + 128 * uleb_decode(s.drop_first()));
        assert(uleb_decode(s.drop_first()) == n / 128);
        assert forall|i: int| 0 <= i < s.len() - 1 implies s[i] >= 128 by {
            if i > 0 {
                assert(s[i] == uleb(n / 128)[i - 1]);
            }
        }
    }
}

/// Signed LEB128 is self-delimiting and decodes back.
pub proof fn law_sleb_roundtrip(i: int)
    ensures
        sleb(i).len() >= 1,
        sleb(i).last() < 128,
        forall|k: int| 0 <= k < sleb(i).len() - 1 ==> sleb(i)[k] >= 128,
        sleb_decode(sleb(i)) == i,
    decreases (if i < 0 { -i } else { i }),
{
    if !(-64 <= i < 64) {
        law_sleb_roundtrip(i / 128);
        let s = sleb(i);
        assert(s.drop_first() =~= sleb(i / 128));
        assert(s[0] % 128 == i % 128);
        assert(i % 128 + 128 * (i / 128) == i) by (nonlinear_arith);
        assert forall|k: int| 0 <= k < s.len() - 1 implies s[k] >= 128 by {
            if k > 0 {
                assert(s[k] == sleb(i / 128)[k - 1]);
            }
        }
    }
}

/// `s` is one unsigned LEB128 number in its shortest form, and that number is
/// `n`: every byte but the last has the high bit set, the last has it clear,
/// the last is not a needless zero, and the seven-bit groups read `n`.
pub open spec fn uleb_reads(s: Seq<u8>, n: nat) -> bool {
    &&& s.len() >= 1
    &&& s.last() < 128
    &&& forall|k: int| 0 <= k < s.len() - 1 ==> s[k] >= 128
    &&& (s.len() > 1 ==> s.last() != 0)
    &&& uleb_decode(s) == n
}

/// `s` is one signed LEB128 number in its shortest form, and that number is
/// `i`: self-delimiting as above, the last byte is not a needless sign
/// extension of the one before, and the groups read `i` in two's complement.
pub open spec fn sleb_reads(s: Seq<u8>, i: int) -> bool {
    &&& s.len() >= 1
    &&& s.last() < 128
    &&& forall|k: int| 0 <= k < s.len() - 1 ==> s[k] >= 128
    &&& (s.len() > 1 ==> !(s.last() == 0 && s[s.len() - 2] % 128 < 64))
    &&& (s.len() > 1 ==> !(s.last() == 127 && s[s.len() - 2] % 128 >= 64))
    &&& sleb_decode(s) == i
}

/// The unsigned LEB128 bytes of `n` are read back as `n`, in shortest form.
pub proof fn law_uleb_reads(n: nat)
    ensures
        uleb_reads(uleb(n), n),
    decreases n,
{
    law_uleb_roundtrip(n);
    if n >= 128 {
        law_uleb_reads(n / 128);
        let s = uleb(n);
        assert(s.drop_first() =~= uleb(n / 128));
        if uleb(n / 128).len() == 1 {
            assert(n / 128 >= 1);
            assert(s.last() == uleb(n / 128).last());
        } else {
            assert(s.last() == uleb(n / 128).last());
        }
    }
}

/// Only the unsigned LEB128 bytes of `n` read as `n` in shortest form.
pub proof fn law_uleb_unique(s: Seq<u8>, n: nat)
    requires
        uleb_reads(s, n),
    ensures
        s == uleb(n),
    decreases s.len(),
{
    if s.len() == 1 {
        assert(s.drop_first() =~= Seq::<u8>::empty());
        assert(uleb_decode(s) == (s[0] % 128) as nat + 128 * uleb_decode(s.drop_first()));
        assert(s =~= uleb(n));
    } else {
        let rest = s.drop_first();
        assert(uleb_decode(s) == (s[0] % 128) as nat + 128 * uleb_decode(rest));
        assert(s[0] % 128 + 128 * uleb_decode(rest) == n);
        assert(n % 128 == s[0] % 128 && n / 128 == uleb_decode(rest)) by (nonlinear_arith)
            requires
                s[0] % 128 + 128 * uleb_decode(rest) == n,
                0 <= s[0] % 128 < 128,
        ;
        assert(rest.last() == s.last());
        assert forall|k: int| 0 <= k < rest.len() - 1 implies rest[k] >= 128 by {
            assert(rest[k] == s[k + 1]);
        }
        if rest.len() > 1 {
            assert(rest[rest.len() - 1] == s[s.len() - 1]);
        }
        law_uleb_unique(rest, n / 128);
        if n < 128 {
            assert(rest == uleb(0));
            assert(rest.len() == 1);
            assert(false);
        }
        assert(s[0] >= 128);
        assert(s[0] == (n % 128 + 128) as u8);
        assert(s =~= seq![(n % 128 + 128) as u8] + uleb(n / 128));
    }
}

/// The signed LEB128 bytes of `i` are read back as `i`, in shortest form.
pub proof fn law_sleb_reads(i: int)
    ensures
        sleb_reads(sleb(i), i),
    decreases (if i < 0 { -i } else { i }),
{
    law_sleb_roundtrip(i);
    if !(-64 <= i < 64) {
        law_sleb_reads(i / 128);
        let s = sleb(i);
        let t = sleb(i / 128);
        assert(s.drop_first() =~= t);
        assert(s.last() == t.last());
        if t.len() == 1 {
            assert(s[s.len() - 2] == s[0]);
            assert(s[0] % 128 == i % 128);
            assert(t.last() == ((i / 128) % 128) as u8);
            if t.last() == 0 {
                assert(i / 128 == 0);
                assert(i % 128 >= 64);
            }
            if t.last() == 127 {
                assert(i / 128 == -1);
                assert(i % 128 < 64);
            }
        } else {
            assert(s[s.len() - 2] == t[t.len() - 2]);
        }
    }
}

#[verifier::external_type_specification]
#[verifier::external_body]
pub struct ExIoError(std::io::Error);

/// Calls `leb128::write::unsigned` with a byte vector as the writer.
/// Trusted: that function appends the unsigned LEB128 bytes of `value` (one
/// `write_all` per byte, the high bit set on all but the last) and returns how
/// many it wrote; `Vec<u8>`'s `Write` appends to the vector and grows it as
/// needed, so no write fails.
#[verifier::external_body]
pub(crate) fn leb128_write_unsigned(buf: &mut Vec<u8>, value: u64) -> (r: Result<usize, std::io::Error>)
    ensures
        r is Ok,
        r.unwrap() == uleb(value as nat).len(),
        final(buf)@ == old(buf)@ + uleb(value as nat),
{
    leb128::write::unsigned(buf, value)
}

/// Calls `leb128::write::signed` with a byte vector as the writer.
/// Trusted: that function appends the signed LEB128 bytes of `value` (seven
/// bits per byte until the rest is `0` or `-1` with a matching sign bit) and
/// returns how many it wrote; `Vec<u8>`'s `Write` appends and does not fail.
#[verifier::external_body]
pub(crate) fn leb128_write_signed(buf: &mut Vec<u8>, value: i64) -> (r: Result<usize, std::io::Error>)
    ensures
        r is Ok,
        r.unwrap() == sleb(value as int).len(),
        final(buf)@ == old(buf)@ + sleb(value as int),
{
    leb128::write::signed(buf, value)
}

/// Splits `v` into its low seven bits and the rest, rounding down.
fn split_signed(v: i128) -> (r: (u8, i128))
    ensures
        r.0 as int == v as int % 128,
        r.1 as int == v as int / 128,
{
    if v >= 0 {
        ((v % 128) as u8, v / 128)
    } else {
        let w: i128 = -(v + 1);
        assert(v as int / 128 == -(w as int / 128) - 1 && v as int % 128 == 127 - w as int % 128)
            by (nonlinear_arith)
            requires
                v == -w - 1,
                w >= 0,
        ;
        ((127 - w % 128) as u8, -(w / 128) - 1)
    }
}

/// Appends the unsigned LEB128 encoding of a 128-bit natural number.
pub fn encode_nat(buf: &mut Vec<u8>, value: u128)
    ensures
        final(buf)@ == old(buf)@ + uleb(value as nat),
{
    let mut v: u128 = value;
    loop
        invariant
            old(buf)@ + uleb(value as nat) == buf@ + uleb(v as nat),
        decreases v,
    {
        if v < 128 {
            buf.push(v as u8);
            return ;
        }
        let ghost before = buf@;
        buf.push((v % 128 + 128) as u8);
        assert(before + uleb(v as nat) =~= buf@ + uleb((v / 128) as nat));
        v = v / 128;
    }
}

/// Appends the signed LEB128 encoding of a 128-bit integer.
pub fn encode_int(buf: &mut Vec<u8>, value: i128)
    ensures
        final(buf)@ == old(buf)@ + sleb(value as int),
{
    let mut v: i128 = value;
    loop
        invariant
            old(buf)@ + sleb(value as int) == buf@ + sleb(v as int),
        decreases (if v < 0 { -v } else { v as int }),
    {
        let (low, rest) = split_signed(v);
        if -64 <= v && v < 64 {
            buf.push(low);
            return ;
        }
        let ghost before = buf@;
        buf.push(low + 128);
        assert(before + sleb(v as int) =~= buf@ + sleb(rest as int));
        v = rest;
    }
}

} // verus!
