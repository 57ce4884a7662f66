//! Serializing values: the value part of a Candid message.
use crate::candid_type::CandidType;
use crate::error::Error;
use crate::leb128::{encode_int, encode_nat, leb128_write_unsigned, sleb, uleb};
use crate::little_endian::{le_bytes, le_i16, le_i32, le_i64, le_u16, le_u32, le_u64, twos_complement};
use std::collections::TryReserveError;
use vstd::prelude::*;
use vstd::utf8::encode_utf8;

verus! {

/// The bytes of a text value: its length in bytes, then its UTF-8 bytes.
pub open spec fn text_bytes(s: Seq<char>) -> Seq<u8> {
    uleb(encode_utf8(s).len()) + encode_utf8(s)
}

/// The bytes of a principal: the tag 1, the length, then the bytes.
pub open spec fn principal_bytes(blob: Seq<u8>) -> Seq<u8> {
    seq![1u8] + uleb(blob.len()) + blob
}

/// Being a prefix is transitive: bytes that stay under bytes that stay, stay.
pub proof fn lemma_prefix_trans(a: Seq<u8>, b: Seq<u8>, c: Seq<u8>)
    requires
        a.is_prefix_of(b),
        b.is_prefix_of(c),
    ensures
        a.is_prefix_of(c),
{
    assert(a =~= c.subrange(0, a.len() as int)) by {
        assert forall|i: int| 0 <= i < a.len() implies a[i] == c[i] by {
            assert(a[i] == b.subrange(0, a.len() as int)[i]);
            assert(b[i] == c.subrange(0, b.len() as int)[i]);
        }
    }
}

/// The value serializer only appends: what it held stays in front of what it
/// holds after bytes are appended.
pub proof fn law_append_keeps_prefix(a: Seq<u8>, b: Seq<u8>)
    ensures
        a.is_prefix_of(a + b),
{
    assert(a =~= (a + b).subrange(0, a.len() as int));
}

/// Calls `Vec::try_reserve` on a byte vector.
/// Trusted: the call never changes the contents. std documents that a vector
/// never holds more than `isize::MAX` bytes, that on success its capacity is
/// at least its length plus `additional`, and that a capacity overflow is
/// returned as an error; so asking for room beyond `isize::MAX` bytes in all
/// fails. It also documents that the call does nothing when the capacity
/// already suffices, which it always does for no more room, so asking for
/// none succeeds. Whether any other request succeeds depends on the capacity
/// and the allocator and is left unsaid.
#[verifier::external_body]
fn vec_try_reserve(v: &mut Vec<u8>, additional: usize) -> (r: Result<(), TryReserveError>)
    ensures
        final(v)@ == old(v)@,
        old(v)@.len() + additional > isize::MAX ==> r is Err,
        additional == 0 ==> r is Ok,
{
    v.try_reserve(additional)
}

/// Collects the serialized values of a message.
pub struct ValueSerializer {
    value: Vec<u8>,
}

impl View for ValueSerializer {
    type V = Seq<u8>;

    closed spec fn view(&self) -> Seq<u8> {
        self.value@
    }
}

impl ValueSerializer {
    /// A serializer that has written nothing.
    pub fn new() -> (r: ValueSerializer)
        ensures
            r@ == Seq::<u8>::empty(),
    {
        ValueSerializer { value: Vec::new() }
    }

    /// The bytes written so far.
    pub fn get_result(&self) -> (r: &[u8])
        ensures
            r@ == self@,
    {
        self.value.as_slice()
    }

    /// Appends the unsigned LEB128 bytes of `value`.
    pub fn write_leb128(&mut self, value: u64) -> (r: Result<(), Error>)
        ensures
            r is Ok,
            final(self)@ == old(self)@ + uleb(value as nat),
    {
        match leb128_write_unsigned(&mut self.value, value) {
            Ok(_) => Ok(()),
            Err(_) => Err(Error::Io),
        }
    }

    /// Appends `bytes`.
    pub fn write(&mut self, bytes: &[u8]) -> (r: Result<(), Error>)
        ensures
            r is Ok,
            final(self)@ == old(self)@ + bytes@,
    {
        let ghost before = self.value@;
        self.value.extend_from_slice(bytes);
        assert(self.value@ =~= before + bytes@);
        Ok(())
    }

    /// Asks for room for `additional` more bytes; what was written stays.
    /// Room beyond `isize::MAX` bytes in all is refused; asking for no room
    /// succeeds.
    pub fn try_reserve(&mut self, additional: usize) -> (r: Result<(), TryReserveError>)
        ensures
            final(self)@ == old(self)@,
            old(self)@.len() + additional > isize::MAX ==> r is Err,
            additional == 0 ==> r is Ok,
    {
        vec_try_reserve(&mut self.value, additional)
    }

    fn push_byte(&mut self, b: u8)
        ensures
            final(self)@ == old(self)@.push(b),
    {
        self.value.push(b);
    }

    /// A boolean: one byte, 1 for true and 0 for false.
    pub fn serialize_bool(&mut self, v: bool) -> (r: Result<(), Error>)
        ensures
            r is Ok,
            final(self)@ == old(self)@.push(if v { 1u8 } else { 0u8 }),
    {
        self.push_byte(if v { 1u8 } else { 0u8 });
        Ok(())
    }

    /// A 128-bit integer, as signed LEB128.
    pub fn serialize_i128(&mut self, v: i128) -> (r: Result<(), Error>)
        ensures
            r is Ok,
            final(self)@ == old(self)@ + sleb(v as int),
    {
        encode_int(&mut self.value, v);
        Ok(())
    }

    /// A 128-bit natural number, as unsigned LEB128.
    pub fn serialize_u128(&mut self, v: u128) -> (r: Result<(), Error>)
        ensures
            r is Ok,
            final(self)@ == old(self)@ + uleb(v as nat),
    {
        encode_nat(&mut self.value, v);
        Ok(())
    }

    /// A `nat8`: its byte.
    pub fn serialize_nat8(&mut self, v: u8) -> (r: Result<(), Error>)
        ensures
            r is Ok,
            final(self)@ == old(self)@.push(v),
    {
        self.push_byte(v);
        Ok(())
    }

    /// A `nat16`: two bytes, little-endian.
    pub fn serialize_nat16(&mut self, v: u16) -> (r: Result<(), Error>)
        ensures
            r is Ok,
            final(self)@ == old(self)@ + le_bytes(v as nat, 2),
    {
        let b = le_u16(v);
        self.write(&b)
    }

    /// A `nat32`: four bytes, little-endian.
    pub fn serialize_nat32(&mut self, v: u32) -> (r: Result<(), Error>)
        ensures
            r is Ok,
            final(self)@ == old(self)@ + le_bytes(v as nat, 4),
    {
        let b = le_u32(v);
        self.write(&b)
    }

    /// A `nat64`: eight bytes, little-endian.
    pub fn serialize_nat64(&mut self, v: u64) -> (r: Result<(), Error>)
        ensures
            r is Ok,
            final(self)@ == old(self)@ + le_bytes(v as nat, 8),
    {
        let b = le_u64(v);
        self.write(&b)
    }

    /// An `int8`: its two's complement byte.
    pub fn serialize_int8(&mut self, v: i8) -> (r: Result<(), Error>)
        ensures
            r is Ok,
            final(self)@ == old(self)@.push(twos_complement(v as int, 0x100) as u8),
    {
        let b: u8 = if v < 0 { (v as i16 + 256) as u8 } else { v as u8 };
        self.push_byte(b);
        Ok(())
    }

    /// An `int16`: two bytes of two's complement, little-endian.
    pub fn serialize_int16(&mut self, v: i16) -> (r: Result<(), Error>)
        ensures
            r is Ok,
            final(self)@ == old(self)@ + le_bytes(twos_complement(v as int, 0x1_0000), 2),
    {
        let b = le_i16(v);
        self.write(&b)
    }

    /// An `int32`: four bytes of two's complement, little-endian.
    pub fn serialize_int32(&mut self, v: i32) -> (r: Result<(), Error>)
        ensures
            r is Ok,
            final(self)@ == old(self)@ + le_bytes(twos_complement(v as int, 0x1_0000_0000), 4),
    {
        let b = le_i32(v);
        self.write(&b)
    }

    /// An `int64`: eight bytes of two's complement, little-endian.
    pub fn serialize_int64(&mut self, v: i64) -> (r: Result<(), Error>)
        ensures
            r is Ok,
            final(self)@ == old(self)@ + le_bytes(twos_complement(v as int, 0x1_0000_0000_0000_0000), 8),
    {
        let b = le_i64(v);
        self.write(&b)
    }

    /// A text: its length in bytes, then its UTF-8 bytes.
    pub fn serialize_text(&mut self, v: &str) -> (r: Result<(), Error>)
        ensures
            r is Ok,
            final(self)@ == old(self)@ + text_bytes(v@),
    {
        let buf = v.as_bytes();
        self.write_leb128(buf.len() as u64)?;
        let ghost before = self.value@;
        self.value.extend_from_slice(buf);
        assert(self.value@ =~= before + buf@);
        Ok(())
    }

    /// `null`: nothing.
    pub fn serialize_null(&mut self, _v: ()) -> (r: Result<(), Error>)
        ensures
            r is Ok,
            final(self)@ == old(self)@,
    {
        Ok(())
    }

    /// The `empty` type has no values: always fails.
    pub fn serialize_empty(&mut self) -> (r: Result<(), Error>)
        ensures
            r == Err::<(), Error>(Error::EmptyType),
            final(self)@ == old(self)@,
    {
        Err(Error::EmptyType)
    }

    /// A principal: the tag 1, the length of `blob`, then `blob`.
    pub fn serialize_principal(&mut self, blob: &[u8]) -> (r: Result<(), Error>)
        ensures
            r is Ok,
            final(self)@ == old(self)@ + principal_bytes(blob@),
    {
        self.write(&[1])?;
        self.write_leb128(blob.len() as u64)?;
        self.write(blob)?;
        assert(final(self)@ =~= old(self)@ + principal_bytes(blob@));
        Ok(())
    }

    /// A function reference: the tag 1, the principal, then the method name.
    pub fn serialize_function(&mut self, blob: &[u8], meth: &str) -> (r: Result<(), Error>)
        ensures
            r is Ok,
            final(self)@ == old(self)@ + seq![1u8] + principal_bytes(blob@) + text_bytes(meth@),
    {
        self.write(&[1])?;
        self.serialize_principal(blob)?;
        self.serialize_text(meth)
    }

    /// An optional value: 0 for none; 1, then the value, for some. Where the
    /// value has no encoding, the tag 1 and what was written before stay.
    pub fn serialize_option<T: CandidType>(&mut self, v: Option<&T>) -> (r: Result<(), Error>)
        ensures
            old(self)@.is_prefix_of(final(self)@),
            match v {
                None => r is Ok && final(self)@ == old(self)@ + uleb(0),
                Some(x) => (old(self)@ + uleb(1)).is_prefix_of(final(self)@) && match x.encoding() {
                    Ok(b) => r is Ok && final(self)@ == old(self)@ + uleb(1) + b,
                    Err(e) => r == Err::<(), Error>(e),
                },
            },
    {
        match v {
            None => {
                self.write_leb128(0)?;
                Ok(())
            },
            Some(v) => {
                self.write_leb128(1)?;
                v.idl_serialize(self)
            },
        }
    }

    /// Opens a variant: writes the index of its case.
    pub fn serialize_variant<'a>(&'a mut self, index: u64) -> (r: Result<Compound<'a>, Error>)
        ensures
            r is Ok,
            r matches Ok(c) ==> (*c.ser)@ == old(self)@ + uleb(index as nat) && *final(self) == *final(c.ser),
    {
        self.write_leb128(index)?;
        Ok(Compound { ser: self })
    }

    /// Opens a record: writes nothing.
    pub fn serialize_struct<'a>(&'a mut self) -> (r: Result<Compound<'a>, Error>)
        ensures
            r is Ok,
            r matches Ok(c) ==> (*c.ser)@ == old(self)@ && *final(self) == *final(c.ser),
    {
        Ok(Compound { ser: self })
    }

    /// Opens a vector: writes its length.
    pub fn serialize_vec<'a>(&'a mut self, len: usize) -> (r: Result<Compound<'a>, Error>)
        ensures
            r is Ok,
            r matches Ok(c) ==> (*c.ser)@ == old(self)@ + uleb(len as nat) && *final(self) == *final(c.ser),
    {
        self.write_leb128(len as u64)?;
        Ok(Compound { ser: self })
    }

    /// A blob: its length, then its bytes.
    pub fn serialize_blob(&mut self, blob: &[u8]) -> (r: Result<(), Error>)
        ensures
            r is Ok,
            final(self)@ == old(self)@ + uleb(blob@.len()) + blob@,
    {
        self.write_leb128(blob.len() as u64)?;
        self.write(blob)?;
        Ok(())
    }
}

impl Default for ValueSerializer {
    /// A serializer that has written nothing, as `new` makes.
    fn default() -> (r: ValueSerializer)
        ensures
            r@ == Seq::<u8>::empty(),
    {
        ValueSerializer::new()
    }
}

/// The elements of an opened record, variant or vector, written one after the
/// other.
pub struct Compound<'a> {
    pub ser: &'a mut ValueSerializer,
}

impl<'a> Compound<'a> {
    /// Writes the next element. What was written before stays, also when the
    /// element has no encoding.
    pub fn serialize_element<T: CandidType>(&mut self, value: &T) -> (r: Result<(), Error>)
        ensures
            (*old(self).ser)@.is_prefix_of((*final(self).ser)@),
            match value.encoding() {
                Ok(b) => r is Ok && (*final(self).ser)@ == (*old(self).ser)@ + b,
                Err(e) => r == Err::<(), Error>(e),
            },
            *final(final(self).ser) == *final(old(self).ser),
    {
        value.idl_serialize(&mut *self.ser)?;
        Ok(())
    }

    /// Writes a blob: its length, then its bytes.
    pub fn serialize_blob(&mut self, blob: &[u8]) -> (r: Result<(), Error>)
        ensures
            r is Ok,
            (*final(self).ser)@ == (*old(self).ser)@ + uleb(blob@.len()) + blob@,
            *final(final(self).ser) == *final(old(self).ser),
    {
        self.ser.serialize_blob(blob)
    }
}

} // verus!
