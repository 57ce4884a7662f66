//! Rust types that have a Candid type and a Candid encoding.
use crate::error::Error;
use crate::leb128::{sleb, uleb};
use crate::little_endian::{le_bytes, twos_complement};
use crate::types::{IdlType, Type};
use crate::value_ser::text_bytes;
use crate::value_ser::{lemma_prefix_trans, ValueSerializer};
use vstd::prelude::*;

verus! {

/// A Rust type whose values can be sent as Candid arguments.
pub trait CandidType {
    /// The Candid type of the values.
    spec fn candid_type() -> IdlType;

    /// The bytes of this value in a message, or why it has none.
    spec fn encoding(&self) -> Result<Seq<u8>, Error>;

    /// The Candid type of the values.
    fn ty() -> (t: Type)
        ensures
            t@ == Self::candid_type(),
    ;

    /// Appends the bytes of this value. What was written before stays, also
    /// when the value has no encoding.
    fn idl_serialize(&self, ser: &mut ValueSerializer) -> (r: Result<(), Error>)
        ensures
            old(ser)@.is_prefix_of(final(ser)@),
            match self.encoding() {
                Ok(b) => r is Ok && final(ser)@ == old(ser)@ + b,
                Err(e) => r == Err::<(), Error>(e),
            },
    ;
}

impl CandidType for bool {
    open spec fn candid_type() -> IdlType {
        IdlType::Bool
    }

    open spec fn encoding(&self) -> Result<Seq<u8>, Error> {
        Ok(seq![if *self { 1u8 } else { 0u8 }])
    }

    fn ty() -> (t: Type) {
        Type::Bool
    }

    fn idl_serialize(&self, ser: &mut ValueSerializer) -> (r: Result<(), Error>) {
        let r = ser.serialize_bool(*self);
        assert(old(ser)@.push(if *self { 1u8 } else { 0u8 }) =~= old(ser)@ + seq![if *self { 1u8 } else { 0u8 }]);
        r
    }
}

impl CandidType for () {
    open spec fn candid_type() -> IdlType {
        IdlType::Null
    }

    open spec fn encoding(&self) -> Result<Seq<u8>, Error> {
        Ok(Seq::empty())
    }

    fn ty() -> (t: Type) {
        Type::Null
    }

    fn idl_serialize(&self, ser: &mut ValueSerializer) -> (r: Result<(), Error>) {
        let r = ser.serialize_null(());
        assert(old(ser)@ + Seq::<u8>::empty() =~= old(ser)@);
        r
    }
}

impl CandidType for u8 {
    open spec fn candid_type() -> IdlType {
        IdlType::Nat8
    }

    open spec fn encoding(&self) -> Result<Seq<u8>, Error> {
        Ok(seq![*self])
    }

    fn ty() -> (t: Type) {
        Type::Nat8
    }

    fn idl_serialize(&self, ser: &mut ValueSerializer) -> (r: Result<(), Error>) {
        let r = ser.serialize_nat8(*self);
        assert(old(ser)@.push(*self) =~= old(ser)@ + seq![*self]);
        r
    }
}

impl CandidType for u16 {
    open spec fn candid_type() -> IdlType {
        IdlType::Nat16
    }

    open spec fn encoding(&self) -> Result<Seq<u8>, Error> {
        Ok(le_bytes(*self as nat, 2))
    }

    fn ty() -> (t: Type) {
        Type::Nat16
    }

    fn idl_serialize(&self, ser: &mut ValueSerializer) -> (r: Result<(), Error>) {
        ser.serialize_nat16(*self)
    }
}

impl CandidType for u32 {
    open spec fn candid_type() -> IdlType {
        IdlType::Nat32
    }

    open spec fn encoding(&self) -> Result<Seq<u8>, Error> {
        Ok(le_bytes(*self as nat, 4))
    }

    fn ty() -> (t: Type) {
        Type::Nat32
    }

    fn idl_serialize(&self, ser: &mut ValueSerializer) -> (r: Result<(), Error>) {
        ser.serialize_nat32(*self)
    }
}

impl CandidType for u64 {
    open spec fn candid_type() -> IdlType {
        IdlType::Nat64
    }

    open spec fn encoding(&self) -> Result<Seq<u8>, Error> {
        Ok(le_bytes(*self as nat, 8))
    }

    fn ty() -> (t: Type) {
        Type::Nat64
    }

    fn idl_serialize(&self, ser: &mut ValueSerializer) -> (r: Result<(), Error>) {
        ser.serialize_nat64(*self)
    }
}

impl CandidType for u128 {
    open spec fn candid_type() -> IdlType {
        IdlType::Nat
    }

    open spec fn encoding(&self) -> Result<Seq<u8>, Error> {
        Ok(uleb(*self as nat))
    }

    fn ty() -> (t: Type) {
        Type::Nat
    }

    fn idl_serialize(&self, ser: &mut ValueSerializer) -> (r: Result<(), Error>) {
        ser.serialize_u128(*self)
    }
}

impl CandidType for i8 {
    open spec fn candid_type() -> IdlType {
        IdlType::Int8
    }

    open spec fn encoding(&self) -> Result<Seq<u8>, Error> {
        Ok(seq![twos_complement(*self as int, 0x100) as u8])
    }

    fn ty() -> (t: Type) {
        Type::Int8
    }

    fn idl_serialize(&self, ser: &mut ValueSerializer) -> (r: Result<(), Error>) {
        let r = ser.serialize_int8(*self);
        assert(old(ser)@.push(twos_complement(*self as int, 0x100) as u8) =~= old(ser)@ + seq![
            twos_complement(*self as int, 0x100) as u8,
        ]);
        r
    }
}

impl CandidType for i16 {
    open spec fn candid_type() -> IdlType {
        IdlType::Int16
    }

    open spec fn encoding(&self) -> Result<Seq<u8>, Error> {
        Ok(le_bytes(twos_complement(*self as int, 0x1_0000), 2))
    }

    fn ty() -> (t: Type) {
        Type::Int16
    }

    fn idl_serialize(&self, ser: &mut ValueSerializer) -> (r: Result<(), Error>) {
        ser.serialize_int16(*self)
    }
}

impl CandidType for i32 {
    open spec fn candid_type() -> IdlType {
        IdlType::Int32
    }

    open spec fn encoding(&self) -> Result<Seq<u8>, Error> {
        Ok(le_bytes(twos_complement(*self as int, 0x1_0000_0000), 4))
    }

    fn ty() -> (t: Type) {
        Type::Int32
    }

    fn idl_serialize(&self, ser: &mut ValueSerializer) -> (r: Result<(), Error>) {
        ser.serialize_int32(*self)
    }
}

impl CandidType for i64 {
    open spec fn candid_type() -> IdlType {
        IdlType::Int64
    }

    open spec fn encoding(&self) -> Result<Seq<u8>, Error> {
        Ok(le_bytes(twos_complement(*self as int, 0x1_0000_0000_0000_0000), 8))
    }

    fn ty() -> (t: Type) {
        Type::Int64
    }

    fn idl_serialize(&self, ser: &mut ValueSerializer) -> (r: Result<(), Error>) {
        ser.serialize_int64(*self)
    }
}

impl CandidType for i128 {
    open spec fn candid_type() -> IdlType {
        IdlType::Int
    }

    open spec fn encoding(&self) -> Result<Seq<u8>, Error> {
        Ok(sleb(*self as int))
    }

    fn ty() -> (t: Type) {
        Type::Int
    }

    fn idl_serialize(&self, ser: &mut ValueSerializer) -> (r: Result<(), Error>) {
        ser.serialize_i128(*self)
    }
}

impl CandidType for String {
    open spec fn candid_type() -> IdlType {
        IdlType::Text
    }

    open spec fn encoding(&self) -> Result<Seq<u8>, Error> {
        Ok(text_bytes(self@))
    }

    fn ty() -> (t: Type) {
        Type::Text
    }

    fn idl_serialize(&self, ser: &mut ValueSerializer) -> (r: Result<(), Error>) {
        ser.serialize_text(self.as_str())
    }
}

impl<T: CandidType> CandidType for Option<T> {
    open spec fn candid_type() -> IdlType {
        IdlType::Opt(Box::new(T::candid_type()))
    }

    open spec fn encoding(&self) -> Result<Seq<u8>, Error> {
        match self {
            None => Ok(uleb(0)),
            Some(x) => match x.encoding() {
                Ok(b) => Ok(uleb(1) + b),
                Err(e) => Err(e),
            },
        }
    }

    fn ty() -> (t: Type) {
        Type::Opt(Box::new(T::ty()))
    }

    fn idl_serialize(&self, ser: &mut ValueSerializer) -> (r: Result<(), Error>) {
        ser.serialize_option(self.as_ref())
    }
}

/// The bytes of a list of values, one after the other; the first failure is
/// the result.
pub open spec fn elements_encoding<T: CandidType>(s: Seq<T>) -> Result<Seq<u8>, Error>
    decreases s.len(),
{
    if s.len() == 0 {
        Ok(Seq::empty())
    } else {
        match elements_encoding(s.drop_last()) {
            Err(e) => Err(e),
            Ok(b) => match s.last().encoding() {
                Err(e) => Err(e),
                Ok(x) => Ok(b + x),
            },
        }
    }
}

pub proof fn lemma_elements_prefix<T: CandidType>(s: Seq<T>, i: int)
    requires
        0 <= i <= s.len(),
        elements_encoding(s.take(i)) is Err,
    ensures
        elements_encoding(s) == elements_encoding(s.take(i)),
    decreases s.len(),
{
    if i == s.len() {
        assert(s.take(i) =~= s);
    } else {
        assert(s.drop_last().take(i) =~= s.take(i));
        lemma_elements_prefix(s.drop_last(), i);
    }
}

impl<T: CandidType> CandidType for Vec<T> {
    open spec fn candid_type() -> IdlType {
        IdlType::Vec(Box::new(T::candid_type()))
    }

    open spec fn encoding(&self) -> Result<Seq<u8>, Error> {
        match elements_encoding(self@) {
            Ok(b) => Ok(uleb(self@.len()) + b),
            Err(e) => Err(e),
        }
    }

    fn ty() -> (t: Type) {
        Type::Vec(Box::new(T::ty()))
    }

    #[verifier::loop_isolation(false)]
    fn idl_serialize(&self, ser: &mut ValueSerializer) -> (r: Result<(), Error>) {
        let ghost start = ser@;
        let ghost fin = *final(ser);
        let mut c = ser.serialize_vec(self.len())?;
        let mut i: usize = 0;
        assert(self@.take(0) =~= Seq::<T>::empty());
        while i < self.len()
            invariant
                i <= self@.len(),
                start == old(ser)@,
                elements_encoding(self@.take(i as int)) is Ok,
                (*c.ser)@ == start + uleb(self@.len()) + elements_encoding(self@.take(i as int)).unwrap(),
                *final(c.ser) == fin,
            decreases self@.len() - i,
        {
            assert(self@.take(i + 1).drop_last() =~= self@.take(i as int));
            let ghost before = (*c.ser)@;
            assert(start.is_prefix_of(before));
            match c.serialize_element(&self[i]) {
                Err(e) => {
                    proof {
                        lemma_elements_prefix(self@, i + 1);
                        lemma_prefix_trans(start, before, (*c.ser)@);
                    }

                    return Err(e);
                },
                Ok(_) => {},
            }
            i = i + 1;
        }
        assert(self@.take(i as int) =~= self@);
        Ok(())
    }
}

} // verus!
