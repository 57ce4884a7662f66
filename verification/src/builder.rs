//! Building a whole Candid message from a sequence of arguments.
use crate::candid_type::CandidType;
use crate::error::Error;
use crate::leb128::uleb;
use crate::type_ser::{build, encode_refs, TypeSerialize};
use crate::types::{merge_from, names_sorted, IdlType, Type, TypeEnv};
use crate::value::{annotated_encoding, value_encoding, value_type, IDLValue};
use crate::value_ser::ValueSerializer;
use std::collections::TryReserveError;
use vstd::prelude::*;

verus! {

/// The four bytes that open every message: "DIDL".
pub open spec fn magic() -> Seq<u8> {
    seq![0x44u8, 0x49u8, 0x44u8, 0x4cu8]
}

/// The type part that serializing appends, given the state of the type
/// serializer: the number of table entries, the entries, the number of
/// arguments and the reference to each argument's type.
pub open spec fn type_part(types: TypeSerialize) -> Result<Seq<u8>, Error> {
    match encode_refs(types.env(), types.map(), types.args()) {
        Ok(x) => Ok(uleb(types.table().len()) + types.table().flatten() + uleb(types.args().len()) + x),
        Err(e) => Err(e),
    }
}

/// Serializes a sequence of values, of different types, to one message.
pub struct IDLBuilder {
    type_ser: TypeSerialize,
    value_ser: ValueSerializer,
}

/// What adding an argument of type `t` whose bytes are `enc` does to a
/// builder, and what it returns: the type becomes the next argument type and
/// gets its table entries; then, if that worked, the value's bytes are
/// appended. Where the value has no encoding, the values written before stay.
pub open spec fn after_arg(
    before: IDLBuilder,
    after: IDLBuilder,
    t: IdlType,
    enc: Result<Seq<u8>, Error>,
    r: Result<(), Error>,
) -> bool {
    after_arg_in(before, after, before.types().env(), t, enc, r)
}

/// What adding an argument does, as in `after_arg`, once the bindings of type
/// variables are `env`.
pub open spec fn after_arg_in(
    before: IDLBuilder,
    after: IDLBuilder,
    env: Seq<(Seq<u8>, IdlType)>,
    t: IdlType,
    enc: Result<Seq<u8>, Error>,
    r: Result<(), Error>,
) -> bool {
    let (st2, r2) = build(env, before.types().state(), t);
    &&& after.types().args() == before.types().args().push(t)
    &&& after.types().table() == st2.table
    &&& after.types().map() == st2.map
    &&& after.types().env() == env
    &&& after.types().result() == before.types().result()
    &&& match r2 {
        Err(e) => r == Err::<(), Error>(e) && after.values() == before.values(),
        Ok(_) => match enc {
            Ok(b) => r == Ok::<(), Error>(()) && after.values() == before.values() + b,
            Err(e) => r == Err::<(), Error>(e) && before.values().is_prefix_of(after.values()),
        },
    }
}

/// The builder is unchanged but for its bindings of type variables, which
/// are `env`.
pub open spec fn only_env_changed(before: IDLBuilder, after: IDLBuilder, env: Seq<(Seq<u8>, IdlType)>) -> bool {
    &&& after.types().env() == env
    &&& after.types().table() == before.types().table()
    &&& after.types().map() == before.types().map()
    &&& after.types().args() == before.types().args()
    &&& after.types().result() == before.types().result()
    &&& after.values() == before.values()
}

/// What adding the value `v` with the type `t` and the bindings `other` does
/// to a builder, and what it returns: the bindings are merged in; then the
/// value is given the type; then the type is added, and the value's bytes.
pub open spec fn after_typed_arg(
    before: IDLBuilder,
    after: IDLBuilder,
    other: Seq<(Seq<u8>, IdlType)>,
    v: IDLValue,
    t: IdlType,
    r: Result<(), Error>,
) -> bool {
    let (env2, rm) = merge_from(before.types().env(), other, 0);
    match rm {
        Err(e) => r == Err::<(), Error>(e) && only_env_changed(before, after, env2),
        Ok(_) => match annotated_encoding(env2, v, t) {
            Err(e) => r == Err::<(), Error>(e) && only_env_changed(before, after, env2),
            Ok(bytes) => after_arg_in(before, after, env2, t, Ok(bytes), r),
        },
    }
}

/// Two builders hold the same state: the same type table, memo, bindings,
/// argument types, type part written so far and values.
pub open spec fn same_state(a: IDLBuilder, b: IDLBuilder) -> bool {
    &&& a.types().table() == b.types().table()
    &&& a.types().map() == b.types().map()
    &&& a.types().env() == b.types().env()
    &&& a.types().args() == b.types().args()
    &&& a.types().result() == b.types().result()
    &&& a.values() == b.values()
}

/// Builders do not depend on each other: two builders in the same state that
/// are given the same argument return the same result and, unless the value
/// has no encoding, end in the same state.
pub proof fn law_arg_same_state(
    b1: IDLBuilder,
    a1: IDLBuilder,
    b2: IDLBuilder,
    a2: IDLBuilder,
    t: IdlType,
    enc: Result<Seq<u8>, Error>,
    r1: Result<(), Error>,
    r2: Result<(), Error>,
)
    requires
        same_state(b1, b2),
        after_arg(b1, a1, t, enc, r1),
        after_arg(b2, a2, t, enc, r2),
    ensures
        r1 == r2,
        enc is Ok ==> same_state(a1, a2),
{
}

/// The same for an argument given with its type and bindings: the results
/// and the states after agree.
pub proof fn law_typed_arg_same_state(
    b1: IDLBuilder,
    a1: IDLBuilder,
    b2: IDLBuilder,
    a2: IDLBuilder,
    other: Seq<(Seq<u8>, IdlType)>,
    v: IDLValue,
    t: IdlType,
    r1: Result<(), Error>,
    r2: Result<(), Error>,
)
    requires
        same_state(b1, b2),
        after_typed_arg(b1, a1, other, v, t, r1),
        after_typed_arg(b2, a2, other, v, t, r2),
    ensures
        r1 == r2,
        same_state(a1, a2),
{
}

/// Two builders in the same state write the same type part, and so the same
/// message.
pub proof fn law_same_state_same_message(b1: IDLBuilder, b2: IDLBuilder)
    requires
        same_state(b1, b2),
    ensures
        type_part(b1.types()) == type_part(b2.types()),
{
}

/// The four bytes that open every message.
pub fn magic_bytes() -> (r: [u8; 4])
    ensures
        r@ == magic(),
{
    let r = [0x44u8, 0x49u8, 0x44u8, 0x4cu8];
    assert(r@ =~= magic());
    r
}

impl IDLBuilder {
    /// The state of the type serializer.
    pub closed spec fn types(&self) -> TypeSerialize {
        self.type_ser
    }

    /// The values serialized so far.
    pub closed spec fn values(&self) -> Seq<u8> {
        self.value_ser@
    }

    /// A builder with no arguments.
    pub fn new() -> (r: IDLBuilder)
        ensures
            r.types().table() == Seq::<Seq<u8>>::empty(),
            r.types().map() == Seq::<(IdlType, i32)>::empty(),
            r.types().env() == Seq::<(Seq<u8>, IdlType)>::empty(),
            r.types().args() == Seq::<IdlType>::empty(),
            r.types().result() == Seq::<u8>::empty(),
            r.values() == Seq::<u8>::empty(),
    {
        IDLBuilder { type_ser: TypeSerialize::new(), value_ser: ValueSerializer::new() }
    }

    /// Adds an argument: its type, then its value.
    pub fn arg<'a, T: CandidType>(&'a mut self, value: &T) -> (r: Result<&'a mut IDLBuilder, Error>)
        ensures
            match r {
                Ok(b) => after_arg(*old(self), *b, T::candid_type(), value.encoding(), Ok(())) && *final(self) == *final(b),
                Err(e) => after_arg(*old(self), *final(self), T::candid_type(), value.encoding(), Err(e)),
            },
    {
        let t = T::ty();
        match self.type_ser.push_type(&t) {
            Err(e) => {
                return Err(e);
            },
            Ok(_) => {},
        }
        match value.idl_serialize(&mut self.value_ser) {
            Err(e) => {
                return Err(e);
            },
            Ok(_) => {},
        }
        Ok(self)
    }

    /// Adds an argument given as a Candid value: the type it has on its own,
    /// then its bytes.
    pub fn value_arg<'a>(&'a mut self, value: &IDLValue) -> (r: Result<&'a mut IDLBuilder, Error>)
        ensures
            match r {
                Ok(b) => after_arg(*old(self), *b, value_type(*value), Ok(value_encoding(*value)), Ok(()))
                    && *final(self) == *final(b),
                Err(e) => after_arg(*old(self), *final(self), value_type(*value), Ok(value_encoding(*value)), Err(e)),
            },
    {
        let t = value.value_ty();
        match self.type_ser.push_type(&t) {
            Err(e) => {
                return Err(e);
            },
            Ok(_) => {},
        }
        match value.idl_serialize(&mut self.value_ser) {
            Err(e) => {
                return Err(e);
            },
            Ok(_) => {},
        }
        Ok(self)
    }

    /// Adds an argument given as a Candid value and the type it is sent at:
    /// the bindings `env` join the builder's; the value is given the type
    /// `t`; then the type is added, and the value's bytes.
    pub fn value_arg_with_type<'a>(&'a mut self, value: &IDLValue, env: &TypeEnv, t: &Type) -> (r: Result<&'a mut IDLBuilder, Error>)
        ensures
            match r {
                Ok(b) => after_typed_arg(*old(self), *b, env@, *value, t@, Ok(())) && *final(self) == *final(b)
                    && names_sorted(b.types().env()),
                Err(e) => after_typed_arg(*old(self), *final(self), env@, *value, t@, Err(e))
                    && names_sorted(final(self).types().env()),
            },
    {
        match self.type_ser.merge_env(env) {
            Err(e) => {
                return Err(e);
            },
            Ok(_) => {},
        }
        let v = match value.annotate_type(self.type_ser.type_env(), t) {
            Err(e) => {
                return Err(e);
            },
            Ok(v) => v,
        };
        match self.type_ser.push_type(t) {
            Err(e) => {
                return Err(e);
            },
            Ok(_) => {},
        }
        match v.idl_serialize(&mut self.value_ser) {
            Err(e) => {
                return Err(e);
            },
            Ok(_) => {},
        }
        Ok(self)
    }

    /// Appends the type part to what the type serializer holds: the number of
    /// table entries, the entries, the number of arguments and the reference
    /// to each argument's type. A failure to refer to an argument's type stops
    /// it after the number of arguments.
    pub fn serialize_type_part(&mut self) -> (r: Result<(), Error>)
        ensures
            final(self).values() == old(self).values(),
            final(self).types().table() == old(self).types().table(),
            final(self).types().map() == old(self).types().map(),
            final(self).types().env() == old(self).types().env(),
            final(self).types().args() == old(self).types().args(),
            match type_part(old(self).types()) {
                Ok(tp) => r is Ok && final(self).types().result() == old(self).types().result() + tp,
                Err(e) => r == Err::<(), Error>(e)
                    && final(self).types().result() == old(self).types().result() + uleb(old(self).types().table().len())
                    + old(self).types().table().flatten() + uleb(old(self).types().args().len()),
            },
    {
        self.type_ser.serialize()
    }

    /// The type part written so far.
    pub fn type_part_bytes(&self) -> (r: &[u8])
        ensures
            r@ == self.types().result(),
    {
        self.type_ser.get_result()
    }

    /// The values written so far.
    pub fn value_bytes(&self) -> (r: &[u8])
        ensures
            r@ == self.values(),
    {
        self.value_ser.get_result()
    }

    /// Appends the message to `writer`: "DIDL", the type part, then the
    /// values. The type part is also kept, appended to what the type
    /// serializer already holds.
    pub fn serialize(&mut self, writer: &mut Vec<u8>) -> (r: Result<(), Error>)
        ensures
            final(self).values() == old(self).values(),
            final(self).types().table() == old(self).types().table(),
            final(self).types().map() == old(self).types().map(),
            final(self).types().env() == old(self).types().env(),
            final(self).types().args() == old(self).types().args(),
            match type_part(old(self).types()) {
                Ok(tp) => r is Ok && final(self).types().result() == old(self).types().result() + tp
                    && final(writer)@ == old(writer)@ + magic() + final(self).types().result() + old(self).values(),
                Err(e) => r == Err::<(), Error>(e) && final(writer)@ == old(writer)@ + magic()
                    && final(self).types().result() == old(self).types().result() + uleb(old(self).types().table().len())
                    + old(self).types().table().flatten() + uleb(old(self).types().args().len()),
            },
    {
        let ghost before = writer@;
        let m = magic_bytes();
        writer.extend_from_slice(&m);
        assert(writer@ =~= before + magic());
        match self.serialize_type_part() {
            Err(e) => {
                return Err(e);
            },
            Ok(_) => {},
        }
        let ghost mid = writer@;
        writer.extend_from_slice(self.type_part_bytes());
        writer.extend_from_slice(self.value_bytes());
        assert(writer@ =~= mid + self.types().result() + self.values());
        Ok(())
    }

    /// The message as a new byte vector.
    pub fn serialize_to_vec(&mut self) -> (r: Result<Vec<u8>, Error>)
        ensures
            final(self).values() == old(self).values(),
            final(self).types().table() == old(self).types().table(),
            final(self).types().map() == old(self).types().map(),
            final(self).types().env() == old(self).types().env(),
            final(self).types().args() == old(self).types().args(),
            match type_part(old(self).types()) {
                Ok(tp) => r is Ok && final(self).types().result() == old(self).types().result() + tp
                    && r.unwrap()@ == magic() + final(self).types().result() + old(self).values(),
                Err(e) => r == Err::<Vec<u8>, Error>(e)
                    && final(self).types().result() == old(self).types().result() + uleb(old(self).types().table().len())
                    + old(self).types().table().flatten() + uleb(old(self).types().args().len()),
            },
    {
        let mut vec: Vec<u8> = Vec::new();
        match self.serialize(&mut vec) {
            Err(e) => Err(e),
            Ok(_) => {
                assert(vec@ =~= magic() + self.type_ser.result() + self.value_ser@);
                Ok(vec)
            },
        }
    }

    /// Asks for room for `additional` more value bytes; nothing written changes.
    /// Room beyond `isize::MAX` value bytes in all is refused; asking for no
    /// room succeeds.
    pub fn try_reserve_value_serializer_capacity(&mut self, additional: usize) -> (r: Result<(), TryReserveError>)
        ensures
            final(self).values() == old(self).values(),
            old(self).values().len() + additional > isize::MAX ==> r is Err,
            additional == 0 ==> r is Ok,
            final(self).types() == old(self).types(),
    {
        self.value_ser.try_reserve(additional)
    }
}

impl Default for IDLBuilder {
    /// A builder with no arguments, as `new` makes.
    fn default() -> (r: IDLBuilder)
        ensures
            r.types().table() == Seq::<Seq<u8>>::empty(),
            r.types().map() == Seq::<(IdlType, i32)>::empty(),
            r.types().env() == Seq::<(Seq<u8>, IdlType)>::empty(),
            r.types().args() == Seq::<IdlType>::empty(),
            r.types().result() == Seq::<u8>::empty(),
            r.values() == Seq::<u8>::empty(),
    {
        IDLBuilder::new()
    }
}

} // verus!
