//! Candid values held without a Rust type: their Candid type, read off the
//! value, and their encoding.
use crate::candid_type::CandidType;
use crate::error::Error;
use crate::leb128::{law_sleb_reads, law_uleb_reads, sleb, sleb_reads, uleb, uleb_reads};
use crate::little_endian::{law_le_roundtrip, le_bytes, le_decode, twos_complement};
use crate::types::{clone_bytes, is_primitive, fields_model, lemma_resolve_not_var, lemma_view_kind, lemma_view_lists, rec_find, Field, Function, IdlType, Type, TypeEnv};
use crate::value_ser::{principal_bytes, text_bytes, ValueSerializer};
use vstd::prelude::*;
use vstd::utf8::encode_utf8;

verus! {

/// A labelled field of a record or variant value.
pub struct IDLField {
    pub id: u32,
    pub val: IDLValue,
}

/// A Candid value. `Int` and `Nat` hold values that fit in 128 bits.
pub enum IDLValue {
    Bool(bool),
    Null,
    Text(String),
    Int(i128),
    Nat(u128),
    Nat8(u8),
    Nat16(u16),
    Nat32(u32),
    Nat64(u64),
    Int8(i8),
    Int16(i16),
    Int32(i32),
    Int64(i64),
    Opt(Box<IDLValue>),
    Vec(Vec<IDLValue>),
    Record(Vec<IDLField>),
    /// The chosen field, and its index among the cases of the variant type.
    Variant(Box<IDLField>, u64),
    Blob(Vec<u8>),
    Principal(Vec<u8>),
    Service(Vec<u8>),
    Func(Vec<u8>, String),
    /// The absent optional value.
    OptNone,
    Reserved,
}

/// The Candid type that a value has on its own: an empty vector is a vector
/// of `empty`, any other vector has the type of its first element; a variant
/// has its one case; services and functions are given without methods or
/// arguments.
pub open spec fn value_type(v: IDLValue) -> IdlType
    decreases v,
{
    match v {
        IDLValue::Bool(_) => IdlType::Bool,
        IDLValue::Null => IdlType::Null,
        IDLValue::Text(_) => IdlType::Text,
        IDLValue::Int(_) => IdlType::Int,
        IDLValue::Nat(_) => IdlType::Nat,
        IDLValue::Nat8(_) => IdlType::Nat8,
        IDLValue::Nat16(_) => IdlType::Nat16,
        IDLValue::Nat32(_) => IdlType::Nat32,
        IDLValue::Nat64(_) => IdlType::Nat64,
        IDLValue::Int8(_) => IdlType::Int8,
        IDLValue::Int16(_) => IdlType::Int16,
        IDLValue::Int32(_) => IdlType::Int32,
        IDLValue::Int64(_) => IdlType::Int64,
        IDLValue::Opt(b) => IdlType::Opt(Box::new(value_type(*b))),
        IDLValue::Vec(vs) => IdlType::Vec(
            Box::new(
                if vs@.len() == 0 {
                    IdlType::Empty
                } else {
                    value_type(vs@[0])
                },
            ),
        ),
        IDLValue::Record(fs) => IdlType::Record(
            Seq::new(
                fs@.len(),
                |i: int|
                    if 0 <= i < fs@.len() {
                        (fs@[i].id, value_type(fs@[i].val))
                    } else {
                        (0u32, IdlType::Null)
                    },
            ),
        ),
        IDLValue::Variant(f, _) => IdlType::Variant(seq![(f.id, value_type(f.val))]),
        IDLValue::Blob(_) => IdlType::Vec(Box::new(IdlType::Nat8)),
        IDLValue::Principal(_) => IdlType::Principal,
        IDLValue::Service(_) => IdlType::Service(Seq::empty()),
        IDLValue::Func(_, _) => IdlType::Func(Seq::empty(), Seq::empty(), Seq::empty()),
        IDLValue::OptNone => IdlType::Opt(Box::new(IdlType::Null)),
        IDLValue::Reserved => IdlType::Reserved,
    }
}

/// The bytes of a value in a message.
pub open spec fn value_encoding(v: IDLValue) -> Seq<u8>
    decreases v,
{
    match v {
        IDLValue::Bool(b) => seq![if b { 1u8 } else { 0u8 }],
        IDLValue::Null => Seq::empty(),
        IDLValue::Text(s) => text_bytes(s@),
        IDLValue::Int(i) => sleb(i as int),
        IDLValue::Nat(n) => uleb(n as nat),
        IDLValue::Nat8(n) => seq![n],
        IDLValue::Nat16(n) => le_bytes(n as nat, 2),
        IDLValue::Nat32(n) => le_bytes(n as nat, 4),
        IDLValue::Nat64(n) => le_bytes(n as nat, 8),
        IDLValue::Int8(i) => seq![twos_complement(i as int, 0x100) as u8],
        IDLValue::Int16(i) => le_bytes(twos_complement(i as int, 0x1_0000), 2),
        IDLValue::Int32(i) => le_bytes(twos_complement(i as int, 0x1_0000_0000), 4),
        IDLValue::Int64(i) => le_bytes(twos_complement(i as int, 0x1_0000_0000_0000_0000), 8),
        IDLValue::Opt(b) => uleb(1) + value_encoding(*b),
        IDLValue::Vec(vs) => uleb(vs@.len()) + values_encoding(vs@),
        IDLValue::Record(fs) => fields_encoding(fs@),
        IDLValue::Variant(f, idx) => uleb(idx as nat) + value_encoding(f.val),
        IDLValue::Blob(b) => uleb(b@.len()) + b@,
        IDLValue::Principal(p) => principal_bytes(p@),
        IDLValue::Service(p) => principal_bytes(p@),
        IDLValue::Func(p, m) => seq![1u8] + principal_bytes(p@) + text_bytes(m@),
        IDLValue::OptNone => uleb(0),
        IDLValue::Reserved => Seq::empty(),
    }
}

impl IDLValue {
    /// The Candid type that this value has on its own.
    pub fn value_ty(&self) -> (r: Type)
        ensures
            r@ == value_type(*self),
        decreases self,
    {
        match self {
            IDLValue::Bool(_) => Type::Bool,
            IDLValue::Null => Type::Null,
            IDLValue::Text(_) => Type::Text,
            IDLValue::Int(_) => Type::Int,
            IDLValue::Nat(_) => Type::Nat,
            IDLValue::Nat8(_) => Type::Nat8,
            IDLValue::Nat16(_) => Type::Nat16,
            IDLValue::Nat32(_) => Type::Nat32,
            IDLValue::Nat64(_) => Type::Nat64,
            IDLValue::Int8(_) => Type::Int8,
            IDLValue::Int16(_) => Type::Int16,
            IDLValue::Int32(_) => Type::Int32,
            IDLValue::Int64(_) => Type::Int64,
            IDLValue::Opt(b) => {
                let r = Type::Opt(Box::new(b.value_ty()));
                assert(r@ == value_type(*self));
                r
            },
            IDLValue::Vec(vs) => {
                if vs.len() == 0 {
                    let e = Type::Empty;
                    assert(e@ == IdlType::Empty);
                    let r = Type::Vec(Box::new(e));
                    assert(r@ == value_type(*self));
                    r
                } else {
                    let r = Type::Vec(Box::new(first_value_type(vs)));
                    assert(r@ == value_type(*self));
                    r
                }
            },
            IDLValue::Record(fs) => {
                let out = field_types(fs);
                let r = Type::Record(out);
                proof {
                    lemma_view_lists(r);
                    assert(value_type(*self)->Record_0 =~= r@->Record_0);
                }
                assert(r@ == value_type(*self));
                r
            },
            IDLValue::Variant(f, _) => {
                let ty = f.val.value_ty();
                let r = Type::Variant(vec![Field { id: f.id, ty }]);
                proof {
                    lemma_view_lists(r);
                    assert(value_type(*self)->Variant_0 =~= r@->Variant_0);
                }
                r
            },
            IDLValue::Blob(_) => {
                let e = Type::Nat8;
                assert(e@ == IdlType::Nat8);
                Type::Vec(Box::new(e))
            },
            IDLValue::Principal(_) => Type::Principal,
            IDLValue::Service(_) => {
                let r = Type::Service(Vec::new());
                proof {
                    lemma_view_lists(r);
                    assert(value_type(*self)->Service_0 =~= r@->Service_0);
                }
                r
            },
            IDLValue::Func(_, _) => {
                let r = Type::Func(Function { modes: Vec::new(), args: Vec::new(), rets: Vec::new() });
                proof {
                    lemma_view_lists(r);
                    assert(value_type(*self)->Func_0 =~= r@->Func_0);
                    assert(value_type(*self)->Func_1 =~= r@->Func_1);
                    assert(value_type(*self)->Func_2 =~= r@->Func_2);
                }
                r
            },
            IDLValue::OptNone => {
                let e = Type::Null;
                assert(e@ == IdlType::Null);
                Type::Opt(Box::new(e))
            },
            IDLValue::Reserved => Type::Reserved,
        }
    }

    /// This value given the type `t` in the environment `env`, as
    /// `annotated_encoding` describes it; the result is written with those
    /// bytes.
    pub fn annotate_type(&self, env: &TypeEnv, t: &Type) -> (r: Result<IDLValue, Error>)
        ensures
            match r {
                Ok(v2) => annotated_encoding(env@, *self, t@) == Ok::<Seq<u8>, Error>(value_encoding(v2)),
                Err(e) => annotated_encoding(env@, *self, t@) == Err::<Seq<u8>, Error>(e),
            },
        decreases self, (if t@ is Var { 1int } else { 0int }),
    {
        if let Type::Var(id) = t {
            let a = match env.rec_find_type(id) {
                Ok(a) => a,
                Err(e) => {
                    return Err(e);
                },
            };
            proof {
                lemma_resolve_not_var(env@, id@, env@.len());
            }
            return self.annotate_type(env, a);
        }
        if let Type::Reserved = t {
            let r = IDLValue::Reserved;
            assert(value_encoding(r) =~= Seq::<u8>::empty());
            return Ok(r);
        }
        proof {
            lemma_view_lists(*t);
            lemma_view_kind(*t);
        }
        match (self, t) {
            (IDLValue::Null, Type::Null) => Ok(IDLValue::Null),
            (IDLValue::Bool(b), Type::Bool) => Ok(IDLValue::Bool(*b)),
            (IDLValue::Nat(n), Type::Nat) => Ok(IDLValue::Nat(*n)),
            (IDLValue::Int(n), Type::Int) => Ok(IDLValue::Int(*n)),
            (IDLValue::Nat8(n), Type::Nat8) => Ok(IDLValue::Nat8(*n)),
            (IDLValue::Nat16(n), Type::Nat16) => Ok(IDLValue::Nat16(*n)),
            (IDLValue::Nat32(n), Type::Nat32) => Ok(IDLValue::Nat32(*n)),
            (IDLValue::Nat64(n), Type::Nat64) => Ok(IDLValue::Nat64(*n)),
            (IDLValue::Int8(n), Type::Int8) => Ok(IDLValue::Int8(*n)),
            (IDLValue::Int16(n), Type::Int16) => Ok(IDLValue::Int16(*n)),
            (IDLValue::Int32(n), Type::Int32) => Ok(IDLValue::Int32(*n)),
            (IDLValue::Int64(n), Type::Int64) => Ok(IDLValue::Int64(*n)),
            (IDLValue::Text(s), Type::Text) => Ok(IDLValue::Text(s.clone())),
            (IDLValue::OptNone, Type::Opt(_)) | (IDLValue::Reserved, Type::Opt(_)) => Ok(IDLValue::OptNone),
            (IDLValue::Opt(x), Type::Opt(ty)) => {
                let y = x.annotate_type(env, ty)?;
                Ok(IDLValue::Opt(Box::new(y)))
            },
            (IDLValue::Blob(b), _) => {
                if is_blob(env, t) {
                    Ok(IDLValue::Blob(clone_bytes(b)))
                } else {
                    Err(Error::TypeMismatch)
                }
            },
            (IDLValue::Vec(vs), Type::Vec(ty)) => {
                let out = annotate_values(vs, env, ty)?;
                Ok(IDLValue::Vec(out))
            },
            (IDLValue::Record(fs), Type::Record(cases)) => {
                let out = annotate_record(fs, env, cases)?;
                Ok(IDLValue::Record(out))
            },
            (IDLValue::Variant(f, _), Type::Variant(cases)) => {
                match find_first_case(cases, f.id) {
                    None => Err(Error::VariantFieldNotFound),
                    Some(i) => {
                        proof {
                            lemma_first_case_in_range(fields_model(cases@), f.id, 0);
                        }
                        assert(fields_model(cases@)[i as int] == (cases@[i as int].id, cases@[i as int].ty@));
                        let val = f.val.annotate_type(env, &cases[i].ty)?;
                        Ok(IDLValue::Variant(Box::new(IDLField { id: cases[i].id, val }), i as u64))
                    },
                }
            },
            (IDLValue::Principal(p), Type::Principal) => Ok(IDLValue::Principal(clone_bytes(p))),
            (IDLValue::Principal(p), Type::Service(_)) => Ok(IDLValue::Service(clone_bytes(p))),
            (IDLValue::Service(p), Type::Service(_)) => Ok(IDLValue::Service(clone_bytes(p))),
            (IDLValue::Func(p, m), Type::Func(_)) => Ok(IDLValue::Func(clone_bytes(p), m.clone())),
            _ => Err(Error::TypeMismatch),
        }
    }

    /// Appends the bytes of this value.
    pub fn idl_serialize(&self, ser: &mut ValueSerializer) -> (r: Result<(), Error>)
        ensures
            r is Ok,
            final(ser)@ == old(ser)@ + value_encoding(*self),
        decreases self,
    {
        match self {
            IDLValue::Bool(b) => {
                ser.serialize_bool(*b)?;
                assert(final(ser)@ =~= old(ser)@ + value_encoding(*self));
                Ok(())
            },
            IDLValue::Null | IDLValue::Reserved => {
                ser.serialize_null(())?;
                assert(final(ser)@ =~= old(ser)@ + value_encoding(*self));
                Ok(())
            },
            IDLValue::Text(s) => ser.serialize_text(s.as_str()),
            IDLValue::Int(i) => ser.serialize_i128(*i),
            IDLValue::Nat(n) => ser.serialize_u128(*n),
            IDLValue::Nat8(n) => {
                ser.serialize_nat8(*n)?;
                assert(final(ser)@ =~= old(ser)@ + value_encoding(*self));
                Ok(())
            },
            IDLValue::Nat16(n) => ser.serialize_nat16(*n),
            IDLValue::Nat32(n) => ser.serialize_nat32(*n),
            IDLValue::Nat64(n) => ser.serialize_nat64(*n),
            IDLValue::Int8(i) => {
                ser.serialize_int8(*i)?;
                assert(final(ser)@ =~= old(ser)@ + value_encoding(*self));
                Ok(())
            },
            IDLValue::Int16(i) => ser.serialize_int16(*i),
            IDLValue::Int32(i) => ser.serialize_int32(*i),
            IDLValue::Int64(i) => ser.serialize_int64(*i),
            IDLValue::Opt(b) => {
                ser.write_leb128(1)?;
                b.idl_serialize(ser)?;
                assert(final(ser)@ =~= old(ser)@ + value_encoding(*self));
                Ok(())
            },
            IDLValue::Vec(vs) => {
                ser.write_leb128(vs.len() as u64)?;
                serialize_values(vs, ser)?;
                assert(final(ser)@ =~= old(ser)@ + value_encoding(*self));
                Ok(())
            },
            IDLValue::Record(fs) => {
                serialize_fields(fs, ser)?;
                assert(final(ser)@ =~= old(ser)@ + value_encoding(*self));
                Ok(())
            },
            IDLValue::Variant(f, idx) => {
                ser.write_leb128(*idx)?;
                f.val.idl_serialize(ser)?;
                assert(final(ser)@ =~= old(ser)@ + value_encoding(*self));
                Ok(())
            },
            IDLValue::Blob(b) => ser.serialize_blob(b.as_slice()),
            IDLValue::Principal(p) | IDLValue::Service(p) => ser.serialize_principal(p.as_slice()),
            IDLValue::Func(p, m) => {
                ser.serialize_function(p.as_slice(), m.as_str())?;
                assert(final(ser)@ =~= old(ser)@ + value_encoding(*self));
                Ok(())
            },
            IDLValue::OptNone => ser.write_leb128(0),
        }
    }
}

/// Whether `t` is a vector of bytes.
fn is_blob(env: &TypeEnv, t: &Type) -> (r: bool)
    ensures
        r == is_blob_type(env@, t@),
{
    let nat8 = Type::Nat8;
    assert(nat8@ == IdlType::Nat8);
    proof {
        lemma_view_kind(*t);
    }
    match t {
        Type::Vec(e) => {
            proof {
                lemma_view_kind(**e);
            }
            if let Type::Var(id) = &**e {
                match env.rec_find_type(id) {
                    Ok(x) => x.eq_type(&nat8),
                    Err(_) => false,
                }
            } else {
                e.eq_type(&nat8)
            }
        },
        _ => false,
    }
}

/// The index of the last field with label `id`.
fn find_last_field(fs: &Vec<IDLField>, id: u32) -> (r: Option<usize>)
    ensures
        match r {
            Some(k) => last_field_with(fs@, id) == Some(k as int),
            None => last_field_with(fs@, id) is None,
        },
        r matches Some(k) ==> k < fs@.len() && fs@[k as int].id == id,
{
    proof {
        lemma_last_field_in_range(fs@, id);
    }
    let mut i: usize = fs.len();
    assert(fs@.take(i as int) =~= fs@);
    while i > 0
        invariant
            i <= fs@.len(),
            last_field_with(fs@, id) == last_field_with(fs@.take(i as int), id),
        decreases i,
    {
        assert(fs@.take(i as int).drop_last() =~= fs@.take(i - 1));
        if fs[i - 1].id == id {
            return Some(i - 1);
        }
        i = i - 1;
    }
    None
}

/// The index of the first case with label `id`.
fn find_first_case(cases: &Vec<Field>, id: u32) -> (r: Option<usize>)
    ensures
        match r {
            Some(k) => first_case_with(fields_model(cases@), id, 0) == Some(k as int),
            None => first_case_with(fields_model(cases@), id, 0) is None,
        },
        r matches Some(k) ==> k < cases@.len(),
{
    let ghost cv = fields_model(cases@);
    let mut i: usize = 0;
    while i < cases.len()
        invariant
            i <= cases@.len(),
            cv == fields_model(cases@),
            first_case_with(cv, id, 0) == first_case_with(cv, id, i as nat),
        decreases cases@.len() - i,
    {
        if cases[i].id == id {
            return Some(i);
        }
        i = i + 1;
    }
    None
}

/// `t` with a variable looked up in `env`.
fn resolve_type<'a>(env: &'a TypeEnv, t: &'a Type) -> (r: Result<&'a Type, Error>)
    ensures
        match r {
            Ok(a) => resolved(env@, t@) == Ok::<IdlType, Error>(a@),
            Err(e) => resolved(env@, t@) == Err::<IdlType, Error>(e),
        },
{
    proof {
        lemma_view_kind(*t);
    }
    match t {
        Type::Var(id) => env.rec_find_type(id),
        _ => Ok(t),
    }
}

/// Whether a type is an option type.
fn is_opt_type(t: &Type) -> (r: bool)
    ensures
        r == (t@ is Opt),
{
    match t {
        Type::Opt(_) => true,
        _ => false,
    }
}

/// Whether a type is `reserved`.
fn is_reserved_type(t: &Type) -> (r: bool)
    ensures
        r == (t@ is Reserved),
{
    match t {
        Type::Reserved => true,
        _ => false,
    }
}

pub proof fn lemma_first_case_in_range(cases: Seq<(u32, IdlType)>, id: u32, i: nat)
    ensures
        first_case_with(cases, id, i) matches Some(k) ==> i <= k < cases.len() && cases[k].0 == id,
    decreases cases.len() - i,
{
    if i < cases.len() && cases[i as int].0 != id {
        lemma_first_case_in_range(cases, id, i + 1);
    }
}

fn annotate_values(vs: &Vec<IDLValue>, env: &TypeEnv, ty: &Type) -> (r: Result<Vec<IDLValue>, Error>)
    ensures
        match r {
            Ok(out) => values_annotated(env@, vs@, ty@) == Ok::<Seq<u8>, Error>(values_encoding(out@)) && out@.len() == vs@.len(),
            Err(e) => values_annotated(env@, vs@, ty@) == Err::<Seq<u8>, Error>(e),
        },
    decreases vs, 0int,
{
    let mut out: Vec<IDLValue> = Vec::new();
    let mut i: usize = 0;
    assert(vs@.take(0) =~= Seq::<IDLValue>::empty());
    while i < vs.len()
        invariant
            i <= vs@.len(),
            out@.len() == i,
            values_annotated(env@, vs@.take(i as int), ty@) == Ok::<Seq<u8>, Error>(values_encoding(out@)),
        decreases vs@.len() - i,
    {
        proof {
            assert(decreases_to!(vs => vs@[i as int]));
            assert(vs@.take(i + 1).drop_last() =~= vs@.take(i as int));
        }
        match vs[i].annotate_type(env, ty) {
            Err(e) => {
                proof {
                    lemma_values_annotated_prefix(env@, vs@, ty@, i + 1);
                }
                return Err(e);
            },
            Ok(x) => {
                let ghost before = out@;
                out.push(x);
                assert(out@.drop_last() =~= before);
            },
        }
        i = i + 1;
    }
    assert(vs@.take(i as int) =~= vs@);
    Ok(out)
}

fn annotate_record(fs: &Vec<IDLField>, env: &TypeEnv, cases: &Vec<Field>) -> (r: Result<Vec<IDLField>, Error>)
    ensures
        match r {
            Ok(out) => record_annotated(env@, fs@, fields_model(cases@)) == Ok::<Seq<u8>, Error>(fields_encoding(out@)),
            Err(e) => record_annotated(env@, fs@, fields_model(cases@)) == Err::<Seq<u8>, Error>(e),
        },
    decreases fs, cases@.len(),
{
    let ghost cv = fields_model(cases@);
    let mut out: Vec<IDLField> = Vec::new();
    let mut i: usize = 0;
    assert(cv.take(0) =~= Seq::<(u32, IdlType)>::empty());
    while i < cases.len()
        invariant
            i <= cases@.len(),
            cv == fields_model(cases@),
            record_annotated(env@, fs@, cv.take(i as int)) == Ok::<Seq<u8>, Error>(fields_encoding(out@)),
        decreases cases@.len() - i,
    {
        assert(cv.take(i + 1).drop_last() =~= cv.take(i as int));
        assert(cv.take(i + 1).last() == (cases@[i as int].id, cases@[i as int].ty@));
        let ghost before = out@;
        let id = cases[i].id;
        match find_last_field(fs, id) {
            Some(k) => {
                proof {
                    assert(decreases_to!(fs => fs@[k as int]));
                    lemma_last_field_in_range(fs@, id);
                }
                assert(last_field_with(fs@, id) == Some(k as int));
                assert(record_annotated(env@, fs@, cv.take(i + 1)) == match record_annotated(env@, fs@, cv.take(i as int)) {
                    Err(e) => Err(e),
                    Ok(b) => match annotated_encoding(env@, fs@[k as int].val, cases@[i as int].ty@) {
                        Err(e) => Err(e),
                        Ok(x) => Ok(b + x),
                    },
                });
                match fs[k].val.annotate_type(env, &cases[i].ty) {
                    Err(e) => {
                        proof {
                            lemma_record_annotated_prefix(env@, fs@, cv, i + 1);
                        }
                        return Err(e);
                    },
                    Ok(x) => {
                        out.push(IDLField { id, val: x });
                        assert(out@.drop_last() =~= before);
                        assert(record_annotated(env@, fs@, cv.take(i + 1)) == Ok::<Seq<u8>, Error>(fields_encoding(out@)));
                    },
                }
            },
            None => {
                let a = match resolve_type(env, &cases[i].ty) {
                    Ok(a) => a,
                    Err(e) => {
                        proof {
                            lemma_record_annotated_prefix(env@, fs@, cv, i + 1);
                        }
                        return Err(e);
                    },
                };
                assert(record_annotated(env@, fs@, cv.take(i + 1)) == match record_annotated(env@, fs@, cv.take(i as int)) {
                    Err(e) => Err(e),
                    Ok(b) => match a@ {
                        IdlType::Opt(_) => Ok(b + uleb(0)),
                        IdlType::Reserved => Ok(b),
                        _ => Err(Error::MissingField),
                    },
                });
                if is_opt_type(a) {
                    out.push(IDLField { id, val: IDLValue::OptNone });
                    assert(out@.drop_last() =~= before);
                    assert(value_encoding(IDLValue::OptNone) == uleb(0));
                    assert(fields_encoding(out@) == fields_encoding(before) + uleb(0));
                } else if is_reserved_type(a) {
                    out.push(IDLField { id, val: IDLValue::Reserved });
                    assert(value_encoding(IDLValue::Reserved) =~= Seq::<u8>::empty());
                    assert(out@.drop_last() =~= before);
                    assert(fields_encoding(out@) =~= fields_encoding(before));
                } else {
                    proof {
                        lemma_record_annotated_prefix(env@, fs@, cv, i + 1);
                    }
                    return Err(Error::MissingField);
                }
            },
        }
        assert(out@.drop_last() =~= before);
        i = i + 1;
    }
    assert(cv.take(i as int) =~= cv);
    Ok(out)
}

fn first_value_type(vs: &Vec<IDLValue>) -> (r: Type)
    requires
        vs@.len() > 0,
    ensures
        r@ == value_type(vs@[0]),
    decreases vs,
{
    proof {
        assert(decreases_to!(vs => vs@[0]));
    }
    vs[0].value_ty()
}

fn field_types(fs: &Vec<IDLField>) -> (r: Vec<Field>)
    ensures
        r@.len() == fs@.len(),
        forall|j: int| #![trigger r@[j]] 0 <= j < fs@.len() ==> r@[j].id == fs@[j].id && r@[j].ty@ == value_type(fs@[j].val),
    decreases fs,
{
    let mut out: Vec<Field> = Vec::new();
    let mut i: usize = 0;
    while i < fs.len()
        invariant
            i <= fs@.len(),
            out@.len() == i,
            forall|j: int| #![trigger out@[j]] 0 <= j < i ==> out@[j].id == fs@[j].id && out@[j].ty@ == value_type(fs@[j].val),
        decreases fs@.len() - i,
    {
        proof {
            assert(decreases_to!(fs => fs@[i as int]));
        }
        let ty = fs[i].val.value_ty();
        out.push(Field { id: fs[i].id, ty });
        i = i + 1;
    }
    out
}

fn serialize_values(vs: &Vec<IDLValue>, ser: &mut ValueSerializer) -> (r: Result<(), Error>)
    ensures
        r is Ok,
        final(ser)@ == old(ser)@ + values_encoding(vs@),
    decreases vs,
{
    let mut i: usize = 0;
    assert(vs@.take(0) =~= Seq::<IDLValue>::empty());
    while i < vs.len()
        invariant
            i <= vs@.len(),
            ser@ == old(ser)@ + values_encoding(vs@.take(i as int)),
        decreases vs@.len() - i,
    {
        proof {
            assert(decreases_to!(vs => vs@[i as int]));
            assert(vs@.take(i + 1).drop_last() =~= vs@.take(i as int));
        }
        vs[i].idl_serialize(ser)?;
        i = i + 1;
    }
    assert(vs@.take(i as int) =~= vs@);
    Ok(())
}

fn serialize_fields(fs: &Vec<IDLField>, ser: &mut ValueSerializer) -> (r: Result<(), Error>)
    ensures
        r is Ok,
        final(ser)@ == old(ser)@ + fields_encoding(fs@),
    decreases fs,
{
    let mut i: usize = 0;
    assert(fs@.take(0) =~= Seq::<IDLField>::empty());
    while i < fs.len()
        invariant
            i <= fs@.len(),
            ser@ == old(ser)@ + fields_encoding(fs@.take(i as int)),
        decreases fs@.len() - i,
    {
        proof {
            assert(decreases_to!(fs => fs@[i as int]));
            assert(fs@.take(i + 1).drop_last() =~= fs@.take(i as int));
        }
        fs[i].val.idl_serialize(ser)?;
        i = i + 1;
    }
    assert(fs@.take(i as int) =~= fs@);
    Ok(())
}

/// The numbers below each width, for the little-endian laws.
proof fn lemma_le_widths()
    ensures
        vstd::arithmetic::power::pow(256, 2) == 0x1_0000,
        vstd::arithmetic::power::pow(256, 4) == 0x1_0000_0000,
        vstd::arithmetic::power::pow(256, 8) == 0x1_0000_0000_0000_0000,
{
    reveal_with_fuel(vstd::arithmetic::power::pow, 9);
}

/// The bytes of each kind of primitive value read back as the value: `nat`
/// as unsigned and `int` as signed LEB128 in shortest form, the fixed-width
/// numbers as little-endian bytes of their width (two's complement for the
/// signed ones), a boolean as one byte 0 or 1, a text as its length in bytes
/// then its UTF-8 bytes; `null` and `reserved` have no bytes, and an absent
/// optional value is the number 0.
pub proof fn law_value_bytes(v: IDLValue)
    ensures
        v matches IDLValue::Nat(n) ==> uleb_reads(value_encoding(v), n as nat),
        v matches IDLValue::Int(i) ==> sleb_reads(value_encoding(v), i as int),
        v matches IDLValue::Bool(b) ==> value_encoding(v) == seq![if b { 1u8 } else { 0u8 }],
        v matches IDLValue::Nat8(n) ==> value_encoding(v) == seq![n],
        v matches IDLValue::Nat16(n) ==> value_encoding(v).len() == 2 && le_decode(value_encoding(v)) == n,
        v matches IDLValue::Nat32(n) ==> value_encoding(v).len() == 4 && le_decode(value_encoding(v)) == n,
        v matches IDLValue::Nat64(n) ==> value_encoding(v).len() == 8 && le_decode(value_encoding(v)) == n,
        v matches IDLValue::Int8(i) ==> value_encoding(v).len() == 1
            && value_encoding(v)[0] as int == (if i < 0 { i + 0x100 } else { i as int }),
        v matches IDLValue::Int16(i) ==> value_encoding(v).len() == 2
            && le_decode(value_encoding(v)) == (if i < 0 { i + 0x1_0000 } else { i as int }),
        v matches IDLValue::Int32(i) ==> value_encoding(v).len() == 4
            && le_decode(value_encoding(v)) == (if i < 0 { i + 0x1_0000_0000 } else { i as int }),
        v matches IDLValue::Int64(i) ==> value_encoding(v).len() == 8
            && le_decode(value_encoding(v)) == (if i < 0 { i + 0x1_0000_0000_0000_0000 } else { i as int }),
        v matches IDLValue::Text(s) ==> exists|l: Seq<u8>|
            #[trigger] uleb_reads(l, encode_utf8(s@).len()) && value_encoding(v) == l + encode_utf8(s@),
        v is Null ==> value_encoding(v) == Seq::<u8>::empty(),
        v is Reserved ==> value_encoding(v) == Seq::<u8>::empty(),
        v is OptNone ==> uleb_reads(value_encoding(v), 0),
{
    lemma_le_widths();
    match v {
        IDLValue::Nat(n) => {
            law_uleb_reads(n as nat);
        },
        IDLValue::Int(i) => {
            law_sleb_reads(i as int);
        },
        IDLValue::Nat16(n) => {
            law_le_roundtrip(n as nat, 2);
        },
        IDLValue::Nat32(n) => {
            law_le_roundtrip(n as nat, 4);
        },
        IDLValue::Nat64(n) => {
            law_le_roundtrip(n as nat, 8);
        },
        IDLValue::Int16(i) => {
            law_le_roundtrip(twos_complement(i as int, 0x1_0000), 2);
        },
        IDLValue::Int32(i) => {
            law_le_roundtrip(twos_complement(i as int, 0x1_0000_0000), 4);
        },
        IDLValue::Int64(i) => {
            law_le_roundtrip(twos_complement(i as int, 0x1_0000_0000_0000_0000), 8);
        },
        IDLValue::Text(s) => {
            law_uleb_reads(encode_utf8(s@).len());
            assert(uleb_reads(uleb(encode_utf8(s@).len()), encode_utf8(s@).len()));
        },
        IDLValue::OptNone => {
            law_uleb_reads(0);
        },
        _ => {},
    }
}

/// A value sent at the primitive type it has on its own is written as on its
/// own: giving it that type changes none of its bytes.
pub proof fn law_annotate_own_type(env: Seq<(Seq<u8>, IdlType)>, v: IDLValue)
    requires
        is_primitive(value_type(v)),
    ensures
        annotated_encoding(env, v, value_type(v)) == Ok::<Seq<u8>, Error>(value_encoding(v)),
{
}

/// A Rust number, boolean or string has the Candid type and the bytes of the
/// Candid value that holds it.
pub proof fn law_rust_values_agree(
    b: bool,
    n8: u8,
    n16: u16,
    n32: u32,
    n64: u64,
    n: u128,
    i8v: i8,
    i16v: i16,
    i32v: i32,
    i64v: i64,
    i: i128,
    s: String,
)
    ensures
        <bool as CandidType>::candid_type() == value_type(IDLValue::Bool(b)),
        b.encoding() == Ok::<Seq<u8>, Error>(value_encoding(IDLValue::Bool(b))),
        <u8 as CandidType>::candid_type() == value_type(IDLValue::Nat8(n8)),
        n8.encoding() == Ok::<Seq<u8>, Error>(value_encoding(IDLValue::Nat8(n8))),
        <u16 as CandidType>::candid_type() == value_type(IDLValue::Nat16(n16)),
        n16.encoding() == Ok::<Seq<u8>, Error>(value_encoding(IDLValue::Nat16(n16))),
        <u32 as CandidType>::candid_type() == value_type(IDLValue::Nat32(n32)),
        n32.encoding() == Ok::<Seq<u8>, Error>(value_encoding(IDLValue::Nat32(n32))),
        <u64 as CandidType>::candid_type() == value_type(IDLValue::Nat64(n64)),
        n64.encoding() == Ok::<Seq<u8>, Error>(value_encoding(IDLValue::Nat64(n64))),
        <u128 as CandidType>::candid_type() == value_type(IDLValue::Nat(n)),
        n.encoding() == Ok::<Seq<u8>, Error>(value_encoding(IDLValue::Nat(n))),
        <i8 as CandidType>::candid_type() == value_type(IDLValue::Int8(i8v)),
        i8v.encoding() == Ok::<Seq<u8>, Error>(value_encoding(IDLValue::Int8(i8v))),
        <i16 as CandidType>::candid_type() == value_type(IDLValue::Int16(i16v)),
        i16v.encoding() == Ok::<Seq<u8>, Error>(value_encoding(IDLValue::Int16(i16v))),
        <i32 as CandidType>::candid_type() == value_type(IDLValue::Int32(i32v)),
        i32v.encoding() == Ok::<Seq<u8>, Error>(value_encoding(IDLValue::Int32(i32v))),
        <i64 as CandidType>::candid_type() == value_type(IDLValue::Int64(i64v)),
        i64v.encoding() == Ok::<Seq<u8>, Error>(value_encoding(IDLValue::Int64(i64v))),
        <i128 as CandidType>::candid_type() == value_type(IDLValue::Int(i)),
        i.encoding() == Ok::<Seq<u8>, Error>(value_encoding(IDLValue::Int(i))),
        <String as CandidType>::candid_type() == value_type(IDLValue::Text(s)),
        s.encoding() == Ok::<Seq<u8>, Error>(value_encoding(IDLValue::Text(s))),
        <() as CandidType>::candid_type() == value_type(IDLValue::Null),
        ().encoding() == Ok::<Seq<u8>, Error>(value_encoding(IDLValue::Null)),
{
}

/// The index of the last field of a record value with label `id`.
pub open spec fn last_field_with(fs: Seq<IDLField>, id: u32) -> Option<int>
    decreases fs.len(),
{
    if fs.len() == 0 {
        None
    } else if fs.last().id == id {
        Some(fs.len() - 1)
    } else {
        last_field_with(fs.drop_last(), id)
    }
}

/// The index of the first case of a variant type with label `id`, from the
/// `i`-th on.
pub open spec fn first_case_with(cases: Seq<(u32, IdlType)>, id: u32, i: nat) -> Option<int>
    decreases cases.len() - i,
{
    if i >= cases.len() {
        None
    } else if cases[i as int].0 == id {
        Some(i as int)
    } else {
        first_case_with(cases, id, i + 1)
    }
}

/// Whether `t` is a vector of bytes, looking through a variable for the
/// element type.
pub open spec fn is_blob_type(env: Seq<(Seq<u8>, IdlType)>, t: IdlType) -> bool {
    match t {
        IdlType::Vec(e) => match *e {
            IdlType::Nat8 => true,
            IdlType::Var(id) => rec_find(env, id) == Ok::<IdlType, Error>(IdlType::Nat8),
            _ => false,
        },
        _ => false,
    }
}

/// The bytes of `v` once given the type `t`: variables in `t` are looked up;
/// a value matches a type of its own kind; anything has the type `reserved`
/// (and then no bytes); an absent optional value, or `reserved`, has any
/// optional type; a blob has any type of vectors of bytes; a principal has
/// any service type; a record is written field by field in the order of the
/// record type, taking for each label the last field of the value with that
/// label, `null` of an optional type or nothing of `reserved` (a variable
/// looked up first) where there is none; a variant is written with the index of its case among the cases of
/// the variant type.
pub open spec fn annotated_encoding(env: Seq<(Seq<u8>, IdlType)>, v: IDLValue, t: IdlType) -> Result<Seq<u8>, Error>
    decreases v, (if t is Var { 1int } else { 0int }),
{
    match t {
        IdlType::Var(id) => match rec_find(env, id) {
            Err(e) => Err(e),
            Ok(a) => {
                proof {
                    lemma_resolve_not_var(env, id, env.len());
                }
                annotated_encoding(env, v, a)
            },
        },
        IdlType::Reserved => Ok(Seq::empty()),
        _ => match (v, t) {
            (IDLValue::Null, IdlType::Null) => Ok(value_encoding(v)),
            (IDLValue::Bool(_), IdlType::Bool) => Ok(value_encoding(v)),
            (IDLValue::Nat(_), IdlType::Nat) => Ok(value_encoding(v)),
            (IDLValue::Int(_), IdlType::Int) => Ok(value_encoding(v)),
            (IDLValue::Nat8(_), IdlType::Nat8) => Ok(value_encoding(v)),
            (IDLValue::Nat16(_), IdlType::Nat16) => Ok(value_encoding(v)),
            (IDLValue::Nat32(_), IdlType::Nat32) => Ok(value_encoding(v)),
            (IDLValue::Nat64(_), IdlType::Nat64) => Ok(value_encoding(v)),
            (IDLValue::Int8(_), IdlType::Int8) => Ok(value_encoding(v)),
            (IDLValue::Int16(_), IdlType::Int16) => Ok(value_encoding(v)),
            (IDLValue::Int32(_), IdlType::Int32) => Ok(value_encoding(v)),
            (IDLValue::Int64(_), IdlType::Int64) => Ok(value_encoding(v)),
            (IDLValue::Text(_), IdlType::Text) => Ok(value_encoding(v)),
            (IDLValue::OptNone, IdlType::Opt(_)) => Ok(uleb(0)),
            (IDLValue::Reserved, IdlType::Opt(_)) => Ok(uleb(0)),
            (IDLValue::Opt(x), IdlType::Opt(ty)) => match annotated_encoding(env, *x, *ty) {
                Err(e) => Err(e),
                Ok(b) => Ok(uleb(1) + b),
            },
            (IDLValue::Blob(b), _) => if is_blob_type(env, t) {
                Ok(value_encoding(v))
            } else {
                Err(Error::TypeMismatch)
            },
            (IDLValue::Vec(vs), IdlType::Vec(ty)) => match values_annotated(env, vs@, *ty) {
                Err(e) => Err(e),
                Ok(b) => Ok(uleb(vs@.len()) + b),
            },
            (IDLValue::Record(fs), IdlType::Record(cases)) => record_annotated(env, fs@, cases),
            (IDLValue::Variant(f, _), IdlType::Variant(cases)) => match first_case_with(cases, f.id, 0) {
                None => Err(Error::VariantFieldNotFound),
                Some(i) => match annotated_encoding(env, f.val, cases[i].1) {
                    Err(e) => Err(e),
                    Ok(b) => Ok(uleb(i as nat) + b),
                },
            },
            (IDLValue::Principal(_), IdlType::Principal) => Ok(value_encoding(v)),
            (IDLValue::Principal(_), IdlType::Service(_)) => Ok(value_encoding(v)),
            (IDLValue::Service(_), IdlType::Service(_)) => Ok(value_encoding(v)),
            (IDLValue::Func(_, _), IdlType::Func(_, _, _)) => Ok(value_encoding(v)),
            _ => Err(Error::TypeMismatch),
        },
    }
}

/// The bytes of the elements of a vector value, each given the type `ty`.
pub open spec fn values_annotated(env: Seq<(Seq<u8>, IdlType)>, vs: Seq<IDLValue>, ty: IdlType) -> Result<Seq<u8>, Error>
    decreases vs, 0int,
{
    if vs.len() == 0 {
        Ok(Seq::empty())
    } else {
        match values_annotated(env, vs.drop_last(), ty) {
            Err(e) => Err(e),
            Ok(b) => match annotated_encoding(env, vs.last(), ty) {
                Err(e) => Err(e),
                Ok(x) => Ok(b + x),
            },
        }
    }
}

/// A type with a variable looked up in `env`.
pub open spec fn resolved(env: Seq<(Seq<u8>, IdlType)>, t: IdlType) -> Result<IdlType, Error> {
    match t {
        IdlType::Var(id) => rec_find(env, id),
        _ => Ok(t),
    }
}

/// The bytes of a record value given the record type with fields `cases`.
pub open spec fn record_annotated(env: Seq<(Seq<u8>, IdlType)>, fs: Seq<IDLField>, cases: Seq<(u32, IdlType)>) -> Result<Seq<u8>, Error>
    decreases fs, cases.len(),
{
    if cases.len() == 0 {
        Ok(Seq::empty())
    } else {
        match record_annotated(env, fs, cases.drop_last()) {
            Err(e) => Err(e),
            Ok(b) => {
                let (id, ty) = cases.last();
                match last_field_with(fs, id) {
                    Some(k) => {
                        proof {
                            lemma_last_field_in_range(fs, id);
                        }
                        match annotated_encoding(env, fs[k].val, ty) {
                            Err(e) => Err(e),
                            Ok(x) => Ok(b + x),
                        }
                    },
                    None => match resolved(env, ty) {
                        Err(e) => Err(e),
                        Ok(IdlType::Opt(_)) => Ok(b + uleb(0)),
                        Ok(IdlType::Reserved) => Ok(b),
                        Ok(_) => Err(Error::MissingField),
                    },
                }
            },
        }
    }
}

pub proof fn lemma_values_annotated_prefix(env: Seq<(Seq<u8>, IdlType)>, vs: Seq<IDLValue>, ty: IdlType, i: int)
    requires
        0 <= i <= vs.len(),
        values_annotated(env, vs.take(i), ty) is Err,
    ensures
        values_annotated(env, vs, ty) == values_annotated(env, vs.take(i), ty),
    decreases vs.len(),
{
    if i == vs.len() {
        assert(vs.take(i) =~= vs);
    } else {
        assert(vs.drop_last().take(i) =~= vs.take(i));
        lemma_values_annotated_prefix(env, vs.drop_last(), ty, i);
    }
}

pub proof fn lemma_record_annotated_prefix(env: Seq<(Seq<u8>, IdlType)>, fs: Seq<IDLField>, cases: Seq<(u32, IdlType)>, i: int)
    requires
        0 <= i <= cases.len(),
        record_annotated(env, fs, cases.take(i)) is Err,
    ensures
        record_annotated(env, fs, cases) == record_annotated(env, fs, cases.take(i)),
    decreases cases.len(),
{
    if i == cases.len() {
        assert(cases.take(i) =~= cases);
    } else {
        assert(cases.drop_last().take(i) =~= cases.take(i));
        lemma_record_annotated_prefix(env, fs, cases.drop_last(), i);
    }
}

pub proof fn lemma_last_field_in_range(fs: Seq<IDLField>, id: u32)
    ensures
        last_field_with(fs, id) matches Some(k) ==> 0 <= k < fs.len() && fs[k].id == id,
    decreases fs.len(),
{
    if fs.len() > 0 && fs.last().id != id {
        lemma_last_field_in_range(fs.drop_last(), id);
    }
}

/// The bytes of a list of values, one after the other.
pub open spec fn values_encoding(vs: Seq<IDLValue>) -> Seq<u8>
    decreases vs,
{
    if vs.len() == 0 {
        Seq::empty()
    } else {
        values_encoding(vs.drop_last()) + value_encoding(vs.last())
    }
}

/// The bytes of the values of a list of fields, one after the other.
pub open spec fn fields_encoding(fs: Seq<IDLField>) -> Seq<u8>
    decreases fs,
{
    if fs.len() == 0 {
        Seq::empty()
    } else {
        fields_encoding(fs.drop_last()) + value_encoding(fs.last().val)
    }
}

} // verus!
