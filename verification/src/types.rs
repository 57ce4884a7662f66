//! The Candid type language: executable types, their mathematical model, and
//! the environment that binds type variables.
use crate::error::Error;
use vstd::prelude::*;

verus! {

/// The annotations of a function type.
#[derive(Clone, Copy, Debug, PartialEq, Eq)]
pub enum FuncMode {
    Query,
    Oneway,
    CompositeQuery,
}

/// A field of a record or variant type: its numeric label and its type.
pub struct Field {
    pub id: u32,
    pub ty: Type,
}

/// A function type.
pub struct Function {
    pub modes: Vec<FuncMode>,
    pub args: Vec<Type>,
    pub rets: Vec<Type>,
}

/// A Candid type. Type variables and service method names are held as the
/// UTF-8 bytes of their names.
pub enum Type {
    Null,
    Bool,
    Nat,
    Int,
    Nat8,
    Nat16,
    Nat32,
    Nat64,
    Int8,
    Int16,
    Int32,
    Int64,
    Float32,
    Float64,
    Text,
    Reserved,
    Empty,
    Principal,
    Var(Vec<u8>),
    Opt(Box<Type>),
    Vec(Box<Type>),
    Record(Vec<Field>),
    Variant(Vec<Field>),
    Func(Function),
    Service(Vec<(Vec<u8>, Type)>),
}

/// The mathematical model of a [`Type`].
pub enum IdlType {
    Null,
    Bool,
    Nat,
    Int,
    Nat8,
    Nat16,
    Nat32,
    Nat64,
    Int8,
    Int16,
    Int32,
    Int64,
    Float32,
    Float64,
    Text,
    Reserved,
    Empty,
    Principal,
    Var(Seq<u8>),
    Opt(Box<IdlType>),
    Vec(Box<IdlType>),
    Record(Seq<(u32, IdlType)>),
    Variant(Seq<(u32, IdlType)>),
    Func(Seq<FuncMode>, Seq<IdlType>, Seq<IdlType>),
    Service(Seq<(Seq<u8>, IdlType)>),
}

pub open spec fn type_view(t: Type) -> IdlType
    decreases t,
{
    match t {
        Type::Null => IdlType::Null,
        Type::Bool => IdlType::Bool,
        Type::Nat => IdlType::Nat,
        Type::Int => IdlType::Int,
        Type::Nat8 => IdlType::Nat8,
        Type::Nat16 => IdlType::Nat16,
        Type::Nat32 => IdlType::Nat32,
        Type::Nat64 => IdlType::Nat64,
        Type::Int8 => IdlType::Int8,
        Type::Int16 => IdlType::Int16,
        Type::Int32 => IdlType::Int32,
        Type::Int64 => IdlType::Int64,
        Type::Float32 => IdlType::Float32,
        Type::Float64 => IdlType::Float64,
        Type::Text => IdlType::Text,
        Type::Reserved => IdlType::Reserved,
        Type::Empty => IdlType::Empty,
        Type::Principal => IdlType::Principal,
        Type::Var(n) => IdlType::Var(n@),
        Type::Opt(b) => IdlType::Opt(Box::new(type_view(*b))),
        Type::Vec(b) => IdlType::Vec(Box::new(type_view(*b))),
        Type::Record(fs) => IdlType::Record(
            Seq::new(
                fs@.len(),
                |i: int|
                    if 0 <= i < fs@.len() {
                        (fs@[i].id, type_view(fs@[i].ty))
                    } else {
                        (0u32, IdlType::Null)
                    },
            ),
        ),
        Type::Variant(fs) => IdlType::Variant(
            Seq::new(
                fs@.len(),
                |i: int|
                    if 0 <= i < fs@.len() {
                        (fs@[i].id, type_view(fs@[i].ty))
                    } else {
                        (0u32, IdlType::Null)
                    },
            ),
        ),
        Type::Func(f) => IdlType::Func(
            f.modes@,
            Seq::new(
                f.args@.len(),
                |i: int|
                    if 0 <= i < f.args@.len() {
                        type_view(f.args@[i])
                    } else {
                        IdlType::Null
                    },
            ),
            Seq::new(
                f.rets@.len(),
                |i: int|
                    if 0 <= i < f.rets@.len() {
                        type_view(f.rets@[i])
                    } else {
                        IdlType::Null
                    },
            ),
        ),
        Type::Service(ms) => IdlType::Service(
            Seq::new(
                ms@.len(),
                |i: int|
                    if 0 <= i < ms@.len() {
                        (ms@[i].0@, type_view(ms@[i].1))
                    } else {
                        (Seq::empty(), IdlType::Null)
                    },
            ),
        ),
    }
}

/// The models of a list of fields.
pub open spec fn fields_model(fs: Seq<Field>) -> Seq<(u32, IdlType)> {
    fs.map_values(|f: Field| (f.id, f.ty@))
}

/// The models of a list of types.
pub open spec fn types_model(ts: Seq<Type>) -> Seq<IdlType> {
    ts.map_values(|t: Type| t@)
}

/// The models of a list of service methods.
pub open spec fn methods_model(ms: Seq<(Vec<u8>, Type)>) -> Seq<(Seq<u8>, IdlType)> {
    ms.map_values(|m: (Vec<u8>, Type)| (m.0@, m.1@))
}

/// A type and its model are of the same kind.
pub proof fn lemma_view_kind(t: Type)
    ensures
        (t@ is Var) == (t is Var),
        (t@ is Opt) == (t is Opt),
        (t@ is Vec) == (t is Vec),
        (t@ is Record) == (t is Record),
        (t@ is Variant) == (t is Variant),
        (t@ is Func) == (t is Func),
        (t@ is Service) == (t is Service),
        (t@ is Reserved) == (t is Reserved),
        (t@ is Principal) == (t is Principal),
        (t@ is Null) == (t is Null),
        (t@ is Bool) == (t is Bool),
        (t@ is Nat) == (t is Nat),
        (t@ is Int) == (t is Int),
        (t@ is Nat8) == (t is Nat8),
        (t@ is Nat16) == (t is Nat16),
        (t@ is Nat32) == (t is Nat32),
        (t@ is Nat64) == (t is Nat64),
        (t@ is Int8) == (t is Int8),
        (t@ is Int16) == (t is Int16),
        (t@ is Int32) == (t is Int32),
        (t@ is Int64) == (t is Int64),
        (t@ is Text) == (t is Text),
        (t@ is Empty) == (t is Empty),
        (t@ is Float32) == (t is Float32),
        (t@ is Float64) == (t is Float64),
{
}

/// The model of a composite type, by its lists of components.
pub proof fn lemma_view_lists(t: Type)
    ensures
        t matches Type::Record(fs) ==> t@ == IdlType::Record(fields_model(fs@)),
        t matches Type::Variant(fs) ==> t@ == IdlType::Variant(fields_model(fs@)),
        t matches Type::Service(ms) ==> t@ == IdlType::Service(methods_model(ms@)),
        t matches Type::Func(f) ==> t@ == IdlType::Func(f.modes@, types_model(f.args@), types_model(f.rets@)),
{
    match t {
        Type::Record(fs) => {
            assert(t@->Record_0 =~= fields_model(fs@));
        },
        Type::Variant(fs) => {
            assert(t@->Variant_0 =~= fields_model(fs@));
        },
        Type::Service(ms) => {
            assert(t@->Service_0 =~= methods_model(ms@));
        },
        Type::Func(f) => {
            assert(t@->Func_1 =~= types_model(f.args@));
            assert(t@->Func_2 =~= types_model(f.rets@));
        },
        _ => {},
    }
}

impl View for Type {
    type V = IdlType;

    open spec fn view(&self) -> IdlType {
        type_view(*self)
    }
}

/// Types written as a single opcode: everything but type variables and the
/// composite types.
pub open spec fn is_primitive(t: IdlType) -> bool {
    match t {
        IdlType::Var(_) => false,
        IdlType::Opt(_) => false,
        IdlType::Vec(_) => false,
        IdlType::Record(_) => false,
        IdlType::Variant(_) => false,
        IdlType::Func(_, _, _) => false,
        IdlType::Service(_) => false,
        _ => true,
    }
}

/// The opcode of a type constructor in the Candid binary format.
pub open spec fn opcode(t: IdlType) -> int {
    match t {
        IdlType::Null => -1,
        IdlType::Bool => -2,
        IdlType::Nat => -3,
        IdlType::Int => -4,
        IdlType::Nat8 => -5,
        IdlType::Nat16 => -6,
        IdlType::Nat32 => -7,
        IdlType::Nat64 => -8,
        IdlType::Int8 => -9,
        IdlType::Int16 => -10,
        IdlType::Int32 => -11,
        IdlType::Int64 => -12,
        IdlType::Float32 => -13,
        IdlType::Float64 => -14,
        IdlType::Text => -15,
        IdlType::Reserved => -16,
        IdlType::Empty => -17,
        IdlType::Opt(_) => -18,
        IdlType::Vec(_) => -19,
        IdlType::Record(_) => -20,
        IdlType::Variant(_) => -21,
        IdlType::Func(_, _, _) => -22,
        IdlType::Service(_) => -23,
        IdlType::Principal => -24,
        IdlType::Var(_) => 0,
    }
}

/// The opcodes are the fixed constants of the Candid binary format, and no
/// two primitive types share one.
pub proof fn law_opcodes()
    ensures
        opcode(IdlType::Null) == -1,
        opcode(IdlType::Bool) == -2,
        opcode(IdlType::Nat) == -3,
        opcode(IdlType::Int) == -4,
        opcode(IdlType::Nat8) == -5,
        opcode(IdlType::Nat16) == -6,
        opcode(IdlType::Nat32) == -7,
        opcode(IdlType::Nat64) == -8,
        opcode(IdlType::Int8) == -9,
        opcode(IdlType::Int16) == -10,
        opcode(IdlType::Int32) == -11,
        opcode(IdlType::Int64) == -12,
        opcode(IdlType::Float32) == -13,
        opcode(IdlType::Float64) == -14,
        opcode(IdlType::Text) == -15,
        opcode(IdlType::Reserved) == -16,
        opcode(IdlType::Empty) == -17,
        opcode(IdlType::Principal) == -24,
        forall|b: Box<IdlType>| opcode(IdlType::Opt(b)) == -18,
        forall|b: Box<IdlType>| opcode(IdlType::Vec(b)) == -19,
        forall|fs: Seq<(u32, IdlType)>| opcode(IdlType::Record(fs)) == -20,
        forall|fs: Seq<(u32, IdlType)>| opcode(IdlType::Variant(fs)) == -21,
        forall|m: Seq<FuncMode>, a: Seq<IdlType>, r: Seq<IdlType>| opcode(IdlType::Func(m, a, r)) == -22,
        forall|ms: Seq<(Seq<u8>, IdlType)>| opcode(IdlType::Service(ms)) == -23,
        forall|a: IdlType, b: IdlType|
            is_primitive(a) && is_primitive(b) && #[trigger] opcode(a) == #[trigger] opcode(b) ==> a == b,
{
    assert forall|a: IdlType, b: IdlType|
        is_primitive(a) && is_primitive(b) && #[trigger] opcode(a) == #[trigger] opcode(b) implies a == b by {
        match a {
            IdlType::Null => {},
            IdlType::Bool => {},
            IdlType::Nat => {},
            IdlType::Int => {},
            IdlType::Nat8 => {},
            IdlType::Nat16 => {},
            IdlType::Nat32 => {},
            IdlType::Nat64 => {},
            IdlType::Int8 => {},
            IdlType::Int16 => {},
            IdlType::Int32 => {},
            IdlType::Int64 => {},
            IdlType::Float32 => {},
            IdlType::Float64 => {},
            IdlType::Text => {},
            IdlType::Reserved => {},
            IdlType::Empty => {},
            IdlType::Principal => {},
            _ => {},
        }
    }
}

/// The number that encodes a function mode.
pub open spec fn mode_code(m: FuncMode) -> int {
    match m {
        FuncMode::Query => 1,
        FuncMode::Oneway => 2,
        FuncMode::CompositeQuery => 3,
    }
}

/// The component types of a composite type, in the order in which the type
/// table is built from them (a function's results come twice).
pub open spec fn children(t: IdlType) -> Seq<IdlType> {
    match t {
        IdlType::Opt(b) => seq![*b],
        IdlType::Vec(b) => seq![*b],
        IdlType::Record(fs) => fs.map_values(|f: (u32, IdlType)| f.1),
        IdlType::Variant(fs) => fs.map_values(|f: (u32, IdlType)| f.1),
        IdlType::Func(_, args, rets) => args + rets + rets,
        IdlType::Service(ms) => ms.map_values(|m: (Seq<u8>, IdlType)| m.1),
        _ => Seq::empty(),
    }
}

pub proof fn lemma_children_decrease(t: IdlType, i: int)
    requires
        0 <= i < children(t).len(),
    ensures
        decreases_to!(t => children(t)[i]),
{
    match t {
        IdlType::Opt(b) => {},
        IdlType::Vec(b) => {},
        IdlType::Record(fs) => {
            assert(decreases_to!(fs => fs[i]));
        },
        IdlType::Variant(fs) => {
            assert(decreases_to!(fs => fs[i]));
        },
        IdlType::Service(ms) => {
            assert(decreases_to!(ms => ms[i]));
        },
        IdlType::Func(modes, args, rets) => {
            if i < args.len() {
                assert(children(t)[i] == args[i]);
                assert(decreases_to!(args => args[i]));
            } else if i < args.len() + rets.len() {
                assert(children(t)[i] == rets[i - args.len()]);
                assert(decreases_to!(rets => rets[i - args.len()]));
            } else {
                assert(children(t)[i] == rets[i - args.len() - rets.len()]);
                assert(decreases_to!(rets => rets[i - args.len() - rets.len()]));
            }
        },
        _ => {},
    }
}

/// Whether `a` comes before `b` in the order of names.
pub fn bytes_less(a: &Vec<u8>, b: &Vec<u8>) -> (r: bool)
    ensures
        r == bytes_lt(a@, b@),
{
    let mut i: usize = 0;
    assert(a@.skip(0) =~= a@ && b@.skip(0) =~= b@);
    while i < a.len() && i < b.len()
        invariant
            i <= a@.len(),
            i <= b@.len(),
            bytes_lt(a@, b@) == bytes_lt(a@.skip(i as int), b@.skip(i as int)),
        decreases a@.len() - i,
    {
        assert(a@.skip(i as int).drop_first() =~= a@.skip(i + 1));
        assert(b@.skip(i as int).drop_first() =~= b@.skip(i + 1));
        if a[i] != b[i] {
            return a[i] < b[i];
        }
        i = i + 1;
    }
    i == a.len() && i < b.len()
}

/// A copy of a byte vector.
pub fn clone_bytes(v: &Vec<u8>) -> (r: Vec<u8>)
    ensures
        r@ == v@,
{
    let r = v.clone();
    assert(r@ =~= v@);
    r
}

pub fn bytes_eq(a: &Vec<u8>, b: &Vec<u8>) -> (r: bool)
    ensures
        r == (a@ == b@),
{
    if a.len() != b.len() {
        return false;
    }
    let mut i: usize = 0;
    while i < a.len()
        invariant
            a@.len() == b@.len(),
            i <= a@.len(),
            forall|j: int| 0 <= j < i ==> a@[j] == b@[j],
        decreases a@.len() - i,
    {
        if a[i] != b[i] {
            return false;
        }
        i = i + 1;
    }
    assert(a@ =~= b@);
    true
}

impl Type {
    /// A copy of this type.
    pub fn deep_clone(&self) -> (r: Type)
        ensures
            r@ == self@,
        decreases self,
    {
        match self {
            Type::Null => Type::Null,
            Type::Bool => Type::Bool,
            Type::Nat => Type::Nat,
            Type::Int => Type::Int,
            Type::Nat8 => Type::Nat8,
            Type::Nat16 => Type::Nat16,
            Type::Nat32 => Type::Nat32,
            Type::Nat64 => Type::Nat64,
            Type::Int8 => Type::Int8,
            Type::Int16 => Type::Int16,
            Type::Int32 => Type::Int32,
            Type::Int64 => Type::Int64,
            Type::Float32 => Type::Float32,
            Type::Float64 => Type::Float64,
            Type::Text => Type::Text,
            Type::Reserved => Type::Reserved,
            Type::Empty => Type::Empty,
            Type::Principal => Type::Principal,
            Type::Var(n) => {
                let r = Type::Var(clone_bytes(n));
                assert(r@ == self@);
                r
            },
            Type::Opt(b) => {
                let r = Type::Opt(Box::new(b.deep_clone()));
                assert(r@ == self@);
                r
            },
            Type::Vec(b) => {
                let r = Type::Vec(Box::new(b.deep_clone()));
                assert(r@ == self@);
                r
            },
            Type::Record(fs) => {
                let c = clone_fields(fs);
                proof { lemma_fields_view_eq(c, *fs); }
                Type::Record(c)
            },
            Type::Variant(fs) => {
                let c = clone_fields(fs);
                proof { lemma_fields_view_eq(c, *fs); }
                Type::Variant(c)
            },
            Type::Func(f) => {
                let args = clone_types(&f.args);
                let rets = clone_types(&f.rets);
                let modes = f.modes.clone();
                assert(modes@ =~= f.modes@);
                let g = Function { modes, args, rets };
                proof { lemma_func_view_eq(g, *f); }
                Type::Func(g)
            },
            Type::Service(ms) => {
                let c = clone_methods(ms);
                proof { lemma_methods_view_eq(c, *ms); }
                let r = Type::Service(c);
                assert(r@ == self@);
                r
            },
        }
    }
}

/// Binds type variables to types: the names, as bytes, with their types.
pub struct TypeEnv {
    entries: Vec<(Vec<u8>, Type)>,
}

impl View for TypeEnv {
    type V = Seq<(Seq<u8>, IdlType)>;

    closed spec fn view(&self) -> Seq<(Seq<u8>, IdlType)> {
        entries_view(self.entries@)
    }
}

/// The model of a list of bindings.
pub open spec fn entries_view(es: Seq<(Vec<u8>, Type)>) -> Seq<(Seq<u8>, IdlType)> {
    es.map_values(|e: (Vec<u8>, Type)| (e.0@, e.1@))
}

/// The order of names: byte by byte, a name before every longer name that
/// starts with it.
pub open spec fn bytes_lt(a: Seq<u8>, b: Seq<u8>) -> bool
    decreases a.len(),
{
    if a.len() == 0 {
        b.len() > 0
    } else if b.len() == 0 {
        false
    } else if a[0] != b[0] {
        a[0] < b[0]
    } else {
        bytes_lt(a.drop_first(), b.drop_first())
    }
}

pub proof fn lemma_bytes_lt_irreflexive(a: Seq<u8>)
    ensures
        !bytes_lt(a, a),
    decreases a.len(),
{
    if a.len() > 0 {
        lemma_bytes_lt_irreflexive(a.drop_first());
    }
}

pub proof fn lemma_bytes_lt_transitive(a: Seq<u8>, b: Seq<u8>, c: Seq<u8>)
    requires
        bytes_lt(a, b),
        bytes_lt(b, c),
    ensures
        bytes_lt(a, c),
    decreases a.len(),
{
    if a.len() > 0 && b.len() > 0 && c.len() > 0 && a[0] == b[0] && b[0] == c[0] {
        lemma_bytes_lt_transitive(a.drop_first(), b.drop_first(), c.drop_first());
    }
}

pub proof fn lemma_bytes_lt_total(a: Seq<u8>, b: Seq<u8>)
    ensures
        a == b || bytes_lt(a, b) || bytes_lt(b, a),
    decreases a.len(),
{
    if a.len() > 0 && b.len() > 0 && a[0] == b[0] {
        lemma_bytes_lt_total(a.drop_first(), b.drop_first());
        if a.drop_first() == b.drop_first() {
            assert(a =~= seq![a[0]] + a.drop_first());
            assert(b =~= seq![b[0]] + b.drop_first());
        }
    } else if a.len() == 0 && b.len() == 0 {
        assert(a =~= b);
    }
}

/// The names come in increasing order (so none comes twice).
pub open spec fn names_sorted(env: Seq<(Seq<u8>, IdlType)>) -> bool {
    forall|i: int, j: int| 0 <= i < j < env.len() ==> bytes_lt(#[trigger] env[i].0, #[trigger] env[j].0)
}

pub proof fn lemma_sorted_unique(env: Seq<(Seq<u8>, IdlType)>)
    requires
        names_sorted(env),
    ensures
        names_unique(env),
{
    assert forall|i: int, j: int| 0 <= i < j < env.len() implies env[i].0 != env[j].0 by {
        lemma_bytes_lt_irreflexive(env[i].0);
    }
}

/// Where a binding of `name` goes among sorted bindings: after every name
/// before it.
pub open spec fn insert_pos(env: Seq<(Seq<u8>, IdlType)>, name: Seq<u8>) -> int
    decreases env.len(),
{
    if env.len() == 0 {
        0
    } else if bytes_lt(env.last().0, name) {
        env.len() as int
    } else {
        insert_pos(env.drop_last(), name)
    }
}

/// Sorted bindings with `e` added in its place, replacing a binding of the
/// same name.
pub open spec fn env_insert(env: Seq<(Seq<u8>, IdlType)>, e: (Seq<u8>, IdlType)) -> Seq<(Seq<u8>, IdlType)> {
    let p = insert_pos(env, e.0);
    if p < env.len() && env[p].0 == e.0 {
        env.update(p, e)
    } else {
        env.insert(p, e)
    }
}

pub proof fn lemma_insert_pos(env: Seq<(Seq<u8>, IdlType)>, name: Seq<u8>)
    requires
        names_sorted(env),
    ensures
        0 <= insert_pos(env, name) <= env.len(),
        forall|i: int| 0 <= i < insert_pos(env, name) ==> bytes_lt(#[trigger] env[i].0, name),
        forall|i: int| insert_pos(env, name) <= i < env.len() ==> !bytes_lt(#[trigger] env[i].0, name),
    decreases env.len(),
{
    if env.len() > 0 {
        let d = env.drop_last();
        assert(names_sorted(d)) by {
            assert forall|i: int, j: int| 0 <= i < j < d.len() implies bytes_lt(#[trigger] d[i].0, #[trigger] d[j].0) by {
                assert(d[i] == env[i] && d[j] == env[j]);
            }
        }
        lemma_insert_pos(d, name);
        if bytes_lt(env.last().0, name) {
            assert forall|i: int| 0 <= i < env.len() implies bytes_lt(#[trigger] env[i].0, name) by {
                if i < env.len() - 1 {
                    lemma_bytes_lt_transitive(env[i].0, env.last().0, name);
                }
            }
        } else {
            assert forall|i: int| insert_pos(env, name) <= i < env.len() implies !bytes_lt(#[trigger] env[i].0, name) by {
                if i < env.len() - 1 {
                    assert(d[i] == env[i]);
                }
            }
            assert forall|i: int| 0 <= i < insert_pos(env, name) implies bytes_lt(#[trigger] env[i].0, name) by {
                assert(d[i] == env[i]);
            }
        }
    }
}

/// Adding a binding keeps the names sorted, binds its name to its type, and
/// keeps every other binding.
pub proof fn lemma_env_insert(env: Seq<(Seq<u8>, IdlType)>, e: (Seq<u8>, IdlType))
    requires
        names_sorted(env),
    ensures
        names_sorted(env_insert(env, e)),
        forall|k: Seq<u8>| #[trigger] env_lookup(env_insert(env, e), k) == if k == e.0 {
            Some(e.1)
        } else {
            env_lookup(env, k)
        },
{
    let p = insert_pos(env, e.0);
    lemma_insert_pos(env, e.0);
    let n = env_insert(env, e);
    if p < env.len() && env[p].0 == e.0 {
        assert forall|i: int, j: int| 0 <= i < j < n.len() implies bytes_lt(#[trigger] n[i].0, #[trigger] n[j].0) by {
            assert(n[i].0 == env[i].0 && n[j].0 == env[j].0);
        }
    } else {
        assert forall|i: int, j: int| 0 <= i < j < n.len() implies bytes_lt(#[trigger] n[i].0, #[trigger] n[j].0) by {
            if j < p {
                assert(n[i] == env[i] && n[j] == env[j]);
            } else if j == p {
                assert(n[i] == env[i]);
            } else if i < p {
                assert(n[i] == env[i] && n[j] == env[j - 1]);
                lemma_bytes_lt_total(env[j - 1].0, e.0);
                if j - 1 > p {
                    lemma_bytes_lt_transitive(env[i].0, env[p].0, env[j - 1].0);
                }
                lemma_bytes_lt_transitive(env[i].0, e.0, env[j - 1].0);
            } else if i == p {
                assert(n[j] == env[j - 1]);
                lemma_bytes_lt_total(env[p].0, e.0);
                if j - 1 > p {
                    lemma_bytes_lt_transitive(e.0, env[p].0, env[j - 1].0);
                }
            } else {
                assert(n[i] == env[i - 1] && n[j] == env[j - 1]);
            }
        }
    }
    lemma_sorted_unique(env);
    lemma_sorted_unique(n);
    assert forall|k: Seq<u8>| #[trigger] env_lookup(n, k) == if k == e.0 { Some(e.1) } else { env_lookup(env, k) } by {
        if p < env.len() && env[p].0 == e.0 {
            if k == e.0 {
                lemma_lookup_at(n, p);
            } else if exists|j: int| 0 <= j < env.len() && env[j].0 == k {
                let j = choose|j: int| 0 <= j < env.len() && env[j].0 == k;
                lemma_lookup_at(env, j);
                lemma_lookup_at(n, j);
            } else {
                lemma_lookup_absent(env, k);
                lemma_lookup_absent(n, k);
            }
        } else {
            if k == e.0 {
                assert(n[p] == e);
                lemma_lookup_at(n, p);
            } else if exists|j: int| 0 <= j < env.len() && env[j].0 == k {
                let j = choose|j: int| 0 <= j < env.len() && env[j].0 == k;
                lemma_lookup_at(env, j);
                if j < p {
                    assert(n[j] == env[j]);
                    lemma_lookup_at(n, j);
                } else {
                    assert(n[j + 1] == env[j]);
                    lemma_lookup_at(n, j + 1);
                }
            } else {
                assert forall|i: int| 0 <= i < n.len() implies n[i].0 != k by {
                    if i < p {
                        assert(n[i] == env[i]);
                    } else if i > p {
                        assert(n[i] == env[i - 1]);
                    }
                }
                lemma_lookup_absent(env, k);
                lemma_lookup_absent(n, k);
            }
        }
    }
}

/// No name is bound twice.
pub open spec fn names_unique(env: Seq<(Seq<u8>, IdlType)>) -> bool {
    forall|i: int, j: int| 0 <= i < j < env.len() ==> env[i].0 != env[j].0
}

/// What merging the bindings of `b`, from the `i`-th on and in order, into
/// `a` gives: a name that `a` does not bind is added with its type; a name
/// that `a` binds to the same type is skipped; a name that `a` binds to
/// another type stops it with a failure.
pub open spec fn merge_from(a: Seq<(Seq<u8>, IdlType)>, b: Seq<(Seq<u8>, IdlType)>, i: nat) -> (Seq<(Seq<u8>, IdlType)>, Result<(), Error>)
    decreases b.len() - i,
{
    if i >= b.len() {
        (a, Ok(()))
    } else {
        match env_lookup(a, b[i as int].0) {
            Some(t) => if t == b[i as int].1 {
                merge_from(a, b, i + 1)
            } else {
                (a, Err(Error::InconsistentBinding))
            },
            None => merge_from(env_insert(a, b[i as int]), b, i + 1),
        }
    }
}

/// A successful merge binds every name of `b` from the `i`-th binding on to
/// its type there, and keeps every binding that `a` had.
pub proof fn lemma_merge_binds(a: Seq<(Seq<u8>, IdlType)>, b: Seq<(Seq<u8>, IdlType)>, i: nat)
    requires
        names_sorted(a),
        merge_from(a, b, i).1 is Ok,
    ensures
        forall|j: int| i <= j < b.len() ==> #[trigger] env_lookup(merge_from(a, b, i).0, b[j].0) == Some(b[j].1),
        forall|k: Seq<u8>| #[trigger] env_lookup(a, k) is Some ==> env_lookup(merge_from(a, b, i).0, k) == env_lookup(a, k),
    decreases b.len() - i,
{
    if i < b.len() {
        let e = b[i as int];
        let r = merge_from(a, b, i).0;
        match env_lookup(a, e.0) {
            Some(t) => {
                lemma_merge_binds(a, b, i + 1);
                assert(env_lookup(r, e.0) == env_lookup(a, e.0));
                assert forall|j: int| i <= j < b.len() implies #[trigger] env_lookup(r, b[j].0) == Some(b[j].1) by {
                    if j == i {
                        assert(env_lookup(r, e.0) == env_lookup(a, e.0));
                    }
                }
            },
            None => {
                let a1 = env_insert(a, e);
                lemma_env_insert(a, e);
                lemma_merge_binds(a1, b, i + 1);
                assert(env_lookup(a1, e.0) == Some(e.1));
                assert(env_lookup(r, e.0) == env_lookup(a1, e.0));
                assert forall|j: int| i <= j < b.len() implies #[trigger] env_lookup(r, b[j].0) == Some(b[j].1) by {
                    if j == i {
                        assert(env_lookup(r, e.0) == env_lookup(a1, e.0));
                    }
                }
                assert forall|k: Seq<u8>| #[trigger] env_lookup(a, k) is Some implies env_lookup(r, k) == env_lookup(a, k) by {
                    assert(env_lookup(a1, k) == env_lookup(a, k));
                    assert(env_lookup(r, k) == env_lookup(a1, k));
                }
            },
        }
    }
}

/// Merging bindings that already hold changes nothing and succeeds.
pub proof fn lemma_merge_holding(a: Seq<(Seq<u8>, IdlType)>, b: Seq<(Seq<u8>, IdlType)>, i: nat)
    requires
        forall|j: int| i <= j < b.len() ==> #[trigger] env_lookup(a, b[j].0) == Some(b[j].1),
    ensures
        merge_from(a, b, i) == (a, Ok::<(), Error>(())),
    decreases b.len() - i,
{
    if i < b.len() {
        assert(env_lookup(a, b[i as int].0) == Some(b[i as int].1));
        lemma_merge_holding(a, b, i + 1);
    }
}

/// Merging the same bindings a second time changes nothing and succeeds.
pub proof fn law_merge_idempotent(a: Seq<(Seq<u8>, IdlType)>, b: Seq<(Seq<u8>, IdlType)>)
    requires
        names_sorted(a),
        merge_from(a, b, 0).1 is Ok,
    ensures
        merge_from(merge_from(a, b, 0).0, b, 0) == (merge_from(a, b, 0).0, Ok::<(), Error>(())),
{
    lemma_merge_binds(a, b, 0);
    lemma_merge_holding(merge_from(a, b, 0).0, b, 0);
}

/// With distinct names, the binding of a name is its one entry.
pub proof fn lemma_lookup_at(env: Seq<(Seq<u8>, IdlType)>, j: int)
    requires
        names_unique(env),
        0 <= j < env.len(),
    ensures
        env_lookup(env, env[j].0) == Some(env[j].1),
    decreases env.len(),
{
    if j < env.len() - 1 {
        assert(env.last().0 != env[j].0);
        assert(env.drop_last()[j] == env[j]);
        lemma_lookup_at(env.drop_last(), j);
    }
}

/// A name with no entry is not bound.
pub proof fn lemma_lookup_absent(env: Seq<(Seq<u8>, IdlType)>, k: Seq<u8>)
    requires
        forall|i: int| 0 <= i < env.len() ==> env[i].0 != k,
    ensures
        env_lookup(env, k) is None,
    decreases env.len(),
{
    if env.len() > 0 {
        lemma_lookup_absent(env.drop_last(), k);
    }
}

/// The type bound to `name`: the last binding of it.
pub open spec fn env_lookup(env: Seq<(Seq<u8>, IdlType)>, name: Seq<u8>) -> Option<IdlType>
    decreases env.len(),
{
    if env.len() == 0 {
        None
    } else if env.last().0 == name {
        Some(env.last().1)
    } else {
        env_lookup(env.drop_last(), name)
    }
}

/// Follows the chain of type variables that starts at `name` through at most
/// `steps` further variables, to the first type that is not a variable.
pub open spec fn resolve(env: Seq<(Seq<u8>, IdlType)>, name: Seq<u8>, steps: nat) -> Result<IdlType, Error>
    decreases steps,
{
    match env_lookup(env, name) {
        None => Err(Error::Unbound),
        Some(IdlType::Var(next)) => if steps == 0 {
            Err(Error::CyclicBinding)
        } else {
            resolve(env, next, (steps - 1) as nat)
        },
        Some(t) => Ok(t),
    }
}

/// What a chain of variables ends at is never a variable.
pub proof fn lemma_resolve_not_var(env: Seq<(Seq<u8>, IdlType)>, name: Seq<u8>, steps: nat)
    ensures
        resolve(env, name, steps) matches Ok(t) ==> !(t is Var),
    decreases steps,
{
    if steps > 0 {
        lemma_resolve_not_var(env, name, (steps - 1) as nat);
        if let Some(IdlType::Var(next)) = env_lookup(env, name) {
            lemma_resolve_not_var(env, next, (steps - 1) as nat);
        }
    }
}

/// What a type variable stands for: the end of its chain of variables, which
/// has at most as many links as the environment has bindings unless it runs
/// in a cycle.
pub open spec fn rec_find(env: Seq<(Seq<u8>, IdlType)>, name: Seq<u8>) -> Result<IdlType, Error> {
    resolve(env, name, env.len())
}

impl TypeEnv {
    /// The names come in increasing order.
    #[verifier::type_invariant]
    closed spec fn wf(self) -> bool {
        names_sorted(self@)
    }

    /// The entry that binds `name`.
    fn find_index(&self, name: &Vec<u8>) -> (r: Option<usize>)
        ensures
            match r {
                Some(j) => j < self@.len() && self@[j as int].0 == name@,
                None => forall|i: int| 0 <= i < self@.len() ==> self@[i].0 != name@,
            },
    {
        let mut i: usize = 0;
        while i < self.entries.len()
            invariant
                i <= self.entries@.len(),
                self@.len() == self.entries@.len(),
                forall|j: int| 0 <= j < i ==> self@[j].0 != name@,
            decreases self.entries@.len() - i,
        {
            assert(self@[i as int] == (self.entries@[i as int].0@, self.entries@[i as int].1@));
            if bytes_eq(&self.entries[i].0, name) {
                return Some(i);
            }
            i = i + 1;
        }
        None
    }

    /// Binds `name` to `ty`, replacing a binding of `name` if there is one;
    /// the bindings stay in the order of their names.
    pub fn insert(&mut self, name: Vec<u8>, ty: Type)
        ensures
            final(self)@ == env_insert(old(self)@, (name@, ty@)),
            names_sorted(final(self)@),
            forall|k: Seq<u8>| #[trigger] env_lookup(final(self)@, k) == if k == name@ {
                Some(ty@)
            } else {
                env_lookup(old(self)@, k)
            },
    {
        proof {
            use_type_invariant(&*self);
        }
        let ghost before = self@;
        let ghost n = name@;
        let ghost v = ty@;
        proof {
            lemma_env_insert(before, (n, v));
        }
        let mut p: usize = self.entries.len();
        assert(before.take(p as int) =~= before);
        loop
            invariant
                p <= before.len(),
                before == self@,
                n == name@,
                before.len() == self.entries@.len(),
                insert_pos(before, n) == insert_pos(before.take(p as int), n),
            ensures
                insert_pos(before, n) == p,
            decreases p,
        {
            if p == 0 {
                break;
            }
            let ghost t = before.take(p as int);
            assert(t.drop_last() =~= before.take(p - 1));
            assert(t.last() == (self.entries@[p - 1].0@, self.entries@[p - 1].1@));
            if bytes_less(&self.entries[p - 1].0, &name) {
                break;
            }
            p = p - 1;
        }
        let same = p < self.entries.len() && bytes_eq(&self.entries[p].0, &name);
        proof {
            if p < before.len() {
                assert(before[p as int] == (self.entries@[p as int].0@, self.entries@[p as int].1@));
            }
        }
        let mut entries: Vec<(Vec<u8>, Type)> = Vec::new();
        std::mem::swap(&mut entries, &mut self.entries);
        if same {
            entries.set(p, (name, ty));
            assert(entries_view(entries@) =~= env_insert(before, (n, v)));
        } else {
            entries.insert(p, (name, ty));
            assert(entries_view(entries@) =~= env_insert(before, (n, v)));
        }
        self.entries = entries;
        proof {
            use_type_invariant(&*self);
        }
    }

    /// Adds the bindings of `other`, in its order, to this environment; fails
    /// at the first name that the two bind to different types, keeping what
    /// it added before it.
    pub fn merge(&mut self, other: &TypeEnv) -> (r: Result<(), Error>)
        ensures
            (final(self)@, r) == merge_from(old(self)@, other@, 0),
            names_sorted(final(self)@),
    {
        proof {
            use_type_invariant(&*self);
        }
        let mut i: usize = 0;
        while i < other.entries.len()
            invariant
                i <= other.entries@.len(),
                other@.len() == other.entries@.len(),
                merge_from(old(self)@, other@, 0) == merge_from(self@, other@, i as nat),
            decreases other.entries@.len() - i,
        {
            proof {
                use_type_invariant(&*self);
                lemma_sorted_unique(self@);
            }
            let ghost cur = self@;
            let ghost b = other@[i as int];
            assert(b == (other.entries@[i as int].0@, other.entries@[i as int].1@));
            match self.find_index(&other.entries[i].0) {
                Some(j) => {
                    proof {
                        lemma_lookup_at(cur, j as int);
                    }
                    assert(cur[j as int] == (self.entries@[j as int].0@, self.entries@[j as int].1@));
                    if !self.entries[j].1.eq_type(&other.entries[i].1) {
                        proof {
                            use_type_invariant(&*self);
                        }
                        return Err(Error::InconsistentBinding);
                    }
                },
                None => {
                    proof {
                        lemma_lookup_absent(cur, b.0);
                    }
                    let k = clone_bytes(&other.entries[i].0);
                    let v = other.entries[i].1.deep_clone();
                    self.insert(k, v);
                },
            }
            i = i + 1;
        }
        proof {
            use_type_invariant(&*self);
        }
        Ok(())
    }

    /// An environment with no bindings.
    pub fn new() -> (r: TypeEnv)
        ensures
            r@ == Seq::<(Seq<u8>, IdlType)>::empty(),
            names_sorted(r@),
    {
        let r = TypeEnv { entries: Vec::new() };
        assert(r@ =~= Seq::<(Seq<u8>, IdlType)>::empty());
        r
    }

    /// The number of bindings.
    pub fn len(&self) -> (r: usize)
        ensures
            r == self@.len(),
    {
        self.entries.len()
    }

    /// The type bound to `name`.
    pub fn find_type(&self, name: &Vec<u8>) -> (r: Result<&Type, Error>)
        ensures
            match r {
                Ok(t) => env_lookup(self@, name@) == Some(t@),
                Err(e) => env_lookup(self@, name@) is None && e == Error::Unbound,
            },
    {
        let mut i: usize = self.entries.len();
        assert(self@.take(i as int) =~= self@);
        while i > 0
            invariant
                i <= self.entries@.len(),
                self@.len() == self.entries@.len(),
                env_lookup(self@, name@) == env_lookup(self@.take(i as int), name@),
            decreases i,
        {
            let ghost pre = self@.take(i as int);
            assert(pre.drop_last() =~= self@.take(i - 1));
            assert(pre.last() == (self.entries@[i - 1].0@, self.entries@[i - 1].1@));
            if bytes_eq(&self.entries[i - 1].0, name) {
                return Ok(&self.entries[i - 1].1);
            }
            i = i - 1;
        }
        Err(Error::Unbound)
    }

    /// What the type variable `name` stands for: the first type that is not a
    /// variable on the chain of bindings that starts at `name`.
    pub fn rec_find_type(&self, name: &Vec<u8>) -> (r: Result<&Type, Error>)
        ensures
            match r {
                Ok(t) => rec_find(self@, name@) == Ok::<IdlType, Error>(t@),
                Err(e) => rec_find(self@, name@) == Err::<IdlType, Error>(e),
            },
    {
        let mut cur: &Vec<u8> = name;
        let mut steps: usize = self.entries.len();
        loop
            invariant
                steps <= self@.len(),
                rec_find(self@, name@) == resolve(self@, cur@, steps as nat),
            decreases steps,
        {
            let t = self.find_type(cur)?;
            match t {
                Type::Var(next) => {
                    if steps == 0 {
                        return Err(Error::CyclicBinding);
                    }
                    cur = next;
                    steps = steps - 1;
                },
                _ => {
                    return Ok(t);
                },
            }
        }
    }
}

impl Type {
    /// Structural equality of two types.
    pub fn eq_type(&self, other: &Type) -> (r: bool)
        ensures
            r == (self@ == other@),
        decreases self,
    {
        match (self, other) {
            (Type::Null, Type::Null) => true,
            (Type::Bool, Type::Bool) => true,
            (Type::Nat, Type::Nat) => true,
            (Type::Int, Type::Int) => true,
            (Type::Nat8, Type::Nat8) => true,
            (Type::Nat16, Type::Nat16) => true,
            (Type::Nat32, Type::Nat32) => true,
            (Type::Nat64, Type::Nat64) => true,
            (Type::Int8, Type::Int8) => true,
            (Type::Int16, Type::Int16) => true,
            (Type::Int32, Type::Int32) => true,
            (Type::Int64, Type::Int64) => true,
            (Type::Float32, Type::Float32) => true,
            (Type::Float64, Type::Float64) => true,
            (Type::Text, Type::Text) => true,
            (Type::Reserved, Type::Reserved) => true,
            (Type::Empty, Type::Empty) => true,
            (Type::Principal, Type::Principal) => true,
            (Type::Var(a), Type::Var(b)) => bytes_eq(a, b),
            (Type::Opt(a), Type::Opt(b)) => a.eq_type(b),
            (Type::Vec(a), Type::Vec(b)) => a.eq_type(b),
            (Type::Record(a), Type::Record(b)) => {
                proof { lemma_fields_view_iff(*a, *b); }
                fields_eq(a, b)
            },
            (Type::Variant(a), Type::Variant(b)) => {
                proof { lemma_fields_view_iff(*a, *b); }
                fields_eq(a, b)
            },
            (Type::Func(a), Type::Func(b)) => {
                proof { lemma_func_view_iff(*a, *b); }
                let m = modes_eq(&a.modes, &b.modes);
                if !m {
                    return false;
                }
                let x = types_eq(&a.args, &b.args);
                if !x {
                    return false;
                }
                types_eq(&a.rets, &b.rets)
            },
            (Type::Service(a), Type::Service(b)) => {
                proof { lemma_methods_view_iff(*a, *b); }
                methods_eq(a, b)
            },
            _ => false,
        }
    }
}

fn modes_eq(a: &Vec<FuncMode>, b: &Vec<FuncMode>) -> (r: bool)
    ensures
        r == (a@ == b@),
{
    if a.len() != b.len() {
        return false;
    }
    let mut i: usize = 0;
    while i < a.len()
        invariant
            a@.len() == b@.len(),
            i <= a@.len(),
            forall|j: int| 0 <= j < i ==> a@[j] == b@[j],
        decreases a@.len() - i,
    {
        let same = match (a[i], b[i]) {
            (FuncMode::Query, FuncMode::Query) => true,
            (FuncMode::Oneway, FuncMode::Oneway) => true,
            (FuncMode::CompositeQuery, FuncMode::CompositeQuery) => true,
            _ => false,
        };
        if !same {
            return false;
        }
        i = i + 1;
    }
    assert(a@ =~= b@);
    true
}

fn fields_eq(a: &Vec<Field>, b: &Vec<Field>) -> (r: bool)
    ensures
        r == fields_agree(a@, b@),
    decreases a,
{
    if a.len() != b.len() {
        return false;
    }
    let mut i: usize = 0;
    while i < a.len()
        invariant
            a@.len() == b@.len(),
            i <= a@.len(),
            forall|j: int| #![trigger a@[j]] 0 <= j < i ==> a@[j].id == b@[j].id && a@[j].ty@ == b@[j].ty@,
        decreases a@.len() - i,
    {
        proof {
            assert(decreases_to!(a => a@[i as int]));
        }
        if a[i].id != b[i].id {
            return false;
        }
        if !a[i].ty.eq_type(&b[i].ty) {
            return false;
        }
        i = i + 1;
    }
    true
}

fn types_eq(a: &Vec<Type>, b: &Vec<Type>) -> (r: bool)
    ensures
        r == types_agree(a@, b@),
    decreases a,
{
    if a.len() != b.len() {
        return false;
    }
    let mut i: usize = 0;
    while i < a.len()
        invariant
            a@.len() == b@.len(),
            i <= a@.len(),
            forall|j: int| #![trigger a@[j]] 0 <= j < i ==> a@[j]@ == b@[j]@,
        decreases a@.len() - i,
    {
        proof {
            assert(decreases_to!(a => a@[i as int]));
        }
        if !a[i].eq_type(&b[i]) {
            return false;
        }
        i = i + 1;
    }
    true
}

fn methods_eq(a: &Vec<(Vec<u8>, Type)>, b: &Vec<(Vec<u8>, Type)>) -> (r: bool)
    ensures
        r == methods_agree(a@, b@),
    decreases a,
{
    if a.len() != b.len() {
        return false;
    }
    let mut i: usize = 0;
    while i < a.len()
        invariant
            a@.len() == b@.len(),
            i <= a@.len(),
            forall|j: int| #![trigger a@[j]] 0 <= j < i ==> a@[j].0@ == b@[j].0@ && a@[j].1@ == b@[j].1@,
        decreases a@.len() - i,
    {
        proof {
            assert(decreases_to!(a => a@[i as int]));
        }
        if !bytes_eq(&a[i].0, &b[i].0) {
            return false;
        }
        if !a[i].1.eq_type(&b[i].1) {
            return false;
        }
        i = i + 1;
    }
    true
}

/// Field lists that agree label by label and type by type.
pub open spec fn fields_agree(fa: Seq<Field>, fb: Seq<Field>) -> bool {
    &&& fa.len() == fb.len()
    &&& forall|j: int| #![trigger fa[j]] 0 <= j < fa.len() ==> fa[j].id == fb[j].id && fa[j].ty@ == fb[j].ty@
}

/// Method lists that agree name by name and type by type.
pub open spec fn methods_agree(ma: Seq<(Vec<u8>, Type)>, mb: Seq<(Vec<u8>, Type)>) -> bool {
    &&& ma.len() == mb.len()
    &&& forall|j: int| #![trigger ma[j]] 0 <= j < ma.len() ==> ma[j].0@ == mb[j].0@ && ma[j].1@ == mb[j].1@
}

/// Type lists that agree type by type.
pub open spec fn types_agree(ta: Seq<Type>, tb: Seq<Type>) -> bool {
    &&& ta.len() == tb.len()
    &&& forall|j: int| #![trigger ta[j]] 0 <= j < ta.len() ==> ta[j]@ == tb[j]@
}

/// Records (and variants) have the same model exactly when their fields agree.
proof fn lemma_fields_view_iff(fa: Vec<Field>, fb: Vec<Field>)
    ensures
        (Type::Record(fa)@ == Type::Record(fb)@) == fields_agree(fa@, fb@),
        (Type::Variant(fa)@ == Type::Variant(fb)@) == fields_agree(fa@, fb@),
{
    if fields_agree(fa@, fb@) {
        lemma_fields_view_eq(fa, fb);
    }
    if Type::Record(fa)@ == Type::Record(fb)@ {
        let sa = Type::Record(fa)@->Record_0;
        let sb = Type::Record(fb)@->Record_0;
        assert(sa.len() == fa@.len() && sb.len() == fb@.len());
        assert forall|j: int| 0 <= j < fa@.len() implies fa@[j].id == fb@[j].id && fa@[j].ty@ == fb@[j].ty@ by {
            assert(sa[j] == sb[j]);
        }
    }
    if Type::Variant(fa)@ == Type::Variant(fb)@ {
        let sa = Type::Variant(fa)@->Variant_0;
        let sb = Type::Variant(fb)@->Variant_0;
        assert(sa.len() == fa@.len() && sb.len() == fb@.len());
        assert forall|j: int| 0 <= j < fa@.len() implies fa@[j].id == fb@[j].id && fa@[j].ty@ == fb@[j].ty@ by {
            assert(sa[j] == sb[j]);
        }
    }
}

/// Services have the same model exactly when their methods agree.
proof fn lemma_methods_view_iff(ma: Vec<(Vec<u8>, Type)>, mb: Vec<(Vec<u8>, Type)>)
    ensures
        (Type::Service(ma)@ == Type::Service(mb)@) == methods_agree(ma@, mb@),
{
    if methods_agree(ma@, mb@) {
        lemma_methods_view_eq(ma, mb);
    }
    if Type::Service(ma)@ == Type::Service(mb)@ {
        let sa = Type::Service(ma)@->Service_0;
        let sb = Type::Service(mb)@->Service_0;
        assert(sa.len() == ma@.len() && sb.len() == mb@.len());
        assert forall|j: int| 0 <= j < ma@.len() implies ma@[j].0@ == mb@[j].0@ && ma@[j].1@ == mb@[j].1@ by {
            assert(sa[j] == sb[j]);
        }
    }
}

/// Function types have the same model exactly when modes, arguments and
/// results agree.
proof fn lemma_func_view_iff(fa: Function, fb: Function)
    ensures
        (Type::Func(fa)@ == Type::Func(fb)@) == (fa.modes@ == fb.modes@ && types_agree(fa.args@, fb.args@)
            && types_agree(fa.rets@, fb.rets@)),
{
    if fa.modes@ == fb.modes@ && types_agree(fa.args@, fb.args@) && types_agree(fa.rets@, fb.rets@) {
        lemma_func_view_eq(fa, fb);
    }
    if Type::Func(fa)@ == Type::Func(fb)@ {
        let aa = Type::Func(fa)@->Func_1;
        let ab = Type::Func(fb)@->Func_1;
        let ra = Type::Func(fa)@->Func_2;
        let rb = Type::Func(fb)@->Func_2;
        assert(aa.len() == fa.args@.len() && ab.len() == fb.args@.len());
        assert(ra.len() == fa.rets@.len() && rb.len() == fb.rets@.len());
        assert forall|j: int| 0 <= j < fa.args@.len() implies fa.args@[j]@ == fb.args@[j]@ by {
            assert(aa[j] == ab[j]);
        }
        assert forall|j: int| 0 <= j < fa.rets@.len() implies fa.rets@[j]@ == fb.rets@[j]@ by {
            assert(ra[j] == rb[j]);
        }
    }
}

/// Record and variant types whose fields agree label by label and type by
/// type have the same model.
proof fn lemma_fields_view_eq(fa: Vec<Field>, fb: Vec<Field>)
    requires
        fa@.len() == fb@.len(),
        forall|j: int| #![trigger fa@[j]] 0 <= j < fa@.len() ==> fa@[j].id == fb@[j].id && fa@[j].ty@ == fb@[j].ty@,
    ensures
        Type::Record(fa)@ == Type::Record(fb)@,
        Type::Variant(fa)@ == Type::Variant(fb)@,
{
    let sa = Type::Record(fa)@->Record_0;
    let sb = Type::Record(fb)@->Record_0;
    assert forall|i: int| 0 <= i < sa.len() implies sa[i] == sb[i] by {
        assert(fa@[i].ty@ == fb@[i].ty@);
    }
    assert(sa =~= sb);
    let va = Type::Variant(fa)@->Variant_0;
    let vb = Type::Variant(fb)@->Variant_0;
    assert forall|i: int| 0 <= i < va.len() implies va[i] == vb[i] by {
        assert(fa@[i].ty@ == fb@[i].ty@);
    }
    assert(va =~= vb);
}

/// Function types that agree mode by mode and type by type have the same
/// model.
proof fn lemma_func_view_eq(fa: Function, fb: Function)
    requires
        fa.modes@ == fb.modes@,
        fa.args@.len() == fb.args@.len(),
        fa.rets@.len() == fb.rets@.len(),
        forall|j: int| #![trigger fa.args@[j]] 0 <= j < fa.args@.len() ==> fa.args@[j]@ == fb.args@[j]@,
        forall|j: int| #![trigger fa.rets@[j]] 0 <= j < fa.rets@.len() ==> fa.rets@[j]@ == fb.rets@[j]@,
    ensures
        Type::Func(fa)@ == Type::Func(fb)@,
{
    let aa = Type::Func(fa)@->Func_1;
    let ab = Type::Func(fb)@->Func_1;
    assert forall|i: int| 0 <= i < aa.len() implies aa[i] == ab[i] by {
        assert(fa.args@[i]@ == fb.args@[i]@);
    }
    assert(aa =~= ab);
    let ra = Type::Func(fa)@->Func_2;
    let rb = Type::Func(fb)@->Func_2;
    assert forall|i: int| 0 <= i < ra.len() implies ra[i] == rb[i] by {
        assert(fa.rets@[i]@ == fb.rets@[i]@);
    }
    assert(ra =~= rb);
}

/// Service types whose methods agree name by name and type by type have the
/// same model.
proof fn lemma_methods_view_eq(ma: Vec<(Vec<u8>, Type)>, mb: Vec<(Vec<u8>, Type)>)
    requires
        ma@.len() == mb@.len(),
        forall|j: int| #![trigger ma@[j]] 0 <= j < ma@.len() ==> ma@[j].0@ == mb@[j].0@ && ma@[j].1@ == mb@[j].1@,
    ensures
        Type::Service(ma)@ == Type::Service(mb)@,
{
    let sa = Type::Service(ma)@->Service_0;
    let sb = Type::Service(mb)@->Service_0;
    assert forall|i: int| 0 <= i < sa.len() implies sa[i] == sb[i] by {
        assert(ma@[i].1@ == mb@[i].1@);
    }
    assert(sa =~= sb);
}

fn clone_methods(ms: &Vec<(Vec<u8>, Type)>) -> (r: Vec<(Vec<u8>, Type)>)
    ensures
        r@.len() == ms@.len(),
        forall|j: int| #![trigger r@[j]] 0 <= j < ms@.len() ==> r@[j].0@ == ms@[j].0@ && r@[j].1@ == ms@[j].1@,
    decreases ms,
{
    let mut out: Vec<(Vec<u8>, Type)> = Vec::new();
    let mut i: usize = 0;
    while i < ms.len()
        invariant
            i <= ms@.len(),
            out@.len() == i,
            forall|j: int| #![trigger out@[j]] 0 <= j < i ==> out@[j].0@ == ms@[j].0@ && out@[j].1@ == ms@[j].1@,
        decreases ms@.len() - i,
    {
        proof {
            assert(decreases_to!(ms => ms@[i as int]));
        }
        let name = clone_bytes(&ms[i].0);
        let ty = ms[i].1.deep_clone();
        out.push((name, ty));
        i = i + 1;
    }
    out
}

fn clone_fields(fs: &Vec<Field>) -> (r: Vec<Field>)
    ensures
        r@.len() == fs@.len(),
        forall|j: int| #![trigger r@[j]] 0 <= j < fs@.len() ==> r@[j].id == fs@[j].id && r@[j].ty@ == fs@[j].ty@,
    decreases fs,
{
    let mut out: Vec<Field> = Vec::new();
    let mut i: usize = 0;
    while i < fs.len()
        invariant
            i <= fs@.len(),
            out@.len() == i,
            forall|j: int| #![trigger out@[j]] 0 <= j < i ==> out@[j].id == fs@[j].id && out@[j].ty@ == fs@[j].ty@,
        decreases fs@.len() - i,
    {
        proof {
            assert(decreases_to!(fs => fs@[i as int]));
        }
        let ty = fs[i].ty.deep_clone();
        out.push(Field { id: fs[i].id, ty });
        i = i + 1;
    }
    out
}

fn clone_types(ts: &Vec<Type>) -> (r: Vec<Type>)
    ensures
        r@.len() == ts@.len(),
        forall|j: int| #![trigger r@[j]] 0 <= j < ts@.len() ==> r@[j]@ == ts@[j]@,
    decreases ts,
{
    let mut out: Vec<Type> = Vec::new();
    let mut i: usize = 0;
    while i < ts.len()
        invariant
            i <= ts@.len(),
            out@.len() == i,
            forall|j: int| #![trigger out@[j]] 0 <= j < i ==> out@[j]@ == ts@[j]@,
        decreases ts@.len() - i,
    {
        proof {
            assert(decreases_to!(ts => ts@[i as int]));
        }
        out.push(ts[i].deep_clone());
        i = i + 1;
    }
    out
}

} // verus!
