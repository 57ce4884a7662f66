//! Building the type table of a Candid message: every composite type that the
//! arguments use gets one entry, and the arguments refer to their types by
//! opcode or by table index.
use crate::error::Error;
use crate::leb128::{law_sleb_reads, law_uleb_reads, leb128_write_signed, leb128_write_unsigned, sleb, sleb_reads, uleb, uleb_reads};
use crate::types::{children, fields_model, lemma_view_lists, methods_model, types_model, Field, Type, TypeEnv, env_lookup, is_primitive, lemma_children_decrease, mode_code, opcode, rec_find, FuncMode, IdlType};
use vstd::prelude::*;

verus! {

/// The memo of the type table: the entries built so far, and which type got
/// which entry.
pub struct TableState {
    pub table: Seq<Seq<u8>>,
    pub map: Seq<(IdlType, i32)>,
}

/// The table index recorded for `t`: the last record of it.
pub open spec fn map_get(map: Seq<(IdlType, i32)>, t: IdlType) -> Option<i32>
    decreases map.len(),
{
    if map.len() == 0 {
        None
    } else if map.last().0 == t {
        Some(map.last().1)
    } else {
        map_get(map.drop_last(), t)
    }
}

/// How a type is referred to, without looking through type variables: by
/// opcode if it is primitive, else by the index of its table entry.
pub open spec fn direct_ref(map: Seq<(IdlType, i32)>, t: IdlType) -> Result<Seq<u8>, Error> {
    if is_primitive(t) {
        Ok(sleb(opcode(t)))
    } else {
        match map_get(map, t) {
            Some(i) => Ok(sleb(i as int)),
            None => if t is Var {
                Err(Error::VarTypeNotFound)
            } else {
                Err(Error::TypeNotFound)
            },
        }
    }
}

/// How a type is referred to in the message: a variable that stands for a
/// primitive type by that type's opcode, any other type as `direct_ref` says.
pub open spec fn encode_ref(env: Seq<(Seq<u8>, IdlType)>, map: Seq<(IdlType, i32)>, t: IdlType) -> Result<Seq<u8>, Error> {
    match t {
        IdlType::Var(id) => match rec_find(env, id) {
            Err(e) => Err(e),
            Ok(actual) => if is_primitive(actual) {
                direct_ref(map, actual)
            } else {
                direct_ref(map, t)
            },
        },
        _ => direct_ref(map, t),
    }
}

/// The references to a list of types, one after the other; the first failure
/// is the result.
pub open spec fn encode_refs(env: Seq<(Seq<u8>, IdlType)>, map: Seq<(IdlType, i32)>, ts: Seq<IdlType>) -> Result<Seq<u8>, Error>
    decreases ts.len(),
{
    if ts.len() == 0 {
        Ok(Seq::empty())
    } else {
        match encode_refs(env, map, ts.drop_last()) {
            Err(e) => Err(e),
            Ok(b) => match encode_ref(env, map, ts.last()) {
                Err(e) => Err(e),
                Ok(x) => Ok(b + x),
            },
        }
    }
}

/// Each field as its label (unsigned LEB128) and the reference to its type.
pub open spec fn encode_fields(env: Seq<(Seq<u8>, IdlType)>, map: Seq<(IdlType, i32)>, fs: Seq<(u32, IdlType)>) -> Result<Seq<u8>, Error>
    decreases fs.len(),
{
    if fs.len() == 0 {
        Ok(Seq::empty())
    } else {
        match encode_fields(env, map, fs.drop_last()) {
            Err(e) => Err(e),
            Ok(b) => match encode_ref(env, map, fs.last().1) {
                Err(e) => Err(e),
                Ok(x) => Ok(b + uleb(fs.last().0 as nat) + x),
            },
        }
    }
}

/// Each method as the length of its name, the name's bytes and the reference
/// to its type.
pub open spec fn encode_methods(env: Seq<(Seq<u8>, IdlType)>, map: Seq<(IdlType, i32)>, ms: Seq<(Seq<u8>, IdlType)>) -> Result<Seq<u8>, Error>
    decreases ms.len(),
{
    if ms.len() == 0 {
        Ok(Seq::empty())
    } else {
        match encode_methods(env, map, ms.drop_last()) {
            Err(e) => Err(e),
            Ok(b) => match encode_ref(env, map, ms.last().1) {
                Err(e) => Err(e),
                Ok(x) => Ok(b + uleb(ms.last().0.len()) + ms.last().0 + x),
            },
        }
    }
}

/// The function modes, each as a signed LEB128 number.
pub open spec fn encode_modes(modes: Seq<FuncMode>) -> Seq<u8>
    decreases modes.len(),
{
    if modes.len() == 0 {
        Seq::empty()
    } else {
        encode_modes(modes.drop_last()) + sleb(mode_code(modes.last()))
    }
}

/// The type table entry of a composite type.
pub open spec fn entry_bytes(env: Seq<(Seq<u8>, IdlType)>, map: Seq<(IdlType, i32)>, t: IdlType) -> Result<Seq<u8>, Error> {
    match t {
        IdlType::Opt(b) => match encode_ref(env, map, *b) {
            Err(e) => Err(e),
            Ok(x) => Ok(sleb(opcode(t)) + x),
        },
        IdlType::Vec(b) => match encode_ref(env, map, *b) {
            Err(e) => Err(e),
            Ok(x) => Ok(sleb(opcode(t)) + x),
        },
        IdlType::Record(fs) => match encode_fields(env, map, fs) {
            Err(e) => Err(e),
            Ok(x) => Ok(sleb(opcode(t)) + uleb(fs.len()) + x),
        },
        IdlType::Variant(fs) => match encode_fields(env, map, fs) {
            Err(e) => Err(e),
            Ok(x) => Ok(sleb(opcode(t)) + uleb(fs.len()) + x),
        },
        IdlType::Service(ms) => match encode_methods(env, map, ms) {
            Err(e) => Err(e),
            Ok(x) => Ok(sleb(opcode(t)) + uleb(ms.len()) + x),
        },
        IdlType::Func(modes, args, rets) => match encode_refs(env, map, args) {
            Err(e) => Err(e),
            Ok(a) => match encode_refs(env, map, rets) {
                Err(e) => Err(e),
                Ok(r) => Ok(
                    sleb(opcode(t)) + uleb(args.len()) + a + uleb(rets.len()) + r + uleb(modes.len())
                        + encode_modes(modes),
                ),
            },
        },
        _ => Ok(Seq::empty()),
    }
}

/// How many bound type variables have no table index yet.
pub open spec fn unmapped(env: Seq<(Seq<u8>, IdlType)>, map: Seq<(IdlType, i32)>) -> nat
    decreases env.len(),
{
    if env.len() == 0 {
        0
    } else {
        unmapped(env.drop_last(), map) + if map_get(map, IdlType::Var(env.last().0)) is None {
            1nat
        } else {
            0nat
        }
    }
}

/// The state after adding the table entries that `t` needs, and whether that
/// succeeded: a type with an index already, or that stands for a primitive
/// type, needs none; any other type gets the next index before its
/// components are added, and its entry once they are.
pub open spec fn build(env: Seq<(Seq<u8>, IdlType)>, st: TableState, t: IdlType) -> (TableState, Result<(), Error>)
    decreases unmapped(env, st.map), t, children(t).len() + 1,
{
    if map_get(st.map, t) is Some {
        (st, Ok(()))
    } else {
        let actual = match t {
            IdlType::Var(id) => rec_find(env, id),
            _ => Ok(t),
        };
        match actual {
            Err(e) => (st, Err(e)),
            Ok(a) => if is_primitive(a) {
                (st, Ok(()))
            } else {
                let idx = st.table.len();
                let st1 = TableState { table: st.table.push(Seq::empty()), map: st.map.push((t, idx as i32)) };
                proof {
                    lemma_unmapped_push(env, st.map, t, idx as i32);
                }
                let (st2, r) = build_children(env, st1, a, 0);
                match r {
                    Err(e) => (st2, Err(e)),
                    Ok(_) => match entry_bytes(env, st2.map, a) {
                        Err(e) => (st2, Err(e)),
                        Ok(bytes) => (TableState { table: st2.table.update(idx as int, bytes), map: st2.map }, Ok(())),
                    },
                }
            }
        }
    }
}

/// The components of `parent` from the `i`-th on, added one after the other;
/// the first failure stops it.
///
/// The test on `unmapped` always holds (`lemma_build_never_unmaps` proves
/// it), so the `TypeNotFound` branch is never taken. The test stands in the
/// definition because what shows that the recursion ends is a fact about
/// `build` itself, which the definition of `build` cannot use.
pub open spec fn build_children(env: Seq<(Seq<u8>, IdlType)>, st: TableState, parent: IdlType, i: nat) -> (TableState, Result<(), Error>)
    decreases unmapped(env, st.map), parent, children(parent).len() - i,
{
    if i >= children(parent).len() {
        (st, Ok(()))
    } else {
        proof {
            lemma_children_decrease(parent, i as int);
        }
        let (st2, r) = build(env, st, children(parent)[i as int]);
        match r {
            Err(e) => (st2, Err(e)),
            Ok(_) => if unmapped(env, st2.map) <= unmapped(env, st.map) {
                build_children(env, st2, parent, i + 1)
            } else {
                (st2, Err(Error::TypeNotFound))
            },
        }
    }
}

pub proof fn lemma_map_get_push(map: Seq<(IdlType, i32)>, k: IdlType, v: i32, t: IdlType)
    ensures
        map_get(map.push((k, v)), t) == if k == t { Some(v) } else { map_get(map, t) },
{
    assert(map.push((k, v)).drop_last() =~= map);
}

/// Recording a new type never adds to the unbound-variable count, and
/// recording a bound variable that had no index takes one from it.
pub proof fn lemma_unmapped_push(env: Seq<(Seq<u8>, IdlType)>, map: Seq<(IdlType, i32)>, k: IdlType, v: i32)
    ensures
        unmapped(env, map.push((k, v))) <= unmapped(env, map),
        (k matches IdlType::Var(id) && env_lookup(env, id) is Some && map_get(map, k) is None)
            ==> unmapped(env, map.push((k, v))) < unmapped(env, map),
    decreases env.len(),
{
    if env.len() > 0 {
        lemma_unmapped_push(env.drop_last(), map, k, v);
        lemma_map_get_push(map, k, v, IdlType::Var(env.last().0));
    }
}

/// The second map keeps every index that the first one records.
pub open spec fn map_extends(bigger: Seq<(IdlType, i32)>, smaller: Seq<(IdlType, i32)>) -> bool {
    forall|k: IdlType| #[trigger] map_get(smaller, k) is Some ==> map_get(bigger, k) == map_get(smaller, k)
}

pub proof fn lemma_unmapped_mono(env: Seq<(Seq<u8>, IdlType)>, m1: Seq<(IdlType, i32)>, m2: Seq<(IdlType, i32)>)
    requires
        map_extends(m2, m1),
    ensures
        unmapped(env, m2) <= unmapped(env, m1),
    decreases env.len(),
{
    if env.len() > 0 {
        lemma_unmapped_mono(env.drop_last(), m1, m2);
        let k = IdlType::Var(env.last().0);
        if map_get(m1, k) is Some {
            assert(map_get(m2, k) == map_get(m1, k));
        }
    }
}

/// Adding the entries of a type never leaves more bound variables without an
/// index: the test in `build_children` always holds.
pub proof fn lemma_build_never_unmaps(env: Seq<(Seq<u8>, IdlType)>, st: TableState, t: IdlType)
    ensures
        unmapped(env, build(env, st, t).0.map) <= unmapped(env, st.map),
{
    lemma_build_extends(env, st, t);
    lemma_unmapped_mono(env, st.map, build(env, st, t).0.map);
}

/// Adding the entries that a type needs keeps every index already recorded.
pub proof fn lemma_build_extends(env: Seq<(Seq<u8>, IdlType)>, st: TableState, t: IdlType)
    ensures
        map_extends(build(env, st, t).0.map, st.map),
        build(env, st, t).0.table.len() >= st.table.len(),
        build(env, st, t).0.table.take(st.table.len() as int) == st.table,
    decreases unmapped(env, st.map), t, children(t).len() + 1,
{
    if map_get(st.map, t) is None {
        let actual = match t {
            IdlType::Var(id) => rec_find(env, id),
            _ => Ok(t),
        };
        if let Ok(a) = actual {
            if !is_primitive(a) {
                let idx = st.table.len();
                let st1 = TableState { table: st.table.push(Seq::empty()), map: st.map.push((t, idx as i32)) };
                lemma_unmapped_push(env, st.map, t, idx as i32);
                assert forall|k: IdlType| #[trigger] map_get(st.map, k) is Some implies map_get(st1.map, k) == map_get(st.map, k) by {
                    lemma_map_get_push(st.map, t, idx as i32, k);
                }
                lemma_build_children_extends(env, st1, a, 0);
                let st2 = build_children(env, st1, a, 0).0;
                assert(st2.table.take(st.table.len() as int) =~= st1.table.take(st.table.len() as int));
                assert(st1.table.take(st.table.len() as int) =~= st.table);
                if let Ok(bytes) = entry_bytes(env, st2.map, a) {
                    assert(st2.table.update(idx as int, bytes).take(st.table.len() as int) =~= st.table);
                }
            }
        }
    }
}

pub proof fn lemma_build_children_extends(env: Seq<(Seq<u8>, IdlType)>, st: TableState, parent: IdlType, i: nat)
    ensures
        map_extends(build_children(env, st, parent, i).0.map, st.map),
        build_children(env, st, parent, i).0.table.len() >= st.table.len(),
        build_children(env, st, parent, i).0.table.take(st.table.len() as int) == st.table,
    decreases unmapped(env, st.map), parent, children(parent).len() - i,
{
    if i < children(parent).len() {
        lemma_children_decrease(parent, i as int);
        let child = children(parent)[i as int];
        lemma_build_extends(env, st, child);
        let (st2, r) = build(env, st, child);
        lemma_unmapped_mono(env, st.map, st2.map);
        if r is Ok {
            lemma_build_children_extends(env, st2, parent, i + 1);
            let st3 = build_children(env, st2, parent, i + 1).0;
            assert(st3.table.take(st.table.len() as int) =~= st3.table.take(st2.table.len() as int).take(st.table.len() as int));
        }
    }
}

/// A failure on a prefix of the list is the failure of the whole list.
pub proof fn lemma_encode_refs_prefix(env: Seq<(Seq<u8>, IdlType)>, map: Seq<(IdlType, i32)>, ts: Seq<IdlType>, i: int)
    requires
        0 <= i <= ts.len(),
        encode_refs(env, map, ts.take(i)) is Err,
    ensures
        encode_refs(env, map, ts) == encode_refs(env, map, ts.take(i)),
    decreases ts.len(),
{
    if i == ts.len() {
        assert(ts.take(i) =~= ts);
    } else {
        assert(ts.drop_last().take(i) =~= ts.take(i));
        lemma_encode_refs_prefix(env, map, ts.drop_last(), i);
    }
}

pub proof fn lemma_encode_fields_prefix(env: Seq<(Seq<u8>, IdlType)>, map: Seq<(IdlType, i32)>, fs: Seq<(u32, IdlType)>, i: int)
    requires
        0 <= i <= fs.len(),
        encode_fields(env, map, fs.take(i)) is Err,
    ensures
        encode_fields(env, map, fs) == encode_fields(env, map, fs.take(i)),
    decreases fs.len(),
{
    if i == fs.len() {
        assert(fs.take(i) =~= fs);
    } else {
        assert(fs.drop_last().take(i) =~= fs.take(i));
        lemma_encode_fields_prefix(env, map, fs.drop_last(), i);
    }
}

pub proof fn lemma_encode_methods_prefix(env: Seq<(Seq<u8>, IdlType)>, map: Seq<(IdlType, i32)>, ms: Seq<(Seq<u8>, IdlType)>, i: int)
    requires
        0 <= i <= ms.len(),
        encode_methods(env, map, ms.take(i)) is Err,
    ensures
        encode_methods(env, map, ms) == encode_methods(env, map, ms.take(i)),
    decreases ms.len(),
{
    if i == ms.len() {
        assert(ms.take(i) =~= ms);
    } else {
        assert(ms.drop_last().take(i) =~= ms.take(i));
        lemma_encode_methods_prefix(env, map, ms.drop_last(), i);
    }
}

/// A primitive type is referred to by the signed LEB128 bytes of its opcode,
/// in shortest form, whatever the bindings and the memo.
pub proof fn law_primitive_ref(env: Seq<(Seq<u8>, IdlType)>, map: Seq<(IdlType, i32)>, t: IdlType)
    requires
        is_primitive(t),
    ensures
        encode_ref(env, map, t) is Ok,
        sleb_reads(encode_ref(env, map, t).unwrap(), opcode(t)),
{
    law_sleb_reads(opcode(t));
}

/// Each field of a record or variant entry is its label as an unsigned LEB128
/// number in shortest form, then the reference to its type, after the fields
/// before it.
pub proof fn law_field_bytes(
    env: Seq<(Seq<u8>, IdlType)>,
    map: Seq<(IdlType, i32)>,
    fs: Seq<(u32, IdlType)>,
    id: u32,
    ty: IdlType,
)
    requires
        encode_fields(env, map, fs) is Ok,
        encode_ref(env, map, ty) is Ok,
    ensures
        exists|l: Seq<u8>|
            #[trigger] uleb_reads(l, id as nat) && encode_fields(env, map, fs.push((id, ty))) == Ok::<Seq<u8>, Error>(
                encode_fields(env, map, fs).unwrap() + l + encode_ref(env, map, ty).unwrap(),
            ),
{
    law_uleb_reads(id as nat);
    assert(fs.push((id, ty)).drop_last() =~= fs);
    assert(uleb_reads(uleb(id as nat), id as nat));
}

/// A record entry is the opcode -20 and a variant entry the opcode -21, each
/// as signed LEB128, then the number of fields as unsigned LEB128, then the
/// fields.
pub proof fn law_record_variant_entries(env: Seq<(Seq<u8>, IdlType)>, map: Seq<(IdlType, i32)>, fs: Seq<(u32, IdlType)>)
    requires
        encode_fields(env, map, fs) is Ok,
    ensures
        exists|o: Seq<u8>, c: Seq<u8>|
            #![trigger sleb_reads(o, -20), uleb_reads(c, fs.len())]
            sleb_reads(o, -20) && uleb_reads(c, fs.len()) && entry_bytes(env, map, IdlType::Record(fs))
                == Ok::<Seq<u8>, Error>(o + c + encode_fields(env, map, fs).unwrap()),
        exists|o: Seq<u8>, c: Seq<u8>|
            #![trigger sleb_reads(o, -21), uleb_reads(c, fs.len())]
            sleb_reads(o, -21) && uleb_reads(c, fs.len()) && entry_bytes(env, map, IdlType::Variant(fs))
                == Ok::<Seq<u8>, Error>(o + c + encode_fields(env, map, fs).unwrap()),
{
    law_sleb_reads(-20);
    law_sleb_reads(-21);
    law_uleb_reads(fs.len());
    assert(sleb_reads(sleb(-20), -20) && uleb_reads(uleb(fs.len()), fs.len()));
    assert(sleb_reads(sleb(-21), -21) && uleb_reads(uleb(fs.len()), fs.len()));
}

/// Memo records and table slots correspond one to one: there are as many
/// records as slots, the `j`-th record holds the index `j`, and no type is
/// recorded twice.
pub open spec fn slots_match(st: TableState) -> bool {
    &&& st.map.len() == st.table.len()
    &&& forall|j: int| 0 <= j < st.map.len() ==> #[trigger] st.map[j].1 as int == j
    &&& forall|i: int, j: int| 0 <= i < j < st.map.len() ==> #[trigger] st.map[i].0 != #[trigger] st.map[j].0
}

/// A type without a memo record differs from every recorded type.
pub proof fn lemma_map_get_none(map: Seq<(IdlType, i32)>, t: IdlType)
    requires
        map_get(map, t) is None,
    ensures
        forall|j: int| 0 <= j < map.len() ==> #[trigger] map[j].0 != t,
    decreases map.len(),
{
    if map.len() > 0 {
        lemma_map_get_none(map.drop_last(), t);
        assert forall|j: int| 0 <= j < map.len() implies #[trigger] map[j].0 != t by {
            if j < map.len() - 1 {
                assert(map[j] == map.drop_last()[j]);
            }
        }
    }
}

/// Adding a type's entries, whether it succeeds or fails, keeps memo records
/// and table slots in one-to-one correspondence, as long as every index fits
/// in an `i32`.
pub proof fn law_build_keeps_slots(env: Seq<(Seq<u8>, IdlType)>, st: TableState, t: IdlType)
    requires
        slots_match(st),
        build(env, st, t).0.table.len() <= 0x8000_0000,
    ensures
        slots_match(build(env, st, t).0),
    decreases unmapped(env, st.map), t, children(t).len() + 1,
{
    if map_get(st.map, t) is None {
        let actual = match t {
            IdlType::Var(id) => rec_find(env, id),
            _ => Ok(t),
        };
        if let Ok(a) = actual {
            if !is_primitive(a) {
                let idx = st.table.len();
                let st1 = TableState { table: st.table.push(Seq::empty()), map: st.map.push((t, idx as i32)) };
                lemma_unmapped_push(env, st.map, t, idx as i32);
                lemma_build_children_extends(env, st1, a, 0);
                lemma_map_get_none(st.map, t);
                assert(slots_match(st1)) by {
                    assert(idx < 0x8000_0000);
                    assert(st1.map[idx as int].1 as int == idx);
                    assert forall|j: int| 0 <= j < st1.map.len() implies #[trigger] st1.map[j].1 as int == j by {
                        if j < idx {
                            assert(st1.map[j] == st.map[j]);
                        }
                    }
                    assert forall|i: int, j: int| 0 <= i < j < st1.map.len() implies #[trigger] st1.map[i].0 != #[trigger] st1.map[j].0 by {
                        assert(st1.map[i] == st.map[i]);
                        if j < idx {
                            assert(st1.map[j] == st.map[j]);
                        }
                    }
                }
                lemma_build_children_keeps_slots(env, st1, a, 0);
            }
        }
    }
}

pub proof fn lemma_build_children_keeps_slots(env: Seq<(Seq<u8>, IdlType)>, st: TableState, parent: IdlType, i: nat)
    requires
        slots_match(st),
        build_children(env, st, parent, i).0.table.len() <= 0x8000_0000,
    ensures
        slots_match(build_children(env, st, parent, i).0),
    decreases unmapped(env, st.map), parent, children(parent).len() - i,
{
    if i < children(parent).len() {
        lemma_children_decrease(parent, i as int);
        let child = children(parent)[i as int];
        lemma_build_never_unmaps(env, st, child);
        let (st2, r) = build(env, st, child);
        if r is Ok {
            lemma_build_children_extends(env, st2, parent, i + 1);
            law_build_keeps_slots(env, st, child);
            lemma_build_children_keeps_slots(env, st2, parent, i + 1);
        } else {
            law_build_keeps_slots(env, st, child);
        }
    }
}

/// A type that already has a memo record gets nothing added, and succeeds.
pub proof fn law_build_memoized(env: Seq<(Seq<u8>, IdlType)>, st: TableState, t: IdlType)
    requires
        map_get(st.map, t) is Some,
    ensures
        build(env, st, t) == (st, Ok::<(), Error>(())),
{
}

/// Memoization: once a type's entries have been added, adding them again
/// changes nothing and succeeds.
pub proof fn law_build_idempotent(env: Seq<(Seq<u8>, IdlType)>, st: TableState, t: IdlType)
    requires
        build(env, st, t).1 is Ok,
    ensures
        build(env, build(env, st, t).0, t) == (build(env, st, t).0, Ok::<(), Error>(())),
{
    if map_get(st.map, t) is None {
        let actual = match t {
            IdlType::Var(id) => rec_find(env, id),
            _ => Ok(t),
        };
        if let Ok(a) = actual {
            if !is_primitive(a) {
                let idx = st.table.len();
                let st1 = TableState { table: st.table.push(Seq::empty()), map: st.map.push((t, idx as i32)) };
                lemma_map_get_push(st.map, t, idx as i32, t);
                lemma_build_children_extends(env, st1, a, 0);
            }
        }
    }
}

/// Adding a type's entries never changes an entry or an index already there:
/// the table only grows at its end, and the memo only gains types.
pub proof fn law_build_keeps_entries(env: Seq<(Seq<u8>, IdlType)>, st: TableState, t: IdlType)
    ensures
        build(env, st, t).0.table.len() >= st.table.len(),
        build(env, st, t).0.table.take(st.table.len() as int) == st.table,
        map_extends(build(env, st, t).0.map, st.map),
{
    lemma_build_extends(env, st, t);
}

/// A reference that can be written stays the same when the memo gains types.
pub proof fn lemma_encode_ref_stable(env: Seq<(Seq<u8>, IdlType)>, m1: Seq<(IdlType, i32)>, m2: Seq<(IdlType, i32)>, t: IdlType)
    requires
        map_extends(m2, m1),
        encode_ref(env, m1, t) is Ok,
    ensures
        encode_ref(env, m2, t) == encode_ref(env, m1, t),
{
    if let IdlType::Var(id) = t {
        if let Ok(actual) = rec_find(env, id) {
            if !is_primitive(actual) {
                assert(map_get(m2, t) == map_get(m1, t));
            }
        }
    } else if !is_primitive(t) {
        assert(map_get(m2, t) == map_get(m1, t));
    }
}

pub proof fn lemma_encode_refs_stable(env: Seq<(Seq<u8>, IdlType)>, m1: Seq<(IdlType, i32)>, m2: Seq<(IdlType, i32)>, ts: Seq<IdlType>)
    requires
        map_extends(m2, m1),
        encode_refs(env, m1, ts) is Ok,
    ensures
        encode_refs(env, m2, ts) == encode_refs(env, m1, ts),
    decreases ts.len(),
{
    if ts.len() > 0 {
        lemma_encode_refs_stable(env, m1, m2, ts.drop_last());
        lemma_encode_ref_stable(env, m1, m2, ts.last());
    }
}

/// Every type variable in the memo stands for a type.
pub open spec fn memo_wf(env: Seq<(Seq<u8>, IdlType)>, map: Seq<(IdlType, i32)>) -> bool {
    forall|k: IdlType| #[trigger] map_get(map, k) is Some && k is Var ==> rec_find(env, k->Var_0) is Ok
}

pub proof fn lemma_build_memo_wf(env: Seq<(Seq<u8>, IdlType)>, st: TableState, t: IdlType)
    requires
        memo_wf(env, st.map),
    ensures
        memo_wf(env, build(env, st, t).0.map),
    decreases unmapped(env, st.map), t, children(t).len() + 1,
{
    if map_get(st.map, t) is None {
        let actual = match t {
            IdlType::Var(id) => rec_find(env, id),
            _ => Ok(t),
        };
        if let Ok(a) = actual {
            if !is_primitive(a) {
                let idx = st.table.len();
                let st1 = TableState { table: st.table.push(Seq::empty()), map: st.map.push((t, idx as i32)) };
                lemma_unmapped_push(env, st.map, t, idx as i32);
                assert forall|k: IdlType| #[trigger] map_get(st1.map, k) is Some && k is Var implies rec_find(env, k->Var_0) is Ok by {
                    lemma_map_get_push(st.map, t, idx as i32, k);
                }
                lemma_build_children_memo_wf(env, st1, a, 0);
            }
        }
    }
}

pub proof fn lemma_build_children_memo_wf(env: Seq<(Seq<u8>, IdlType)>, st: TableState, parent: IdlType, i: nat)
    requires
        memo_wf(env, st.map),
    ensures
        memo_wf(env, build_children(env, st, parent, i).0.map),
    decreases unmapped(env, st.map), parent, children(parent).len() - i,
{
    if i < children(parent).len() {
        lemma_children_decrease(parent, i as int);
        let child = children(parent)[i as int];
        lemma_build_memo_wf(env, st, child);
        lemma_build_never_unmaps(env, st, child);
        let (st2, r) = build(env, st, child);
        if r is Ok {
            lemma_build_children_memo_wf(env, st2, parent, i + 1);
        }
    }
}

/// A type whose entries were added successfully can be referred to.
pub proof fn lemma_built_type_encodable(env: Seq<(Seq<u8>, IdlType)>, st: TableState, t: IdlType)
    requires
        memo_wf(env, st.map),
        build(env, st, t).1 is Ok,
    ensures
        encode_ref(env, build(env, st, t).0.map, t) is Ok,
{
    law_build_idempotent(env, st, t);
    lemma_build_memo_wf(env, st, t);
    let st2 = build(env, st, t).0;
    if let IdlType::Var(id) = t {
        if map_get(st2.map, t) is Some {
            assert(rec_find(env, id) is Ok);
        }
    }
    // The second run returns at once: the type is recorded, or it stands for
    // a primitive type.
    if map_get(st2.map, t) is None {
        let actual = match t {
            IdlType::Var(id) => rec_find(env, id),
            _ => Ok(t),
        };
        assert(actual is Ok);
        assert(is_primitive(actual.unwrap())) by {
            if !is_primitive(actual.unwrap()) {
                let idx = st2.table.len();
                let st1 = TableState { table: st2.table.push(Seq::empty()), map: st2.map.push((t, idx as i32)) };
                lemma_map_get_push(st2.map, t, idx as i32, t);
                lemma_build_children_extends(env, st1, actual.unwrap(), 0);
            }
        }
    }
}

/// A successful push keeps every argument type referable: if the types of
/// the arguments so far can all be written, and the entries of a new
/// argument's type are added successfully, then all of them, the new one
/// included, can be written, and the old references do not change.
pub proof fn law_push_keeps_args_encodable(
    env: Seq<(Seq<u8>, IdlType)>,
    st: TableState,
    args: Seq<IdlType>,
    t: IdlType,
)
    requires
        memo_wf(env, st.map),
        encode_refs(env, st.map, args) is Ok,
        build(env, st, t).1 is Ok,
    ensures
        memo_wf(env, build(env, st, t).0.map),
        encode_refs(env, build(env, st, t).0.map, args.push(t)) is Ok,
        encode_refs(env, build(env, st, t).0.map, args) == encode_refs(env, st.map, args),
{
    let st2 = build(env, st, t).0;
    lemma_build_extends(env, st, t);
    lemma_encode_refs_stable(env, st.map, st2.map, args);
    lemma_built_type_encodable(env, st, t);
    lemma_build_memo_wf(env, st, t);
    assert(args.push(t).drop_last() =~= args);
}

/// One step of adding the components: the next component, then the rest.
pub proof fn lemma_build_children_step(env: Seq<(Seq<u8>, IdlType)>, st: TableState, parent: IdlType, i: nat)
    requires
        i < children(parent).len(),
    ensures
        ({
            let (st2, r) = build(env, st, children(parent)[i as int]);
            &&& unmapped(env, st2.map) <= unmapped(env, st.map)
            &&& build_children(env, st, parent, i) == if r is Ok {
                build_children(env, st2, parent, i + 1)
            } else {
                (st2, r)
            }
        }),
{
    let child = children(parent)[i as int];
    lemma_build_extends(env, st, child);
    lemma_unmapped_mono(env, st.map, build(env, st, child).0.map);
}

/// Appends the signed LEB128 bytes of `v`.
fn write_sleb(buf: &mut Vec<u8>, v: i64)
    ensures
        final(buf)@ == old(buf)@ + sleb(v as int),
{
    let _ = leb128_write_signed(buf, v);
}

/// Appends the unsigned LEB128 bytes of `v`.
fn write_uleb(buf: &mut Vec<u8>, v: u64)
    ensures
        final(buf)@ == old(buf)@ + uleb(v as nat),
{
    let _ = leb128_write_unsigned(buf, v);
}

/// Whether a type is written as a single opcode.
fn primitive(t: &Type) -> (r: bool)
    ensures
        r == is_primitive(t@),
{
    match t {
        Type::Var(_) => false,
        Type::Opt(_) => false,
        Type::Vec(_) => false,
        Type::Record(_) => false,
        Type::Variant(_) => false,
        Type::Func(_) => false,
        Type::Service(_) => false,
        _ => true,
    }
}

/// The opcode of a type's constructor.
fn type_opcode(t: &Type) -> (r: i64)
    ensures
        r == opcode(t@),
{
    match t {
        Type::Null => -1,
        Type::Bool => -2,
        Type::Nat => -3,
        Type::Int => -4,
        Type::Nat8 => -5,
        Type::Nat16 => -6,
        Type::Nat32 => -7,
        Type::Nat64 => -8,
        Type::Int8 => -9,
        Type::Int16 => -10,
        Type::Int32 => -11,
        Type::Int64 => -12,
        Type::Float32 => -13,
        Type::Float64 => -14,
        Type::Text => -15,
        Type::Reserved => -16,
        Type::Empty => -17,
        Type::Opt(_) => -18,
        Type::Vec(_) => -19,
        Type::Record(_) => -20,
        Type::Variant(_) => -21,
        Type::Func(_) => -22,
        Type::Service(_) => -23,
        Type::Principal => -24,
        Type::Var(_) => 0,
    }
}

/// The state that serializes the types of a message's arguments.
pub struct TypeSerialize {
    type_table: Vec<Vec<u8>>,
    type_map: Vec<(Type, i32)>,
    env: TypeEnv,
    args: Vec<Type>,
    result: Vec<u8>,
}

impl Default for TypeSerialize {
    /// An empty serializer, as `new` makes.
    fn default() -> (r: TypeSerialize)
        ensures
            r.table() == Seq::<Seq<u8>>::empty(),
            r.map() == Seq::<(IdlType, i32)>::empty(),
            r.env() == Seq::<(Seq<u8>, IdlType)>::empty(),
            r.args() == Seq::<IdlType>::empty(),
            r.result() == Seq::<u8>::empty(),
    {
        TypeSerialize::new()
    }
}

impl TypeSerialize {
    /// The type table entries built so far.
    pub closed spec fn table(&self) -> Seq<Seq<u8>> {
        self.type_table@.map_values(|v: Vec<u8>| v@)
    }

    /// Which type got which table index.
    pub closed spec fn map(&self) -> Seq<(IdlType, i32)> {
        self.type_map@.map_values(|e: (Type, i32)| (e.0@, e.1))
    }

    pub open spec fn state(&self) -> TableState {
        TableState { table: self.table(), map: self.map() }
    }

    /// The bindings of type variables.
    pub closed spec fn env(&self) -> Seq<(Seq<u8>, IdlType)> {
        self.env@
    }

    /// The types of the arguments pushed so far.
    pub closed spec fn args(&self) -> Seq<IdlType> {
        types_model(self.args@)
    }

    /// The serialized type part written so far.
    pub closed spec fn result(&self) -> Seq<u8> {
        self.result@
    }

    /// An empty serializer: no entries, no arguments, no bindings.
    pub fn new() -> (r: TypeSerialize)
        ensures
            r.table() == Seq::<Seq<u8>>::empty(),
            r.map() == Seq::<(IdlType, i32)>::empty(),
            r.env() == Seq::<(Seq<u8>, IdlType)>::empty(),
            r.args() == Seq::<IdlType>::empty(),
            r.result() == Seq::<u8>::empty(),
    {
        let r = TypeSerialize {
            type_table: Vec::new(),
            type_map: Vec::new(),
            env: TypeEnv::new(),
            args: Vec::new(),
            result: Vec::new(),
        };
        assert(r.table() =~= Seq::<Seq<u8>>::empty());
        assert(r.map() =~= Seq::<(IdlType, i32)>::empty());
        assert(r.args() =~= Seq::<IdlType>::empty());
        r
    }

    /// The serialized type part.
    pub fn get_result(&self) -> (r: &[u8])
        ensures
            r@ == self.result(),
    {
        self.result.as_slice()
    }

    /// Adds the bindings of `env` to the bindings of type variables, as
    /// `TypeEnv::merge` does.
    pub fn merge_env(&mut self, env: &TypeEnv) -> (r: Result<(), Error>)
        ensures
            (final(self).env(), r) == crate::types::merge_from(old(self).env(), env@, 0),
            crate::types::names_sorted(final(self).env()),
            final(self).table() == old(self).table(),
            final(self).map() == old(self).map(),
            final(self).args() == old(self).args(),
            final(self).result() == old(self).result(),
    {
        self.env.merge(env)
    }

    /// The bindings of type variables.
    pub fn type_env(&self) -> (r: &TypeEnv)
        ensures
            r@ == self.env(),
    {
        &self.env
    }

    /// Records `t` as the type of the next argument and adds the type table
    /// entries that it needs.
    pub fn push_type(&mut self, t: &Type) -> (r: Result<(), Error>)
        ensures
            final(self).args() == old(self).args().push(t@),
            final(self).table() == build(old(self).env(), old(self).state(), t@).0.table,
            final(self).map() == build(old(self).env(), old(self).state(), t@).0.map,
            r == build(old(self).env(), old(self).state(), t@).1,
            final(self).env() == old(self).env(),
            final(self).result() == old(self).result(),
    {
        let ghost before = self.args();
        self.args.push(t.deep_clone());
        assert(self.args() =~= before.push(t@));
        self.build_type(t)
    }

    /// Appends the type part of the message to the result: the number of
    /// table entries, the entries, the number of arguments, and the reference
    /// to each argument's type. A failure to refer to an argument's type stops
    /// it after the number of arguments.
    pub fn serialize(&mut self) -> (r: Result<(), Error>)
        ensures
            ({
                let prefix = old(self).result() + uleb(old(self).table().len()) + old(self).table().flatten()
                    + uleb(old(self).args().len());
                match encode_refs(old(self).env(), old(self).map(), old(self).args()) {
                    Ok(x) => r is Ok && final(self).result() == prefix + x,
                    Err(e) => r == Err::<(), Error>(e) && final(self).result() == prefix,
                }
            }),
            final(self).table() == old(self).table(),
            final(self).map() == old(self).map(),
            final(self).env() == old(self).env(),
            final(self).args() == old(self).args(),
    {
        let ghost tbl = self.table();
        write_uleb(&mut self.result, self.type_table.len() as u64);
        let ghost start = self.result@;
        let mut i: usize = 0;
        assert(tbl.take(0) =~= Seq::<Seq<u8>>::empty());
        while i < self.type_table.len()
            invariant
                i <= self.type_table@.len(),
                tbl == self.table(),
                tbl == old(self).table(),
                self.map() == old(self).map(),
                self.env() == old(self).env(),
                self.args() == old(self).args(),
                start == old(self).result() + uleb(tbl.len()),
                self.result@ == start + tbl.take(i as int).flatten(),
            decreases self.type_table@.len() - i,
        {
            proof {
                tbl.take(i as int).lemma_flatten_push(tbl[i as int]);
                assert(tbl.take(i + 1) =~= tbl.take(i as int).push(tbl[i as int]));
            }
            let ghost before = self.result@;
            self.result.extend_from_slice(self.type_table[i].as_slice());
            assert(self.result@ =~= before + tbl[i as int]);
            i = i + 1;
        }
        assert(tbl.take(i as int) =~= tbl);
        write_uleb(&mut self.result, self.args.len() as u64);
        let mut ty_encode: Vec<u8> = Vec::new();
        match self.encode_list(&mut ty_encode, &self.args) {
            Err(e) => {
                return Err(e);
            },
            Ok(_) => {},
        }
        self.result.append(&mut ty_encode);
        Ok(())
    }

    /// The table index recorded for `t`.
    fn find_index(&self, t: &Type) -> (r: Option<i32>)
        ensures
            r == map_get(self.map(), t@),
    {
        let mut i: usize = self.type_map.len();
        assert(self.map().take(i as int) =~= self.map());
        while i > 0
            invariant
                i <= self.type_map@.len(),
                self.map().len() == self.type_map@.len(),
                map_get(self.map(), t@) == map_get(self.map().take(i as int), t@),
            decreases i,
        {
            let ghost pre = self.map().take(i as int);
            assert(pre.drop_last() =~= self.map().take(i - 1));
            assert(pre.last() == (self.type_map@[i - 1].0@, self.type_map@[i - 1].1));
            if self.type_map[i - 1].0.eq_type(t) {
                return Some(self.type_map[i - 1].1);
            }
            i = i - 1;
        }
        None
    }

    /// Appends how `t` is referred to, not looking through variables.
    fn encode_direct(&self, buf: &mut Vec<u8>, t: &Type) -> (r: Result<(), Error>)
        ensures
            match r {
                Ok(_) => direct_ref(self.map(), t@) is Ok && final(buf)@ == old(buf)@ + direct_ref(self.map(), t@).unwrap(),
                Err(e) => direct_ref(self.map(), t@) == Err::<Seq<u8>, Error>(e) && final(buf)@ == old(buf)@,
            },
    {
        if primitive(t) {
            write_sleb(buf, type_opcode(t));
            return Ok(());
        }
        match self.find_index(t) {
            Some(idx) => {
                write_sleb(buf, idx as i64);
                Ok(())
            },
            None => match t {
                Type::Var(_) => Err(Error::VarTypeNotFound),
                _ => Err(Error::TypeNotFound),
            },
        }
    }

    /// Appends how `t` is referred to in the message.
    fn encode(&self, buf: &mut Vec<u8>, t: &Type) -> (r: Result<(), Error>)
        ensures
            match r {
                Ok(_) => encode_ref(self.env(), self.map(), t@) is Ok && final(buf)@ == old(buf)@ + encode_ref(self.env(), self.map(), t@).unwrap(),
                Err(e) => encode_ref(self.env(), self.map(), t@) == Err::<Seq<u8>, Error>(e) && final(buf)@ == old(buf)@,
            },
    {
        if let Type::Var(id) = t {
            match self.env.rec_find_type(id) {
                Err(e) => {
                    return Err(e);
                },
                Ok(actual) => {
                    if primitive(actual) {
                        return self.encode_direct(buf, actual);
                    }
                },
            }
        }
        self.encode_direct(buf, t)
    }

    /// Adds the type table entries that `t` needs.
    fn build_type(&mut self, t: &Type) -> (r: Result<(), Error>)
        ensures
            final(self).table() == build(old(self).env(), old(self).state(), t@).0.table,
            final(self).map() == build(old(self).env(), old(self).state(), t@).0.map,
            r == build(old(self).env(), old(self).state(), t@).1,
            final(self).env() == old(self).env(),
            final(self).args() == old(self).args(),
            final(self).result() == old(self).result(),
        decreases unmapped(old(self).env(), old(self).map()), t@, children(t@).len() + 2,
    {
        let ghost env = self.env();
        let ghost st0 = self.state();
        if self.find_index(t).is_some() {
            return Ok(());
        }
        let actual: Type = match t {
            Type::Var(id) => match self.env.rec_find_type(id) {
                Ok(a) => a.deep_clone(),
                Err(e) => {
                    return Err(e);
                },
            },
            _ => t.deep_clone(),
        };
        if primitive(&actual) {
            return Ok(());
        }
        let idx = self.type_table.len();
        let key = t.deep_clone();
        self.type_map.push((key, idx as i32));
        self.type_table.push(Vec::new());
        proof {
            lemma_unmapped_push(env, st0.map, t@, idx as i32);
            assert(self.map() =~= st0.map.push((t@, idx as i32)));
            assert(self.table() =~= st0.table.push(Seq::empty()));
            assert(self.args() =~= old(self).args());
        }
        let ghost st1 = self.state();
        match self.build_children(&actual) {
            Err(e) => {
                return Err(e);
            },
            Ok(_) => {},
        }
        let ghost st2 = self.state();
        let mut buf: Vec<u8> = Vec::new();
        match self.encode_entry(&mut buf, &actual) {
            Err(e) => {
                return Err(e);
            },
            Ok(_) => {},
        }
        assert(buf@ =~= entry_bytes(env, st2.map, actual@).unwrap());
        proof {
            lemma_build_children_extends(env, st1, actual@, 0);
        }
        let ghost tbl = self.type_table@;
        self.type_table.set(idx, buf);
        assert(self.type_table@ == tbl.update(idx as int, buf));
        proof {
            assert(self.table() =~= st2.table.update(idx as int, entry_bytes(env, st2.map, actual@).unwrap()));
            assert(self.args() =~= old(self).args());
        }
        Ok(())
    }

    /// Adds the type table entries that the components of `parent` need, one
    /// component after the other.
    fn build_children(&mut self, parent: &Type) -> (r: Result<(), Error>)
        ensures
            final(self).table() == build_children(old(self).env(), old(self).state(), parent@, 0).0.table,
            final(self).map() == build_children(old(self).env(), old(self).state(), parent@, 0).0.map,
            r == build_children(old(self).env(), old(self).state(), parent@, 0).1,
            final(self).env() == old(self).env(),
            final(self).args() == old(self).args(),
            final(self).result() == old(self).result(),
        decreases unmapped(old(self).env(), old(self).map()), parent@, children(parent@).len() + 1,
    {
        let ghost env = self.env();
        let ghost st0 = self.state();
        let ghost p = parent@;
        proof {
            lemma_view_lists(*parent);
        }
        match parent {
            Type::Opt(b) | Type::Vec(b) => {
                proof {
                    lemma_children_decrease(p, 0);
                }
                assert(children(p)[0] == b@);
                proof {
                    lemma_build_children_step(env, st0, p, 0);
                }
                self.build_type(b)
            },
            Type::Record(fs) | Type::Variant(fs) => {
                let mut i: usize = 0;
                while i < fs.len()
                    invariant
                        i <= fs@.len(),
                        children(p).len() == fs@.len(),
                        forall|j: int| 0 <= j < fs@.len() ==> children(p)[j] == #[trigger] fs@[j].ty@,
                        self.env() == env,
                        self.args() == old(self).args(),
                        self.result() == old(self).result(),
                        st0 == old(self).state(),
                        env == old(self).env(),
                        p == parent@,
                        build_children(env, st0, p, 0) == build_children(env, self.state(), p, i as nat),
                        unmapped(env, self.map()) <= unmapped(env, st0.map),
                    decreases fs@.len() - i,
                {
                    let ghost before = self.state();
                    let ghost child = fs@[i as int].ty@;
                    proof {
                        lemma_children_decrease(p, i as int);
                        lemma_build_children_step(env, before, p, i as nat);
                    }
                    let rr = self.build_type(&fs[i].ty);
                    match rr {
                        Err(e) => {
                            return Err(e);
                        },
                        Ok(_) => {},
                    }
                    i = i + 1;
                }
                Ok(())
            },
            Type::Service(ms) => {
                let mut i: usize = 0;
                while i < ms.len()
                    invariant
                        i <= ms@.len(),
                        children(p).len() == ms@.len(),
                        forall|j: int| 0 <= j < ms@.len() ==> children(p)[j] == #[trigger] ms@[j].1@,
                        self.env() == env,
                        self.args() == old(self).args(),
                        self.result() == old(self).result(),
                        st0 == old(self).state(),
                        env == old(self).env(),
                        p == parent@,
                        build_children(env, st0, p, 0) == build_children(env, self.state(), p, i as nat),
                        unmapped(env, self.map()) <= unmapped(env, st0.map),
                    decreases ms@.len() - i,
                {
                    let ghost before = self.state();
                    let ghost child = ms@[i as int].1@;
                    proof {
                        lemma_children_decrease(p, i as int);
                        lemma_build_children_step(env, before, p, i as nat);
                    }
                    match self.build_type(&ms[i].1) {
                        Err(e) => {
                            return Err(e);
                        },
                        Ok(_) => {},
                    }
                    i = i + 1;
                }
                Ok(())
            },
            Type::Func(f) => {
                let ghost na = f.args@.len();
                let ghost nr = f.rets@.len();
                assert(children(p).len() == na + nr + nr);
                let mut i: usize = 0;
                while i < f.args.len()
                    invariant
                        i <= na,
                        na == f.args@.len(),
                        nr == f.rets@.len(),
                        children(p).len() == na + nr + nr,
                        forall|j: int| 0 <= j < na ==> children(p)[j] == #[trigger] f.args@[j]@,
                        self.env() == env,
                        self.args() == old(self).args(),
                        self.result() == old(self).result(),
                        st0 == old(self).state(),
                        env == old(self).env(),
                        p == parent@,
                        build_children(env, st0, p, 0) == build_children(env, self.state(), p, i as nat),
                        unmapped(env, self.map()) <= unmapped(env, st0.map),
                    decreases na - i,
                {
                    let ghost before = self.state();
                    let ghost child = f.args@[i as int]@;
                    proof {
                        lemma_children_decrease(p, i as int);
                        lemma_build_children_step(env, before, p, i as nat);
                    }
                    match self.build_type(&f.args[i]) {
                        Err(e) => {
                            return Err(e);
                        },
                        Ok(_) => {},
                    }
                    i = i + 1;
                }
                let mut pass: usize = 0;
                while pass < 2
                    invariant
                        pass <= 2,
                        na == f.args@.len(),
                        nr == f.rets@.len(),
                        children(p).len() == na + nr + nr,
                        forall|j: int| 0 <= j < nr ==> children(p)[na + j] == #[trigger] f.rets@[j]@,
                        forall|j: int| 0 <= j < nr ==> children(p)[na + nr + j] == #[trigger] f.rets@[j]@,
                        self.env() == env,
                        self.args() == old(self).args(),
                        self.result() == old(self).result(),
                        st0 == old(self).state(),
                        env == old(self).env(),
                        p == parent@,
                        build_children(env, st0, p, 0) == build_children(env, self.state(), p, (if pass == 0 { na } else if pass == 1 { na + nr } else { na + nr + nr }) as nat),
                        unmapped(env, self.map()) <= unmapped(env, st0.map),
                    decreases 2 - pass,
                {
                    let ghost base = if pass == 0 { na } else { na + nr };
                    let mut k: usize = 0;
                    while k < f.rets.len()
                        invariant
                            k <= nr,
                            pass < 2,
                            base == (if pass == 0 { na } else { na + nr }),
                            na == f.args@.len(),
                            nr == f.rets@.len(),
                            children(p).len() == na + nr + nr,
                            forall|j: int| 0 <= j < nr ==> children(p)[na + j] == #[trigger] f.rets@[j]@,
                            forall|j: int| 0 <= j < nr ==> children(p)[na + nr + j] == #[trigger] f.rets@[j]@,
                            self.env() == env,
                            self.args() == old(self).args(),
                            self.result() == old(self).result(),
                            st0 == old(self).state(),
                        env == old(self).env(),
                        p == parent@,
                        build_children(env, st0, p, 0) == build_children(env, self.state(), p, (base + k) as nat),
                            unmapped(env, self.map()) <= unmapped(env, st0.map),
                        decreases nr - k,
                    {
                        let ghost before = self.state();
                        let ghost child = f.rets@[k as int]@;
                        proof {
                            assert(children(p)[base + k] == child) by {
                                if pass == 0 {
                                    assert(children(p)[na + k] == f.rets@[k as int]@);
                                } else {
                                    assert(children(p)[na + nr + k] == f.rets@[k as int]@);
                                }
                            }
                            lemma_children_decrease(p, base + k);
                            lemma_build_children_step(env, before, p, (base + k) as nat);
                        }
                        match self.build_type(&f.rets[k]) {
                            Err(e) => {
                                return Err(e);
                            },
                            Ok(_) => {},
                        }
                        k = k + 1;
                    }
                    pass = pass + 1;
                }
                Ok(())
            },
            _ => Ok(()),
        }
    }

    /// Appends the references to a list of types.
    fn encode_list(&self, buf: &mut Vec<u8>, ts: &Vec<Type>) -> (r: Result<(), Error>)
        ensures
            ({
                let tv = types_model(ts@);
                match r {
                    Ok(_) => encode_refs(self.env(), self.map(), tv) is Ok && final(buf)@ == old(buf)@ + encode_refs(self.env(), self.map(), tv).unwrap(),
                    Err(e) => encode_refs(self.env(), self.map(), tv) == Err::<Seq<u8>, Error>(e),
                }
            }),
    {
        let ghost tv = types_model(ts@);
        let mut i: usize = 0;
        assert(tv.take(0) =~= Seq::<IdlType>::empty());
        while i < ts.len()
            invariant
                i <= ts@.len(),
                tv == types_model(ts@),
                encode_refs(self.env(), self.map(), tv.take(i as int)) is Ok,
                buf@ == old(buf)@ + encode_refs(self.env(), self.map(), tv.take(i as int)).unwrap(),
            decreases ts@.len() - i,
        {
            let ghost before = buf@;
            assert(tv.take(i + 1).drop_last() =~= tv.take(i as int));
            let r = self.encode(buf, &ts[i]);
            match r {
                Err(e) => {
                    proof {
                        lemma_encode_refs_prefix(self.env(), self.map(), tv, i + 1);
                    }
                    return Err(e);
                },
                Ok(_) => {},
            }
            i = i + 1;
        }
        assert(tv.take(i as int) =~= tv);
        Ok(())
    }

    /// Appends the labels and type references of a list of fields.
    fn encode_field_list(&self, buf: &mut Vec<u8>, fs: &Vec<Field>) -> (r: Result<(), Error>)
        ensures
            ({
                let fv = fields_model(fs@);
                match r {
                    Ok(_) => encode_fields(self.env(), self.map(), fv) is Ok && final(buf)@ == old(buf)@ + encode_fields(self.env(), self.map(), fv).unwrap(),
                    Err(e) => encode_fields(self.env(), self.map(), fv) == Err::<Seq<u8>, Error>(e),
                }
            }),
    {
        let ghost fv = fields_model(fs@);
        let mut i: usize = 0;
        assert(fv.take(0) =~= Seq::<(u32, IdlType)>::empty());
        while i < fs.len()
            invariant
                i <= fs@.len(),
                fv == fields_model(fs@),
                encode_fields(self.env(), self.map(), fv.take(i as int)) is Ok,
                buf@ == old(buf)@ + encode_fields(self.env(), self.map(), fv.take(i as int)).unwrap(),
            decreases fs@.len() - i,
        {
            assert(fv.take(i + 1).drop_last() =~= fv.take(i as int));
            write_uleb(buf, fs[i].id as u64);
            let r = self.encode(buf, &fs[i].ty);
            match r {
                Err(e) => {
                    proof {
                        lemma_encode_fields_prefix(self.env(), self.map(), fv, i + 1);
                    }
                    return Err(e);
                },
                Ok(_) => {},
            }
            i = i + 1;
        }
        assert(fv.take(i as int) =~= fv);
        Ok(())
    }

    /// Appends the names and type references of a list of methods.
    fn encode_method_list(&self, buf: &mut Vec<u8>, ms: &Vec<(Vec<u8>, Type)>) -> (r: Result<(), Error>)
        ensures
            ({
                let mv = methods_model(ms@);
                match r {
                    Ok(_) => encode_methods(self.env(), self.map(), mv) is Ok && final(buf)@ == old(buf)@ + encode_methods(self.env(), self.map(), mv).unwrap(),
                    Err(e) => encode_methods(self.env(), self.map(), mv) == Err::<Seq<u8>, Error>(e),
                }
            }),
    {
        let ghost mv = methods_model(ms@);
        let mut i: usize = 0;
        assert(mv.take(0) =~= Seq::<(Seq<u8>, IdlType)>::empty());
        while i < ms.len()
            invariant
                i <= ms@.len(),
                mv == methods_model(ms@),
                encode_methods(self.env(), self.map(), mv.take(i as int)) is Ok,
                buf@ == old(buf)@ + encode_methods(self.env(), self.map(), mv.take(i as int)).unwrap(),
            decreases ms@.len() - i,
        {
            assert(mv.take(i + 1).drop_last() =~= mv.take(i as int));
            let name = &ms[i].0;
            write_uleb(buf, name.len() as u64);
            let ghost before = buf@;
            buf.extend_from_slice(name.as_slice());
            assert(buf@ =~= before + name@);
            let r = self.encode(buf, &ms[i].1);
            match r {
                Err(e) => {
                    proof {
                        lemma_encode_methods_prefix(self.env(), self.map(), mv, i + 1);
                    }
                    return Err(e);
                },
                Ok(_) => {},
            }
            i = i + 1;
        }
        assert(mv.take(i as int) =~= mv);
        Ok(())
    }

    /// Appends the function modes.
    fn encode_mode_list(buf: &mut Vec<u8>, modes: &Vec<FuncMode>)
        ensures
            final(buf)@ == old(buf)@ + encode_modes(modes@),
    {
        let mut i: usize = 0;
        assert(modes@.take(0) =~= Seq::<FuncMode>::empty());
        while i < modes.len()
            invariant
                i <= modes@.len(),
                buf@ == old(buf)@ + encode_modes(modes@.take(i as int)),
            decreases modes@.len() - i,
        {
            assert(modes@.take(i + 1).drop_last() =~= modes@.take(i as int));
            let code: i64 = match modes[i] {
                FuncMode::Query => 1,
                FuncMode::Oneway => 2,
                FuncMode::CompositeQuery => 3,
            };
            write_sleb(buf, code);
            i = i + 1;
        }
        assert(modes@.take(i as int) =~= modes@);
    }

    /// Appends the type table entry of a composite type.
    #[verifier::spinoff_prover]
    #[verifier::rlimit(40)]
    fn encode_entry(&self, buf: &mut Vec<u8>, t: &Type) -> (r: Result<(), Error>)
        ensures
            match r {
                Ok(_) => entry_bytes(self.env(), self.map(), t@) is Ok && final(buf)@ == old(buf)@ + entry_bytes(self.env(), self.map(), t@).unwrap(),
                Err(e) => entry_bytes(self.env(), self.map(), t@) == Err::<Seq<u8>, Error>(e),
            },
    {
        proof {
            lemma_view_lists(*t);
        }
        match t {
            Type::Opt(b) | Type::Vec(b) => {
                write_sleb(buf, type_opcode(t));
                self.encode(buf, b)
            },
            Type::Record(fs) | Type::Variant(fs) => {
                write_sleb(buf, type_opcode(t));
                write_uleb(buf, fs.len() as u64);
                let ghost fv = fields_model(fs@);
                assert(t@ == IdlType::Record(fv) || t@ == IdlType::Variant(fv));
                self.encode_field_list(buf, fs)
            },
            Type::Service(ms) => {
                write_sleb(buf, type_opcode(t));
                write_uleb(buf, ms.len() as u64);
                let ghost mv = methods_model(ms@);
                assert(t@ == IdlType::Service(mv));
                self.encode_method_list(buf, ms)
            },
            Type::Func(f) => {
                write_sleb(buf, type_opcode(t));
                write_uleb(buf, f.args.len() as u64);
                let ghost av = types_model(f.args@);
                let ghost rv = types_model(f.rets@);
                assert(t@ == IdlType::Func(f.modes@, av, rv));
                self.encode_list(buf, &f.args)?;
                write_uleb(buf, f.rets.len() as u64);
                self.encode_list(buf, &f.rets)?;
                write_uleb(buf, f.modes.len() as u64);
                Self::encode_mode_list(buf, &f.modes);
                Ok(())
            },
            _ => Ok(()),
        }
    }
}

} // verus!
