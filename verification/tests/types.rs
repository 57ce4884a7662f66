use candid::builder::IDLBuilder;
use candid::error::Error;
use candid::type_ser::TypeSerialize;
use candid::types::{Field, FuncMode, Function, Type, TypeEnv};
use candid::value::{IDLField, IDLValue};

const MAGIC: [u8; 4] = [0x44, 0x49, 0x44, 0x4c];

fn message(rest: &[u8]) -> Vec<u8> {
    let mut m = MAGIC.to_vec();
    m.extend_from_slice(rest);
    m
}

fn var(name: &str) -> Type {
    Type::Var(name.as_bytes().to_vec())
}

fn env_with(bindings: Vec<(&str, Type)>) -> TypeEnv {
    let mut env = TypeEnv::new();
    for (n, t) in bindings {
        env.insert(n.as_bytes().to_vec(), t);
    }
    env
}

fn list_type() -> Type {
    Type::Opt(Box::new(Type::Record(vec![
        Field { id: 0, ty: Type::Nat8 },
        Field { id: 1, ty: var("List") },
    ])))
}

fn type_part(ts: &mut TypeSerialize) -> Result<Vec<u8>, Error> {
    ts.serialize()?;
    Ok(ts.get_result().to_vec())
}

#[test]
fn primitive_types_need_no_entries() {
    let mut ts = TypeSerialize::new();
    ts.push_type(&Type::Text).unwrap();
    ts.push_type(&Type::Principal).unwrap();
    ts.push_type(&Type::Empty).unwrap();
    assert_eq!(type_part(&mut ts).unwrap(), vec![0x00, 0x03, 0x71, 0x68, 0x6f]);
}

#[test]
fn pushing_a_type_twice_adds_no_entry() {
    let mut ts = TypeSerialize::new();
    let t = Type::Opt(Box::new(Type::Nat8));
    ts.push_type(&t).unwrap();
    ts.push_type(&t).unwrap();
    assert_eq!(type_part(&mut ts).unwrap(), vec![0x01, 0x6e, 0x7b, 0x02, 0x00, 0x00]);
}

#[test]
fn earlier_entries_stay_put() {
    let mut ts = TypeSerialize::new();
    ts.push_type(&Type::Opt(Box::new(Type::Nat8))).unwrap();
    ts.push_type(&Type::Vec(Box::new(Type::Bool))).unwrap();
    assert_eq!(
        type_part(&mut ts).unwrap(),
        vec![0x02, 0x6e, 0x7b, 0x6d, 0x7e, 0x02, 0x00, 0x01]
    );
}

#[test]
fn function_type_entry() {
    let mut ts = TypeSerialize::new();
    let f = Type::Func(Function {
        modes: vec![FuncMode::Query, FuncMode::CompositeQuery],
        args: vec![Type::Nat, Type::Opt(Box::new(Type::Nat))],
        rets: vec![Type::Text],
    });
    ts.push_type(&f).unwrap();
    assert_eq!(
        type_part(&mut ts).unwrap(),
        vec![
            0x02, // entries
            0x6a, 0x02, 0x7d, 0x01, 0x01, 0x71, 0x02, 0x01, 0x03, // func
            0x6e, 0x7d, // opt nat
            0x01, 0x00,
        ]
    );
}

#[test]
fn service_type_entry() {
    let mut ts = TypeSerialize::new();
    let s = Type::Service(vec![(b"get".to_vec(), Type::Func(Function {
        modes: vec![FuncMode::Oneway],
        args: vec![],
        rets: vec![],
    }))]);
    ts.push_type(&s).unwrap();
    assert_eq!(
        type_part(&mut ts).unwrap(),
        vec![
            0x02,
            0x69, 0x01, 0x03, b'g', b'e', b't', 0x01, // service
            0x6a, 0x00, 0x00, 0x01, 0x02, // func
            0x01, 0x00,
        ]
    );
}

#[test]
fn recursive_type_through_a_variable() {
    let mut ts = TypeSerialize::new();
    ts.merge_env(&env_with(vec![("List", list_type())])).unwrap();
    ts.push_type(&var("List")).unwrap();
    assert_eq!(
        type_part(&mut ts).unwrap(),
        vec![0x02, 0x6e, 0x01, 0x6c, 0x02, 0x00, 0x7b, 0x01, 0x00, 0x01, 0x00]
    );
}

#[test]
fn variable_for_a_primitive_type_is_its_opcode() {
    let mut ts = TypeSerialize::new();
    ts.merge_env(&env_with(vec![("A", var("B")), ("B", Type::Nat16)])).unwrap();
    ts.push_type(&var("A")).unwrap();
    ts.push_type(&Type::Vec(Box::new(var("A")))).unwrap();
    assert_eq!(
        type_part(&mut ts).unwrap(),
        vec![0x01, 0x6d, 0x7a, 0x02, 0x7a, 0x00]
    );
}

#[test]
fn unbound_variable() {
    let mut ts = TypeSerialize::new();
    assert_eq!(ts.push_type(&var("X")), Err(Error::Unbound));
}

#[test]
fn cyclic_variables() {
    let mut ts = TypeSerialize::new();
    ts.merge_env(&env_with(vec![("a", var("b")), ("b", var("a"))])).unwrap();
    assert_eq!(ts.push_type(&var("a")), Err(Error::CyclicBinding));
}

#[test]
fn variable_bound_after_its_push_has_no_entry() {
    let mut ts = TypeSerialize::new();
    assert_eq!(ts.push_type(&var("X")), Err(Error::Unbound));
    ts.merge_env(&env_with(vec![("X", Type::Vec(Box::new(Type::Nat8)))])).unwrap();
    assert_eq!(ts.serialize(), Err(Error::VarTypeNotFound));
}

#[test]
fn failed_component_leaves_an_empty_entry() {
    let mut ts = TypeSerialize::new();
    let t = Type::Record(vec![Field { id: 0, ty: var("X") }]);
    assert_eq!(ts.push_type(&t), Err(Error::Unbound));
    assert_eq!(type_part(&mut ts).unwrap(), vec![0x01, 0x01, 0x00]);
}

#[test]
fn inconsistent_bindings_are_refused() {
    let mut ts = TypeSerialize::new();
    ts.merge_env(&env_with(vec![("A", Type::Nat8)])).unwrap();
    ts.merge_env(&env_with(vec![("A", Type::Nat8)])).unwrap();
    assert_eq!(
        ts.merge_env(&env_with(vec![("A", Type::Bool)])),
        Err(Error::InconsistentBinding)
    );
}

#[test]
fn insert_replaces_a_binding() {
    let mut env = TypeEnv::new();
    env.insert(b"A".to_vec(), Type::Nat8);
    env.insert(b"B".to_vec(), Type::Bool);
    env.insert(b"A".to_vec(), Type::Text);
    assert_eq!(env.len(), 2);
    assert!(env.find_type(&b"A".to_vec()).unwrap().eq_type(&Type::Text));
    assert!(env.rec_find_type(&b"B".to_vec()).unwrap().eq_type(&Type::Bool));
    assert_eq!(env.find_type(&b"C".to_vec()).err(), Some(Error::Unbound));
}

#[test]
fn deep_clone_and_equality() {
    let t = Type::Service(vec![(b"m".to_vec(), list_type())]);
    let c = t.deep_clone();
    assert!(t.eq_type(&c));
    assert!(!t.eq_type(&list_type()));
    assert!(!Type::Var(b"a".to_vec()).eq_type(&Type::Var(b"b".to_vec())));
}

#[test]
fn typed_recursive_value() {
    let mut b = IDLBuilder::new();
    let env = env_with(vec![("List", list_type())]);
    let v = IDLValue::Opt(Box::new(IDLValue::Record(vec![
        IDLField { id: 0, val: IDLValue::Nat8(5) },
        IDLField { id: 1, val: IDLValue::OptNone },
    ])));
    b.value_arg_with_type(&v, &env, &var("List")).unwrap();
    assert_eq!(
        b.serialize_to_vec().unwrap(),
        message(&[
            0x02, 0x6e, 0x01, 0x6c, 0x02, 0x00, 0x7b, 0x01, 0x00, 0x01, 0x00, // types
            0x01, 0x05, 0x00, // value
        ])
    );
}

#[test]
fn typed_variant_gets_the_index_of_its_case() {
    let mut b = IDLBuilder::new();
    let t = Type::Variant(vec![
        Field { id: 1, ty: Type::Null },
        Field { id: 5, ty: Type::Nat8 },
    ]);
    let v = IDLValue::Variant(Box::new(IDLField { id: 5, val: IDLValue::Nat8(7) }), 0);
    b.value_arg_with_type(&v, &TypeEnv::new(), &t).unwrap();
    assert_eq!(
        b.serialize_to_vec().unwrap(),
        message(&[0x01, 0x6b, 0x02, 0x01, 0x7f, 0x05, 0x7b, 0x01, 0x00, 0x01, 0x07])
    );
}

#[test]
fn typed_record_fills_optional_and_reserved_fields() {
    let mut b = IDLBuilder::new();
    let t = Type::Record(vec![
        Field { id: 0, ty: Type::Nat8 },
        Field { id: 1, ty: Type::Opt(Box::new(Type::Nat8)) },
        Field { id: 2, ty: Type::Reserved },
    ]);
    let v = IDLValue::Record(vec![
        IDLField { id: 0, val: IDLValue::Nat8(1) },
        IDLField { id: 0, val: IDLValue::Nat8(3) },
    ]);
    b.value_arg_with_type(&v, &TypeEnv::new(), &t).unwrap();
    assert_eq!(
        b.serialize_to_vec().unwrap(),
        message(&[
            0x02, 0x6c, 0x03, 0x00, 0x7b, 0x01, 0x01, 0x02, 0x70, 0x6e, 0x7b, // types
            0x01, 0x00, // argument
            0x03, 0x00, // value
        ])
    );
}

#[test]
fn typed_values_that_do_not_fit() {
    let mut b = IDLBuilder::new();
    let env = TypeEnv::new();
    assert_eq!(
        b.value_arg_with_type(&IDLValue::Bool(true), &env, &Type::Nat8).err(),
        Some(Error::TypeMismatch)
    );
    let rec = Type::Record(vec![Field { id: 0, ty: Type::Nat8 }, Field { id: 2, ty: Type::Bool }]);
    let v = IDLValue::Record(vec![IDLField { id: 0, val: IDLValue::Nat8(3) }]);
    assert_eq!(b.value_arg_with_type(&v, &env, &rec).err(), Some(Error::MissingField));
    let var_t = Type::Variant(vec![Field { id: 1, ty: Type::Null }]);
    let var_v = IDLValue::Variant(Box::new(IDLField { id: 9, val: IDLValue::Null }), 0);
    assert_eq!(b.value_arg_with_type(&var_v, &env, &var_t).err(), Some(Error::VariantFieldNotFound));
    assert_eq!(
        b.value_arg_with_type(&IDLValue::Null, &env, &var("Nowhere")).err(),
        Some(Error::Unbound)
    );
    assert_eq!(b.serialize_to_vec().unwrap(), message(&[0x00, 0x00]));
}

#[test]
fn typed_values_that_convert() {
    let mut b = IDLBuilder::new();
    let env = env_with(vec![("Byte", Type::Nat8)]);
    b.value_arg_with_type(&IDLValue::Blob(vec![1]), &env, &Type::Vec(Box::new(var("Byte")))).unwrap();
    b.value_arg_with_type(&IDLValue::Principal(vec![2]), &env, &Type::Service(vec![])).unwrap();
    b.value_arg_with_type(&IDLValue::Int32(9), &env, &Type::Reserved).unwrap();
    b.value_arg_with_type(&IDLValue::Reserved, &env, &Type::Opt(Box::new(Type::Bool))).unwrap();
    assert_eq!(
        b.serialize_to_vec().unwrap(),
        message(&[
            0x03, 0x6d, 0x7b, 0x69, 0x00, 0x6e, 0x7e, // types
            0x04, 0x00, 0x01, 0x70, 0x02, // arguments
            0x01, 0x01, 0x01, 0x01, 0x02, 0x00, // values
        ])
    );
    assert_eq!(
        b.value_arg_with_type(&IDLValue::Blob(vec![1]), &env, &Type::Vec(Box::new(Type::Bool))).err(),
        Some(Error::TypeMismatch)
    );
}

#[test]
fn conflicting_environment_for_a_typed_value() {
    let mut b = IDLBuilder::new();
    b.value_arg_with_type(&IDLValue::Nat8(1), &env_with(vec![("A", Type::Nat8)]), &var("A")).unwrap();
    assert_eq!(
        b.value_arg_with_type(&IDLValue::Bool(true), &env_with(vec![("A", Type::Bool)]), &var("A")).err(),
        Some(Error::InconsistentBinding)
    );
    assert_eq!(b.serialize_to_vec().unwrap(), message(&[0x00, 0x01, 0x7b, 0x01]));
}

#[test]
fn merging_the_same_bindings_again_changes_nothing() {
    let env = env_with(vec![("List", list_type()), ("B", Type::Bool)]);
    let mut ts = TypeSerialize::default();
    ts.merge_env(&env).unwrap();
    ts.merge_env(&env).unwrap();
    assert_eq!(ts.type_env().len(), 2);
    ts.push_type(&var("List")).unwrap();
    assert_eq!(
        type_part(&mut ts).unwrap(),
        vec![0x02, 0x6e, 0x01, 0x6c, 0x02, 0x00, 0x7b, 0x01, 0x00, 0x01, 0x00]
    );
}

#[test]
fn default_builder_is_empty() {
    let mut b = IDLBuilder::default();
    assert_eq!(b.serialize_to_vec().unwrap(), message(&[0x00, 0x00]));
}

#[test]
fn a_failed_merge_keeps_the_bindings_before_the_conflict_in_name_order() {
    let mut ts = TypeSerialize::new();
    ts.merge_env(&env_with(vec![("B", Type::Nat8)])).unwrap();
    // Given out of order, the bindings are still merged in the order of names.
    let other = env_with(vec![("B", Type::Text), ("A", Type::Bool)]);
    assert_eq!(ts.merge_env(&other), Err(Error::InconsistentBinding));
    assert_eq!(ts.type_env().len(), 2);
    ts.push_type(&var("A")).unwrap();
    assert_eq!(type_part(&mut ts).unwrap(), vec![0x00, 0x01, 0x7e]);
}

#[test]
fn names_are_ordered_byte_by_byte() {
    let mut env = TypeEnv::new();
    env.insert(b"ab".to_vec(), Type::Nat8);
    env.insert(b"a".to_vec(), Type::Bool);
    env.insert(b"b".to_vec(), Type::Text);
    let mut ts = TypeSerialize::new();
    ts.merge_env(&env).unwrap();
    // "a" < "ab" < "b": a conflict on "ab" comes after "a" was added.
    let mut base = TypeSerialize::new();
    base.merge_env(&env_with(vec![("ab", Type::Int)])).unwrap();
    assert_eq!(base.merge_env(&env), Err(Error::InconsistentBinding));
    assert_eq!(base.type_env().len(), 2);
    assert!(base.type_env().find_type(&b"a".to_vec()).unwrap().eq_type(&Type::Bool));
    assert_eq!(base.type_env().find_type(&b"b".to_vec()).err(), Some(Error::Unbound));
}

#[test]
fn typed_record_fills_a_missing_field_whose_type_is_a_variable() {
    let mut b = IDLBuilder::new();
    let env = env_with(vec![("O", Type::Opt(Box::new(Type::Nat8)))]);
    let t = Type::Record(vec![Field { id: 0, ty: Type::Nat8 }, Field { id: 1, ty: var("O") }]);
    let v = IDLValue::Record(vec![IDLField { id: 0, val: IDLValue::Nat8(3) }]);
    b.value_arg_with_type(&v, &env, &t).unwrap();
    assert_eq!(
        b.serialize_to_vec().unwrap(),
        message(&[
            0x02, 0x6c, 0x02, 0x00, 0x7b, 0x01, 0x01, 0x6e, 0x7b, // types
            0x01, 0x00, // argument
            0x03, 0x00, // value
        ])
    );
}

#[test]
fn missing_field_of_an_unbound_variable_type() {
    let mut b = IDLBuilder::new();
    let t = Type::Record(vec![Field { id: 1, ty: var("Nowhere") }]);
    let v = IDLValue::Record(vec![]);
    assert_eq!(b.value_arg_with_type(&v, &TypeEnv::new(), &t).err(), Some(Error::Unbound));
}
