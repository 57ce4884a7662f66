use candid::builder::IDLBuilder;
use candid::value::{IDLField, IDLValue};

const MAGIC: [u8; 4] = [0x44, 0x49, 0x44, 0x4c];

fn message(rest: &[u8]) -> Vec<u8> {
    let mut m = MAGIC.to_vec();
    m.extend_from_slice(rest);
    m
}

#[test]
fn no_arguments() {
    let mut b = IDLBuilder::new();
    assert_eq!(b.serialize_to_vec().unwrap(), message(&[0x00, 0x00]));
}

#[test]
fn bool_argument() {
    let mut b = IDLBuilder::new();
    b.arg(&true).unwrap();
    assert_eq!(b.serialize_to_vec().unwrap(), message(&[0x00, 0x01, 0x7e, 0x01]));
}

#[test]
fn nat8_argument() {
    let mut b = IDLBuilder::new();
    b.arg(&42u8).unwrap();
    assert_eq!(b.serialize_to_vec().unwrap(), message(&[0x00, 0x01, 0x7b, 0x2a]));
}

#[test]
fn text_argument() {
    let mut b = IDLBuilder::new();
    b.arg(&String::from("hello")).unwrap();
    assert_eq!(
        b.serialize_to_vec().unwrap(),
        message(&[0x00, 0x01, 0x71, 0x05, b'h', b'e', b'l', b'l', b'o'])
    );
}

#[test]
fn several_arguments_chain() {
    let mut b = IDLBuilder::new();
    b.arg(&1u16).unwrap().arg(&-1i32).unwrap();
    assert_eq!(
        b.serialize_to_vec().unwrap(),
        message(&[0x00, 0x02, 0x7a, 0x75, 0x01, 0x00, 0xff, 0xff, 0xff, 0xff])
    );
}

#[test]
fn big_numbers_null_and_unit() {
    let mut b = IDLBuilder::new();
    b.arg(&300u128).unwrap();
    b.arg(&-1i128).unwrap();
    b.arg(&()).unwrap();
    b.arg(&7u64).unwrap();
    b.arg(&-2i8).unwrap();
    b.arg(&-2i16).unwrap();
    b.arg(&-2i64).unwrap();
    b.arg(&9u32).unwrap();
    let mut want = vec![0x00, 0x08, 0x7d, 0x7c, 0x7f, 0x78, 0x77, 0x76, 0x74, 0x79];
    want.extend_from_slice(&[0xac, 0x02, 0x7f]);
    want.extend_from_slice(&[7, 0, 0, 0, 0, 0, 0, 0]);
    want.extend_from_slice(&[0xfe]);
    want.extend_from_slice(&[0xfe, 0xff]);
    want.extend_from_slice(&[0xfe, 0xff, 0xff, 0xff, 0xff, 0xff, 0xff, 0xff]);
    want.extend_from_slice(&[9, 0, 0, 0]);
    assert_eq!(b.serialize_to_vec().unwrap(), message(&want));
}

#[test]
fn optional_argument_gets_a_table_entry() {
    let mut b = IDLBuilder::new();
    b.arg(&Some(42u8)).unwrap();
    assert_eq!(
        b.serialize_to_vec().unwrap(),
        message(&[0x01, 0x6e, 0x7b, 0x01, 0x00, 0x01, 0x2a])
    );
}

#[test]
fn vector_argument() {
    let mut b = IDLBuilder::new();
    b.arg(&vec![1u8, 2u8]).unwrap();
    assert_eq!(
        b.serialize_to_vec().unwrap(),
        message(&[0x01, 0x6d, 0x7b, 0x01, 0x00, 0x02, 0x01, 0x02])
    );
}

#[test]
fn nested_composite_types_each_get_an_entry() {
    let mut b = IDLBuilder::new();
    b.arg(&Some(Vec::<u8>::new())).unwrap();
    assert_eq!(
        b.serialize_to_vec().unwrap(),
        message(&[0x02, 0x6e, 0x01, 0x6d, 0x7b, 0x01, 0x00, 0x01, 0x00])
    );
}

#[test]
fn a_repeated_type_is_entered_once() {
    let mut b = IDLBuilder::new();
    b.arg(&Some(1u8)).unwrap();
    b.arg(&None::<u8>).unwrap();
    assert_eq!(
        b.serialize_to_vec().unwrap(),
        message(&[0x01, 0x6e, 0x7b, 0x02, 0x00, 0x00, 0x01, 0x01, 0x00])
    );
}

#[test]
fn record_value() {
    let mut b = IDLBuilder::new();
    let v = IDLValue::Record(vec![
        IDLField { id: 0, val: IDLValue::Nat8(1) },
        IDLField { id: 1, val: IDLValue::Bool(true) },
    ]);
    b.value_arg(&v).unwrap();
    assert_eq!(
        b.serialize_to_vec().unwrap(),
        message(&[0x01, 0x6c, 0x02, 0x00, 0x7b, 0x01, 0x7e, 0x01, 0x00, 0x01, 0x01])
    );
}

#[test]
fn variant_value() {
    let mut b = IDLBuilder::new();
    let v = IDLValue::Variant(Box::new(IDLField { id: 5, val: IDLValue::Null }), 0);
    b.value_arg(&v).unwrap();
    assert_eq!(
        b.serialize_to_vec().unwrap(),
        message(&[0x01, 0x6b, 0x01, 0x05, 0x7f, 0x01, 0x00, 0x00])
    );
}

#[test]
fn empty_vector_value_is_a_vector_of_empty() {
    let mut b = IDLBuilder::new();
    b.value_arg(&IDLValue::Vec(vec![])).unwrap();
    assert_eq!(
        b.serialize_to_vec().unwrap(),
        message(&[0x01, 0x6d, 0x6f, 0x01, 0x00, 0x00])
    );
}

#[test]
fn vector_value_takes_its_first_element_type() {
    let mut b = IDLBuilder::new();
    b.value_arg(&IDLValue::Vec(vec![IDLValue::Int16(1), IDLValue::Int16(-1)])).unwrap();
    assert_eq!(
        b.serialize_to_vec().unwrap(),
        message(&[0x01, 0x6d, 0x76, 0x01, 0x00, 0x02, 0x01, 0x00, 0xff, 0xff])
    );
}

#[test]
fn blob_principal_service_and_function_values() {
    let mut b = IDLBuilder::new();
    b.value_arg(&IDLValue::Blob(vec![7, 8])).unwrap();
    b.value_arg(&IDLValue::Principal(vec![0xab])).unwrap();
    b.value_arg(&IDLValue::Service(vec![0xcd])).unwrap();
    b.value_arg(&IDLValue::Func(vec![0xef], String::from("m"))).unwrap();
    let want = [
        0x03, 0x6d, 0x7b, 0x69, 0x00, 0x6a, 0x00, 0x00, 0x00, // table
        0x04, 0x00, 0x68, 0x01, 0x02, // argument types
        0x02, 7, 8, // blob
        0x01, 0x01, 0xab, // principal
        0x01, 0x01, 0xcd, // service
        0x01, 0x01, 0x01, 0xef, 0x01, b'm', // function
    ];
    assert_eq!(b.serialize_to_vec().unwrap(), message(&want));
}

#[test]
fn option_values() {
    let mut b = IDLBuilder::new();
    b.value_arg(&IDLValue::OptNone).unwrap();
    b.value_arg(&IDLValue::Opt(Box::new(IDLValue::Null))).unwrap();
    b.value_arg(&IDLValue::Reserved).unwrap();
    assert_eq!(
        b.serialize_to_vec().unwrap(),
        message(&[0x01, 0x6e, 0x7f, 0x03, 0x00, 0x00, 0x70, 0x00, 0x01])
    );
}

#[test]
fn scalar_values() {
    let mut b = IDLBuilder::new();
    b.value_arg(&IDLValue::Text(String::from("a"))).unwrap();
    b.value_arg(&IDLValue::Int(-1)).unwrap();
    b.value_arg(&IDLValue::Nat(128)).unwrap();
    b.value_arg(&IDLValue::Nat32(1)).unwrap();
    b.value_arg(&IDLValue::Nat64(2)).unwrap();
    b.value_arg(&IDLValue::Int8(-1)).unwrap();
    b.value_arg(&IDLValue::Int32(3)).unwrap();
    b.value_arg(&IDLValue::Int64(-1)).unwrap();
    b.value_arg(&IDLValue::Nat16(5)).unwrap();
    let mut want = vec![0x00, 0x09, 0x71, 0x7c, 0x7d, 0x79, 0x78, 0x77, 0x75, 0x74, 0x7a];
    want.extend_from_slice(&[0x01, b'a', 0x7f, 0x80, 0x01, 1, 0, 0, 0, 2, 0, 0, 0, 0, 0, 0, 0]);
    want.extend_from_slice(&[0xff, 3, 0, 0, 0, 0xff, 0xff, 0xff, 0xff, 0xff, 0xff, 0xff, 0xff, 5, 0]);
    assert_eq!(b.serialize_to_vec().unwrap(), message(&want));
}

#[test]
fn serializing_twice_appends_the_type_part_again() {
    let mut b = IDLBuilder::new();
    b.arg(&true).unwrap();
    let first = b.serialize_to_vec().unwrap();
    assert_eq!(first, message(&[0x00, 0x01, 0x7e, 0x01]));
    let second = b.serialize_to_vec().unwrap();
    assert_eq!(second, message(&[0x00, 0x01, 0x7e, 0x00, 0x01, 0x7e, 0x01]));
}

#[test]
fn serialize_appends_to_the_writer() {
    let mut b = IDLBuilder::new();
    b.arg(&true).unwrap();
    let mut out = vec![0xaa];
    b.serialize(&mut out).unwrap();
    let mut want = vec![0xaa];
    want.extend_from_slice(&message(&[0x00, 0x01, 0x7e, 0x01]));
    assert_eq!(out, want);
}

#[test]
fn reserving_value_capacity_changes_nothing() {
    let mut b = IDLBuilder::new();
    b.arg(&3u8).unwrap();
    b.try_reserve_value_serializer_capacity(4096).unwrap();
    assert_eq!(b.serialize_to_vec().unwrap(), message(&[0x00, 0x01, 0x7b, 0x03]));
}

#[test]
fn reserving_beyond_the_limit_fails_and_changes_nothing() {
    let mut b = IDLBuilder::new();
    b.arg(&3u8).unwrap();
    assert!(b.try_reserve_value_serializer_capacity(usize::MAX).is_err());
    assert_eq!(b.serialize_to_vec().unwrap(), message(&[0x00, 0x01, 0x7b, 0x03]));
}

#[test]
fn reserving_no_value_capacity_succeeds() {
    let mut b = IDLBuilder::new();
    b.arg(&3u8).unwrap();
    assert!(b.try_reserve_value_serializer_capacity(0).is_ok());
    assert_eq!(b.serialize_to_vec().unwrap(), message(&[0x00, 0x01, 0x7b, 0x03]));
}
