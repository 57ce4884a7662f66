use candid::error::Error;
use candid::leb128::{encode_int, encode_nat};
use candid::value_ser::ValueSerializer;

fn unsigned(v: u128) -> Vec<u8> {
    let mut b = Vec::new();
    encode_nat(&mut b, v);
    b
}

fn signed(v: i128) -> Vec<u8> {
    let mut b = Vec::new();
    encode_int(&mut b, v);
    b
}

#[test]
fn unsigned_leb128_values() {
    assert_eq!(unsigned(0), vec![0x00]);
    assert_eq!(unsigned(127), vec![0x7f]);
    assert_eq!(unsigned(128), vec![0x80, 0x01]);
    assert_eq!(unsigned(300), vec![0xac, 0x02]);
    assert_eq!(unsigned(624485), vec![0xe5, 0x8e, 0x26]);
    let mut max = vec![0xff; 18];
    max.push(0x03);
    assert_eq!(unsigned(u128::MAX), max);
}

#[test]
fn signed_leb128_values() {
    assert_eq!(signed(0), vec![0x00]);
    assert_eq!(signed(-1), vec![0x7f]);
    assert_eq!(signed(63), vec![0x3f]);
    assert_eq!(signed(64), vec![0xc0, 0x00]);
    assert_eq!(signed(-64), vec![0x40]);
    assert_eq!(signed(-65), vec![0xbf, 0x7f]);
    assert_eq!(signed(-123456), vec![0xc0, 0xbb, 0x78]);
    let mut min = vec![0x80; 18];
    min.push(0x7e);
    assert_eq!(signed(i128::MIN), min);
}

#[test]
fn encode_appends_to_what_is_there() {
    let mut b = vec![9u8];
    encode_nat(&mut b, 128);
    encode_int(&mut b, -65);
    assert_eq!(b, vec![9, 0x80, 0x01, 0xbf, 0x7f]);
}

#[test]
fn fixed_width_numbers_are_little_endian() {
    let mut s = ValueSerializer::new();
    s.serialize_nat16(0x1234).unwrap();
    s.serialize_nat32(0xdead_beef).unwrap();
    s.serialize_nat64(0x0102_0304_0506_0708).unwrap();
    assert_eq!(
        s.get_result(),
        &[0x34, 0x12, 0xef, 0xbe, 0xad, 0xde, 8, 7, 6, 5, 4, 3, 2, 1][..]
    );
}

#[test]
fn signed_fixed_width_numbers_use_twos_complement() {
    let mut s = ValueSerializer::new();
    s.serialize_int8(-128).unwrap();
    s.serialize_int16(-2).unwrap();
    s.serialize_int32(-1).unwrap();
    s.serialize_int64(i64::MIN).unwrap();
    assert_eq!(
        s.get_result(),
        &[0x80, 0xfe, 0xff, 0xff, 0xff, 0xff, 0xff, 0, 0, 0, 0, 0, 0, 0, 0x80][..]
    );
}

#[test]
fn small_values() {
    let mut s = ValueSerializer::new();
    s.serialize_bool(true).unwrap();
    s.serialize_bool(false).unwrap();
    s.serialize_nat8(0xab).unwrap();
    s.serialize_null(()).unwrap();
    s.serialize_i128(-65).unwrap();
    s.serialize_u128(300).unwrap();
    assert_eq!(s.get_result(), &[1, 0, 0xab, 0xbf, 0x7f, 0xac, 0x02][..]);
}

#[test]
fn text_is_length_then_utf8() {
    let mut s = ValueSerializer::new();
    s.serialize_text("héllo").unwrap();
    assert_eq!(s.get_result(), &[6, b'h', 0xc3, 0xa9, b'l', b'l', b'o'][..]);
}

#[test]
fn principal_and_function_references() {
    let mut s = ValueSerializer::new();
    s.serialize_principal(&[0xab, 0xcd]).unwrap();
    assert_eq!(s.get_result(), &[1, 2, 0xab, 0xcd][..]);
    let mut f = ValueSerializer::new();
    f.serialize_function(&[0x01], "go").unwrap();
    assert_eq!(f.get_result(), &[1, 1, 1, 1, 2, b'g', b'o'][..]);
}

#[test]
fn empty_type_has_no_value() {
    let mut s = ValueSerializer::new();
    s.serialize_nat8(1).unwrap();
    assert_eq!(s.serialize_empty(), Err(Error::EmptyType));
    assert_eq!(s.get_result(), &[1][..]);
}

#[test]
fn options() {
    let mut s = ValueSerializer::new();
    s.serialize_option::<u8>(None).unwrap();
    s.serialize_option(Some(&7u8)).unwrap();
    assert_eq!(s.get_result(), &[0, 1, 7][..]);
}

#[test]
fn compounds() {
    let mut s = ValueSerializer::new();
    {
        let mut c = s.serialize_variant(3).unwrap();
        c.serialize_element(&true).unwrap();
    }
    {
        let mut c = s.serialize_vec(2).unwrap();
        c.serialize_element(&5u8).unwrap();
        c.serialize_element(&6u8).unwrap();
    }
    {
        let mut c = s.serialize_struct().unwrap();
        c.serialize_element(&7u16).unwrap();
        c.serialize_blob(&[9, 9]).unwrap();
    }
    assert_eq!(s.get_result(), &[3, 1, 2, 5, 6, 7, 0, 2, 9, 9][..]);
}

#[test]
fn raw_writes_and_blobs() {
    let mut s = ValueSerializer::new();
    s.write_leb128(300).unwrap();
    s.write(&[1, 2, 3]).unwrap();
    s.serialize_blob(&[4, 5]).unwrap();
    assert_eq!(s.get_result(), &[0xac, 0x02, 1, 2, 3, 2, 4, 5][..]);
}

#[test]
fn reserving_keeps_the_bytes() {
    let mut s = ValueSerializer::new();
    s.write(&[1, 2]).unwrap();
    s.try_reserve(1024).unwrap();
    assert_eq!(s.get_result(), &[1, 2][..]);
}

fn read_unsigned(b: &[u8]) -> (u128, usize) {
    let mut v: u128 = 0;
    let mut shift = 0;
    for (i, byte) in b.iter().enumerate() {
        v |= ((byte & 0x7f) as u128) << shift;
        if byte & 0x80 == 0 {
            return (v, i + 1);
        }
        shift += 7;
    }
    panic!("unterminated");
}

fn read_signed(b: &[u8]) -> (i128, usize) {
    let mut v: i128 = 0;
    let mut shift = 0;
    for (i, byte) in b.iter().enumerate() {
        v |= ((byte & 0x7f) as i128) << shift;
        shift += 7;
        if byte & 0x80 == 0 {
            if shift < 128 && byte & 0x40 != 0 {
                v |= -1i128 << shift;
            }
            return (v, i + 1);
        }
    }
    panic!("unterminated");
}

#[test]
fn leb128_reads_back() {
    for v in [0u128, 1, 127, 128, 255, 300, 16384, u64::MAX as u128, u128::MAX] {
        let b = unsigned(v);
        assert_eq!(read_unsigned(&b), (v, b.len()));
    }
    for v in [0i128, 1, -1, 63, 64, -64, -65, 8191, -8193, i128::MAX, i128::MIN] {
        let b = signed(v);
        assert_eq!(read_signed(&b), (v, b.len()));
    }
}

#[test]
fn little_endian_reads_back() {
    let mut s = ValueSerializer::new();
    s.serialize_nat16(0xbeef).unwrap();
    s.serialize_int64(-5).unwrap();
    let r = s.get_result();
    assert_eq!(u16::from_le_bytes([r[0], r[1]]), 0xbeef);
    let mut w = [0u8; 8];
    w.copy_from_slice(&r[2..10]);
    assert_eq!(i64::from_le_bytes(w), -5);
}

#[test]
fn default_serializer_is_empty() {
    let s = ValueSerializer::default();
    assert_eq!(s.get_result(), &[][..]);
}

#[test]
fn reserving_beyond_the_limit_fails() {
    let mut s = ValueSerializer::new();
    s.write(&[1, 2]).unwrap();
    assert!(s.try_reserve(usize::MAX).is_err());
    assert_eq!(s.get_result(), &[1, 2][..]);
}

#[test]
fn reserving_no_room_succeeds() {
    let mut s = ValueSerializer::new();
    s.write(&[7]).unwrap();
    assert!(s.try_reserve(0).is_ok());
    assert_eq!(s.get_result(), &[7][..]);
}
