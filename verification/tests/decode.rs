use serde_iop::de::Deserializer;
use serde_iop::error::Error;
use serde_iop::{from_bytes, to_bytes};
use serde_iop::value::{Kind, ScalarKind, Value};

fn text(s: &str) -> Value {
    Value::Text(s.to_owned())
}

fn some(v: Value) -> Value {
    Value::Optional(Some(Box::new(v)))
}

fn opt(k: Kind) -> Kind {
    Kind::Optional(Box::new(k))
}

fn seq(k: Kind) -> Kind {
    Kind::Repeated(Box::new(k))
}

fn scalar(k: ScalarKind) -> Kind {
    Kind::Scalar(k)
}

#[test]
fn test_struct() {
    let inner_kind = Kind::Record(vec![
        opt(scalar(ScalarKind::Bool)),
        opt(scalar(ScalarKind::Bool)),
        scalar(ScalarKind::Char),
    ]);
    let test_kind = Kind::Record(vec![scalar(ScalarKind::U32), seq(Kind::Text), inner_kind]);

    let test = Value::Record(vec![
        Value::U32(1),
        Value::Repeated(vec![text("a"), text("b")]),
        Value::Record(vec![
            some(Value::Bool(true)),
            Value::Optional(None),
            Value::Char('\n'),
        ]),
    ]);
    let expected_bytes = [
        // int:
        0x81, // INT1 | 1
        0x01, // value: 1
        // seq:
        0xE2, // REPEAT | 2
        0x02, 0x00, 0x00, 0x00, // len = 2
        // "a"
        0x00, // BLK1 | 0
        0x02, // len = 2
        b'a', b'\0', // "a"
        // "b"
        0x00, // BLK1 | 0
        0x02, // len = 2
        b'b', b'\0', // "b"
        // inner:
        0x43, // BLK4 | 3
        0x04, 0x00, 0x00, 0x00, // len: 4
        // v1:
        0x81, // INT1 | 1
        0x01, // value: 1
        // v2 is skipped
        // c:
        0x83, // INT1 | 3
        0x0A, // '\n'
    ];
    assert_eq!(to_bytes(&test).unwrap(), expected_bytes);
    assert_eq!(test, from_bytes(&test_kind, &expected_bytes).unwrap());
}

#[test]
fn test_basic() {
    let inner_kind = Kind::Record(vec![
        opt(scalar(ScalarKind::Bool)),
        Kind::Unit,
        Kind::Unit,
        opt(scalar(ScalarKind::Bool)),
        scalar(ScalarKind::Char),
    ]);
    let test_kind = Kind::Record(vec![
        scalar(ScalarKind::U32),
        seq(Kind::Text),
        Kind::Unit,
        inner_kind,
    ]);

    let test = Value::Record(vec![
        Value::U32(1),
        Value::Repeated(vec![text("a"), text("b")]),
        Value::Unit,
        Value::Record(vec![
            some(Value::Bool(true)),
            Value::Unit,
            Value::Unit,
            Value::Optional(None),
            Value::Char('\n'),
        ]),
    ]);
    let expected_bytes = [
        // int:
        0x81, // INT1 | 1
        0x01, // value: 1
        // seq:
        0xE2, // REPEAT | 2
        0x02, 0x00, 0x00, 0x00, // len = 2
        // "a"
        0x00, // BLK1 | 0
        0x02, // len = 2
        b'a', b'\0', // "a"
        // "b"
        0x00, // BLK1 | 0
        0x02, // len = 2
        b'b', b'\0', // "b"
        // inner:
        0x44, // BLK4 | 4
        0x04, 0x00, 0x00, 0x00, // len: 4
        // v1:
        0x81, // INT1 | 1
        0x01, // value: 1
        // v2 is skipped
        // c:
        0x85, // INT1 | 5
        0x0A, // '\n'
    ];
    assert_eq!(to_bytes(&test).unwrap(), expected_bytes);
    assert_eq!(test, from_bytes(&test_kind, &expected_bytes).unwrap());
}

#[test]
fn test_all_types() {
    let variant_a = || {
        Kind::Union(vec![
            scalar(ScalarKind::I32),
            scalar(ScalarKind::I8),
            Kind::Text,
        ])
    };
    let kind = Kind::Record(vec![
        scalar(ScalarKind::I32),
        scalar(ScalarKind::U32),
        scalar(ScalarKind::I8),
        scalar(ScalarKind::U8),
        scalar(ScalarKind::I16),
        scalar(ScalarKind::U16),
        scalar(ScalarKind::I64),
        scalar(ScalarKind::U64),
        seq(scalar(ScalarKind::U64)),
        seq(scalar(ScalarKind::U8)),
        Kind::Text,
        scalar(ScalarKind::I32),
        variant_a(),
        variant_a(),
        Kind::F64,
        scalar(ScalarKind::Bool),
        Kind::Unit,
    ]);

    let test = Value::Record(vec![
        Value::I32(42),
        Value::U32(5),
        Value::I8(120),
        Value::U8(230),
        Value::I16(540),
        Value::U16(2000),
        Value::I64(10000),
        Value::U64(20000),
        Value::Repeated(Vec::new()),
        Value::Repeated("foo".bytes().map(Value::U8).collect()),
        text("baré© \" foo ."),
        Value::I32(0x1),
        Value::Union(1, Box::new(Value::I8(42))),
        Value::Union(0, Box::new(Value::I32(1))),
        Value::F64(3.14159265f64.to_bits()),
        Value::Bool(true),
        Value::Unit,
    ]);
    let bytes = to_bytes(&test).unwrap();
    let unpacked = from_bytes(&kind, &bytes).unwrap();
    assert_eq!(test, unpacked);
}

#[test]
fn decode_required_i8_under_tag_0() {
    let mut de = Deserializer::from_bytes(&[0x80, 0x00]);
    de.set_tag(0);
    assert_eq!(de.deserialize_i8(), Ok(0));
    assert!(de.is_finished());
}

#[test]
fn decode_passes_over_a_lower_tag_before_a_required_field() {
    let bytes = [0x80, 0x00, 0x81, 0x01];
    let optional_second = Kind::Record(vec![scalar(ScalarKind::I8), opt(scalar(ScalarKind::I8))]);
    assert_eq!(
        from_bytes(&optional_second, &bytes),
        Ok(Value::Record(vec![Value::I8(1), Value::Optional(None)]))
    );
    let required_second = Kind::Record(vec![scalar(ScalarKind::I8), scalar(ScalarKind::I8)]);
    assert_eq!(from_bytes(&required_second, &bytes), Err(Error::InputTooShort));
}

#[test]
fn decode_required_field_behind_a_higher_tag_is_refused() {
    let kind = Kind::Record(vec![scalar(ScalarKind::I8), scalar(ScalarKind::I8)]);
    // tag 2 comes first, tag 1 after it
    assert_eq!(
        from_bytes(&kind, &[0x82, 0x05, 0x81, 0x01]),
        Err(Error::InvalidEncoding)
    );
}

#[test]
fn decode_trailing_bytes_are_refused() {
    let kind = Kind::Record(vec![scalar(ScalarKind::I8)]);
    assert_eq!(from_bytes(&kind, &[0x81, 0x01]), Ok(Value::Record(vec![Value::I8(1)])));
    assert_eq!(
        from_bytes(&kind, &[0x81, 0x01, 0x82, 0x07]),
        Err(Error::TrailingCharacters)
    );
    // a header alone is left over too
    assert_eq!(
        from_bytes(&Kind::Record(vec![opt(scalar(ScalarKind::I8))]), &[0x82]),
        Err(Error::TrailingCharacters)
    );
}

#[test]
fn decode_absent_optional_field_takes_nothing() {
    let kind = Kind::Record(vec![
        scalar(ScalarKind::U8),
        Kind::Unit,
        opt(scalar(ScalarKind::U8)),
    ]);
    assert_eq!(
        from_bytes(&kind, &[0x81, 0x09]),
        Ok(Value::Record(vec![Value::U8(9), Value::Unit, Value::Optional(None)]))
    );
}

#[test]
fn decode_optional_absent_then_required_present() {
    let kind = Kind::Record(vec![Kind::Unit, opt(scalar(ScalarKind::U8)), scalar(ScalarKind::U8)]);
    let value = Value::Record(vec![Value::Unit, Value::Optional(None), Value::U8(7)]);
    let bytes = to_bytes(&value).unwrap();
    assert_eq!(bytes, [0x83, 0x07]);
    assert_eq!(from_bytes(&kind, &bytes), Ok(value));
}

#[test]
fn decode_union_with_an_unknown_arm_is_refused() {
    let kind = Kind::Record(vec![Kind::Union(vec![scalar(ScalarKind::I8)])]);
    let value = Value::Record(vec![Value::Union(2, Box::new(Value::I8(42)))]);
    let bytes = to_bytes(&value).unwrap();
    assert_eq!(from_bytes(&kind, &bytes), Err(Error::InvalidEncoding));
}

#[test]
fn decode_without_a_tag_is_refused() {
    assert_eq!(from_bytes(&scalar(ScalarKind::I8), &[0x80, 0x00]), Err(Error::MissingTag));
    assert_eq!(from_bytes(&Kind::Unit, &[]), Ok(Value::Unit));
}

#[test]
fn decode_out_of_range_scalars_are_refused() {
    let u8_kind = Kind::Record(vec![scalar(ScalarKind::U8)]);
    assert_eq!(from_bytes(&u8_kind, &[0x81, 0xFF]), Err(Error::InvalidEncoding));
    assert_eq!(
        from_bytes(&u8_kind, &[0xA1, 0xFF, 0x00]),
        Ok(Value::Record(vec![Value::U8(255)]))
    );
    let char_kind = Kind::Record(vec![scalar(ScalarKind::Char)]);
    // a surrogate is no character
    assert_eq!(
        from_bytes(&char_kind, &[0xC1, 0x00, 0xD8, 0x00, 0x00]),
        Err(Error::InvalidEncoding)
    );
    // nor is a value of 2^32 or more
    assert_eq!(
        from_bytes(&char_kind, &[0x61, 0, 0, 0, 0, 1, 0, 0, 0]),
        Err(Error::InvalidEncoding)
    );
    let text_kind = Kind::Record(vec![Kind::Text]);
    assert_eq!(
        from_bytes(&text_kind, &[0x01, 0x02, 0xFF, 0x00]),
        Err(Error::InvalidEncoding)
    );
    let float_kind = Kind::Record(vec![Kind::F32]);
    assert_eq!(from_bytes(&float_kind, &[0x81, 0x00]), Err(Error::InvalidEncoding));
}

#[test]
fn decode_wide_integers_round_trip() {
    let kind = Kind::Record(vec![
        scalar(ScalarKind::I64),
        scalar(ScalarKind::U64),
        scalar(ScalarKind::U32),
        scalar(ScalarKind::I64),
        scalar(ScalarKind::I32),
    ]);
    let value = Value::Record(vec![
        Value::I64(-2147483649),
        Value::U64(u64::MAX),
        Value::U32(u32::MAX),
        Value::I64(i64::MIN),
        Value::I32(i32::MIN),
    ]);
    let bytes = to_bytes(&value).unwrap();
    assert_eq!(from_bytes(&kind, &bytes), Ok(value));
}

#[test]
fn decode_nested_record_ignores_what_follows_its_fields() {
    // the inner record has a field 2 that this reader does not know
    let kind = Kind::Record(vec![
        Kind::Record(vec![scalar(ScalarKind::I8)]),
        scalar(ScalarKind::I8),
    ]);
    let bytes = [
        0x41, 0x04, 0x00, 0x00, 0x00, // BLK4 | 1, len 4
        0x81, 0x05, // field 1
        0x82, 0x06, // field 2
        0x82, 0x07, // outer field 2
    ];
    assert_eq!(
        from_bytes(&kind, &bytes),
        Ok(Value::Record(vec![Value::Record(vec![Value::I8(5)]), Value::I8(7)]))
    );
}
