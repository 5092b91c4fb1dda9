use serde_iop::error::Error;
use serde_iop::ser::to_bytes;
use serde_iop::value::Value;

fn text(s: &str) -> Value {
    Value::Text(s.to_owned())
}

fn some(v: Value) -> Value {
    Value::Optional(Some(Box::new(v)))
}

#[test]
fn encode_record_with_sequence_and_nested_record() {
    let test = Value::Record(vec![
        Value::U32(1),
        Value::Repeated(vec![text("a"), text("b")]),
        Value::Record(vec![
            some(Value::Bool(true)),
            Value::Optional(None),
            Value::Char('\n'),
        ]),
    ]);
    let expected_bytes = [
        0x81, 0x01, // int
        0xE2, 0x02, 0x00, 0x00, 0x00, // seq: REPEAT | 2, len = 2
        0x00, 0x02, b'a', b'\0', // "a"
        0x00, 0x02, b'b', b'\0', // "b"
        0x43, 0x04, 0x00, 0x00, 0x00, // inner: BLK4 | 3, len 4
        0x81, 0x01, // v1
        0x83, 0x0A, // c
    ];
    assert_eq!(to_bytes(&test).unwrap(), expected_bytes);
}

#[test]
fn encode_union_is_a_frame_around_one_tagged_value() {
    let test = Value::Record(vec![Value::Union(2, Box::new(Value::I8(42)))]);
    assert_eq!(
        to_bytes(&test).unwrap(),
        [0x41, 0x02, 0x00, 0x00, 0x00, 0x82, 0x2A]
    );
}

#[test]
fn encode_empty_sequence_under_tag_2() {
    let test = Value::Record(vec![Value::Unit, Value::Repeated(vec![])]);
    assert_eq!(to_bytes(&test).unwrap(), [0xE2, 0x00, 0x00, 0x00, 0x00]);
}

#[test]
fn encode_skips_absent_optional_field() {
    let test = Value::Record(vec![Value::Unit, Value::Optional(None), Value::U8(7)]);
    assert_eq!(to_bytes(&test).unwrap(), [0x83, 0x07]);
}

#[test]
fn encode_nested_record_at_offset_zero_gets_its_prefix() {
    let test = Value::Record(vec![Value::Record(vec![Value::I8(5)])]);
    assert_eq!(
        to_bytes(&test).unwrap(),
        [0x41, 0x02, 0x00, 0x00, 0x00, 0x81, 0x05]
    );
}

#[test]
fn encode_without_a_tag_is_refused() {
    assert_eq!(to_bytes(&Value::I32(3)), Err(Error::MissingTag));
    assert_eq!(to_bytes(&Value::Repeated(vec![])), Err(Error::MissingTag));
    assert_eq!(to_bytes(&Value::Unit), Ok(vec![]));
}

#[test]
fn encode_wide_integers() {
    let test = Value::Record(vec![
        Value::I64(-2147483649),
        Value::U64(u64::MAX),
        Value::U32(u32::MAX),
        Value::I64(2147483647),
    ]);
    assert_eq!(
        to_bytes(&test).unwrap(),
        [
            0x61, 0xFF, 0xFF, 0xFF, 0x7F, 0xFF, 0xFF, 0xFF, 0xFF, // QUAD | 1
            0x82, 0xFF, // INT1 | 2, -1
            0x63, 0xFF, 0xFF, 0xFF, 0xFF, 0x00, 0x00, 0x00, 0x00, // QUAD | 3
            0xC4, 0xFF, 0xFF, 0xFF, 0x7F, // INT4 | 4
        ]
    );
}
