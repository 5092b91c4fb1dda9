use serde_iop::de::{Deserializer, SeqDeserializer, StructDeserializer};
use serde_iop::error::Error;
use serde_iop::ser::pack::get_mut_slice;
use serde_iop::ser::{to_bytes, Serializer};
use serde_iop::value::Value;

#[test]
fn serializer_writes_a_record_step_by_step() {
    let mut ser = Serializer::new();
    let mut outer = ser.serialize_struct();
    outer.serialize_field(&mut ser).unwrap();
    assert_eq!(ser.get_tag(), Ok(1));
    ser.serialize_u32(1).unwrap();
    outer.serialize_field(&mut ser).unwrap();
    ser.serialize_seq(Some(2)).unwrap();
    ser.serialize_element();
    ser.serialize_str("a").unwrap();
    ser.serialize_element();
    ser.serialize_str("b").unwrap();
    outer.serialize_field(&mut ser).unwrap();
    let mut inner = ser.serialize_struct();
    inner.serialize_field(&mut ser).unwrap();
    ser.serialize_bool(true).unwrap();
    inner.serialize_field(&mut ser).unwrap();
    ser.serialize_none().unwrap();
    inner.serialize_field(&mut ser).unwrap();
    ser.serialize_char('\n').unwrap();
    assert!(inner.can_end(&ser));
    inner.end(&mut ser);
    assert_eq!(ser.get_tag(), Ok(3));
    assert!(outer.can_end(&ser));
    outer.end(&mut ser);
    assert_eq!(ser.get_tag(), Err(Error::MissingTag));
    assert_eq!(ser.len(), 24);
    assert_eq!(
        ser.into_bytes(),
        [
            0x81, 0x01, 0xE2, 0x02, 0x00, 0x00, 0x00, 0x00, 0x02, b'a', 0x00, 0x00, 0x02, b'b',
            0x00, 0x43, 0x04, 0x00, 0x00, 0x00, 0x81, 0x01, 0x83, 0x0A,
        ]
    );
}

#[test]
fn serializer_needs_a_tag_for_every_value() {
    let mut ser = Serializer::new();
    assert_eq!(ser.serialize_bool(true), Err(Error::MissingTag));
    assert_eq!(ser.serialize_i8(1), Err(Error::MissingTag));
    assert_eq!(ser.serialize_u64(1), Err(Error::MissingTag));
    assert_eq!(ser.serialize_f32_bits(1), Err(Error::MissingTag));
    assert_eq!(ser.serialize_bytes(b"x"), Err(Error::MissingTag));
    assert_eq!(ser.serialize_seq(Some(0)), Err(Error::MissingTag));
    assert_eq!(ser.serialize_seq(None), Err(Error::MissingTag));
    assert!(ser.begin_newtype_variant(0).is_err());
    assert_eq!(ser.serialize_unit(), Ok(()));
    assert_eq!(ser.serialize_none(), Ok(()));
    assert_eq!(ser.len(), 0);
}

#[test]
fn serializer_refuses_a_sequence_of_unknown_length() {
    let mut ser = Serializer::new();
    ser.set_tag(4);
    assert_eq!(ser.serialize_seq(None), Err(Error::UnknownLen));
    assert_eq!(ser.len(), 0);
}

#[test]
fn serializer_integers_take_the_narrowest_class() {
    let mut ser = Serializer::new();
    ser.set_tag(1);
    ser.serialize_i8(-1).unwrap();
    ser.serialize_u8(200).unwrap();
    ser.serialize_i16(-300).unwrap();
    ser.serialize_u16(65535).unwrap();
    ser.serialize_i32(0).unwrap();
    ser.serialize_u32(0x8000_0000).unwrap();
    ser.serialize_i64(-0x8000_0000).unwrap();
    ser.serialize_u64(0x8000_0000_0000_0000).unwrap();
    ser.serialize_f64_bits(1).unwrap();
    assert_eq!(
        ser.into_bytes(),
        [
            0x81, 0xFF, // -1
            0xA1, 0xC8, 0x00, // 200
            0xA1, 0xD4, 0xFE, // -300
            0xC1, 0xFF, 0xFF, 0x00, 0x00, // 65535
            0x81, 0x00, // 0
            0x61, 0x00, 0x00, 0x00, 0x80, 0x00, 0x00, 0x00, 0x00, // 2^31
            0xC1, 0x00, 0x00, 0x00, 0x80, // -2^31
            0x61, 0x00, 0x00, 0x00, 0x00, 0x00, 0x00, 0x00, 0x80, // 2^63
            0x61, 0x01, 0x00, 0x00, 0x00, 0x00, 0x00, 0x00, 0x00, // bits
        ]
    );
}

#[test]
fn serializer_union_frame() {
    let mut ser = Serializer::new();
    ser.set_tag(300);
    let frame = ser.begin_newtype_variant(2).unwrap();
    assert_eq!(ser.get_tag(), Ok(2));
    ser.serialize_i8(42).unwrap();
    assert!(frame.can_close(&ser));
    ser.end_newtype_variant(frame);
    assert_eq!(ser.get_tag(), Ok(300));
    assert_eq!(
        ser.into_bytes(),
        [0x5F, 0x2C, 0x01, 0x02, 0x00, 0x00, 0x00, 0x82, 0x2A]
    );

    let mut ser = Serializer::new();
    ser.set_tag(1);
    assert!(matches!(
        ser.begin_newtype_variant(70000),
        Err(Error::Unimplemented("variant index"))
    ));
}

#[test]
fn a_record_has_no_field_after_the_one_tagged_65535() {
    let fields: Vec<Value> = (0..65535).map(|_| Value::Unit).collect();
    assert_eq!(to_bytes(&Value::Record(fields)), Ok(vec![]));
    let fields: Vec<Value> = (0..65536).map(|_| Value::Unit).collect();
    assert_eq!(
        to_bytes(&Value::Record(fields)),
        Err(Error::Unimplemented("value too large"))
    );

    let mut ser = Serializer::new();
    let mut st = ser.serialize_struct();
    for _ in 0..65535 {
        st.serialize_field(&mut ser).unwrap();
    }
    assert_eq!(ser.get_tag(), Ok(65535));
    assert_eq!(
        st.serialize_field(&mut ser),
        Err(Error::Unimplemented("value too large"))
    );

    let mut de = Deserializer::from_bytes(&[]);
    let mut st = StructDeserializer::new(65536);
    for _ in 0..65535 {
        assert_eq!(st.next_element(&mut de), Ok(true));
    }
    assert_eq!(
        st.next_element(&mut de),
        Err(Error::Unimplemented("value too large"))
    );
}

#[test]
fn get_mut_slice_grows_by_zero_bytes() {
    let mut out = vec![1u8, 2];
    {
        let region = get_mut_slice(&mut out, 3);
        assert_eq!(region, [0, 0, 0]);
        region[1] = 9;
    }
    assert_eq!(out, [1, 2, 0, 9, 0]);
}

#[test]
fn deserializer_reads_a_record_step_by_step() {
    let bytes = [
        0x81, 0x01, 0xE2, 0x02, 0x00, 0x00, 0x00, 0x00, 0x02, b'a', 0x00, 0x00, 0x02, b'b', 0x00,
        0x43, 0x04, 0x00, 0x00, 0x00, 0x81, 0x01, 0x83, 0x0A,
    ];
    let mut de = Deserializer::from_bytes(&bytes);
    assert!(de.deserialize_struct().unwrap().is_none());
    let mut outer = StructDeserializer::new(3);
    assert_eq!(outer.next_element(&mut de), Ok(true));
    assert_eq!(de.deserialize_u32(), Ok(1));
    assert_eq!(outer.next_element(&mut de), Ok(true));
    let mut seq = SeqDeserializer::new(de.deserialize_seq().unwrap());
    assert!(seq.next_element(&mut de));
    assert_eq!(de.deserialize_string(), Ok("a".to_owned()));
    assert!(seq.next_element(&mut de));
    assert_eq!(de.deserialize_bytes(), Ok(&b"b"[..]));
    assert!(!seq.next_element(&mut de));
    assert_eq!(outer.next_element(&mut de), Ok(true));
    {
        let mut body = de.deserialize_struct().unwrap().unwrap();
        let mut inner = StructDeserializer::new(3);
        assert_eq!(inner.next_element(&mut body), Ok(true));
        assert_eq!(body.deserialize_option(), Ok(true));
        assert_eq!(body.deserialize_bool(), Ok(true));
        assert_eq!(inner.next_element(&mut body), Ok(true));
        assert_eq!(body.deserialize_option(), Ok(false));
        assert_eq!(inner.next_element(&mut body), Ok(true));
        assert_eq!(body.deserialize_char(), Ok('\n'));
        assert_eq!(inner.next_element(&mut body), Ok(false));
        assert!(body.is_finished());
    }
    assert_eq!(outer.next_element(&mut de), Ok(false));
    assert!(de.is_finished());
}

#[test]
fn deserializer_needs_a_tag_for_every_value() {
    let mut de = Deserializer::from_bytes(&[0x81, 0x01]);
    assert_eq!(de.get_wire(), Err(Error::MissingTag));
    assert_eq!(de.get_optional_wire(), Err(Error::MissingTag));
    assert_eq!(de.deserialize_bool(), Err(Error::MissingTag));
    assert_eq!(de.deserialize_i64(), Err(Error::MissingTag));
    assert_eq!(de.deserialize_f32_bits(), Err(Error::MissingTag));
    assert_eq!(de.deserialize_f64_bits(), Err(Error::MissingTag));
    assert_eq!(de.deserialize_option(), Err(Error::MissingTag));
    assert_eq!(de.deserialize_seq(), Err(Error::MissingTag));
    assert!(de.deserialize_enum().is_err());
    de.set_tag(1);
    assert_eq!(de.deserialize_u16(), Ok(1));
    assert!(de.is_finished());
}

#[test]
fn deserializer_union_frame() {
    let bytes = [0x5F, 0x2C, 0x01, 0x02, 0x00, 0x00, 0x00, 0x82, 0x2A];
    let mut de = Deserializer::from_bytes(&bytes);
    de.set_tag(300);
    let (arm, mut body) = de.deserialize_enum().unwrap();
    assert_eq!(arm, 2);
    assert_eq!(body.deserialize_i16(), Ok(42));
    assert!(body.is_finished());
    assert!(de.is_finished());

    // an empty frame holds no arm
    let mut de = Deserializer::from_bytes(&[0x41, 0x00, 0x00, 0x00, 0x00]);
    de.set_tag(1);
    assert!(matches!(de.deserialize_enum(), Err(Error::InputTooShort)));
}

#[test]
fn deserializer_sequence_needs_the_repeat_class() {
    let mut de = Deserializer::from_bytes(&[0x01, 0x00]);
    de.set_tag(1);
    assert_eq!(de.deserialize_seq(), Err(Error::InvalidEncoding));
    let mut de = Deserializer::from_bytes(&[0xE1, 0x02, 0x00]);
    de.set_tag(1);
    assert_eq!(de.deserialize_seq(), Err(Error::InputTooShort));
    let mut de = Deserializer::from_bytes(&[0xE1, 0xFF, 0xFF, 0xFF, 0xFF]);
    de.set_tag(1);
    assert_eq!(de.deserialize_seq(), Ok(u32::MAX as usize));
}

#[test]
fn error_descriptions() {
    assert_eq!(
        Error::Unimplemented("map").description(),
        "unimplemented serialization of type"
    );
    assert_eq!(
        Error::MissingTag.description(),
        "tag is missing, only structs can be serialized"
    );
    assert_eq!(Error::UnknownLen.description(), "cannot pack a sequence of unknown len");
    assert_eq!(
        Error::InputTooShort.description(),
        "deserializing failed as input is too short"
    );
    assert_eq!(Error::InvalidEncoding.description(), "binary encoding invalid");
    assert_eq!(
        Error::TrailingCharacters.description(),
        "trailing characters after unpacking"
    );
    assert_eq!(Error::Custom("told".to_owned()).description(), "told");
}
