use serde_iop::de::read::BinReader;
use serde_iop::error::Error;
use serde_iop::ser::pack::{
    push_byte, push_bytes, push_f32_bits, push_f64_bits, push_i32, push_len, push_quad,
    push_repeated_len, push_tag, required_space_for_i32, set_len32, set_tag, tag_len,
};
use serde_iop::wire::Wire;

/// One value of every wire class, each under `tag`.
fn one_of_each(tag: u16) -> Vec<(Wire, Vec<u8>)> {
    let mut all = Vec::new();

    let mut v = Vec::new();
    push_len(tag, 3, &mut v);
    v.extend_from_slice(&[1, 2, 3]);
    all.push((Wire::BLK1, v));

    let mut v = Vec::new();
    push_len(tag, 300, &mut v);
    v.extend_from_slice(&[7; 300]);
    all.push((Wire::BLK2, v));

    let mut v = Vec::new();
    push_len(tag, 70000, &mut v);
    v.extend_from_slice(&vec![9; 70000]);
    all.push((Wire::BLK4, v));

    let mut v = Vec::new();
    push_quad(tag, 0x0102030405060708, &mut v);
    all.push((Wire::QUAD, v));

    let mut v = Vec::new();
    push_byte(tag, 0x5A, &mut v);
    all.push((Wire::INT1, v));

    let mut v = Vec::new();
    push_i32(tag, 1000, &mut v);
    all.push((Wire::INT2, v));

    let mut v = Vec::new();
    push_i32(tag, 100000, &mut v);
    all.push((Wire::INT4, v));

    let mut v = Vec::new();
    push_repeated_len(tag, 3, &mut v);
    push_byte(0, 1, &mut v);
    push_bytes(0, b"xy", &mut v);
    push_repeated_len(0, 1, &mut v);
    push_quad(0, 5, &mut v);
    all.push((Wire::REPEAT, v));

    all
}

#[test]
fn seeking_passes_over_every_wire_class() {
    for (wire, middle) in one_of_each(2) {
        let mut buf = Vec::new();
        push_byte(1, 11, &mut buf);
        buf.extend_from_slice(&middle);
        push_byte(5, 55, &mut buf);

        let mut reader = BinReader::new(&buf);
        assert_eq!(reader.get_tag(1), Ok(Wire::INT1));
        assert_eq!(reader.read_i8(), Ok(11));
        assert_eq!(reader.get_tag(5), Ok(Wire::INT1), "behind {:?}", wire);
        assert_eq!(reader.read_i8(), Ok(55));
        assert!(reader.is_empty());
        assert_eq!(reader.get_total_read_len(), buf.len());
    }
}

#[test]
fn skip_data_takes_exactly_the_payload() {
    for (wire, value) in one_of_each(2) {
        let mut buf = value.clone();
        buf.push(0xEE);
        let mut reader = BinReader::new(&buf);
        assert_eq!(reader.get_tag(2), Ok(wire));
        assert_eq!(reader.skip_data(wire), Ok(()));
        assert_eq!(reader.get_total_read_len(), value.len());
        assert!(!reader.is_empty());
    }
}

#[test]
fn skip_data_refuses_a_repeated_item_with_a_tag() {
    let mut buf = Vec::new();
    push_repeated_len(3, 2, &mut buf);
    push_byte(0, 1, &mut buf);
    push_byte(4, 2, &mut buf);
    let mut reader = BinReader::new(&buf);
    assert_eq!(reader.get_tag(3), Ok(Wire::REPEAT));
    let before = reader.get_total_read_len();
    assert_eq!(reader.skip_data(Wire::REPEAT), Err(Error::InvalidEncoding));
    // a failed skip takes nothing
    assert_eq!(reader.get_total_read_len(), before);

    // seeking over it fails the same way
    let mut reader = BinReader::new(&buf);
    assert_eq!(reader.get_tag(9), Err(Error::InvalidEncoding));
    assert_eq!(reader.get_total_read_len(), 0);
    let mut reader = BinReader::new(&buf);
    assert_eq!(reader.get_optional_tag(9), Err(Error::InvalidEncoding));
}

#[test]
fn skip_data_on_short_input() {
    for (wire, value) in one_of_each(2) {
        let cut = &value[..value.len() - 1];
        let mut reader = BinReader::new(cut);
        assert_eq!(reader.get_tag(2), Ok(wire));
        let before = reader.get_total_read_len();
        assert_eq!(reader.skip_data(wire), Err(Error::InputTooShort));
        assert_eq!(reader.get_total_read_len(), before);
    }
}

#[test]
fn optional_tag_at_the_end_of_input_is_absent() {
    let mut buf = Vec::new();
    push_byte(1, 11, &mut buf);
    let mut reader = BinReader::new(&buf);
    assert_eq!(reader.get_tag(1), Ok(Wire::INT1));
    assert_eq!(reader.read_i8(), Ok(11));
    let before = reader.get_total_read_len();
    assert_eq!(reader.get_optional_tag(3), Ok(None));
    assert_eq!(reader.get_total_read_len(), before);
    assert!(reader.is_empty());
}

#[test]
fn optional_tag_before_a_higher_tag_is_absent_and_the_header_is_kept() {
    let mut buf = Vec::new();
    push_byte(4, 44, &mut buf);
    let mut reader = BinReader::new(&buf);
    assert_eq!(reader.get_optional_tag(3), Ok(None));
    assert!(reader.has_pending());
    assert_eq!(reader.get_next_tag_value(), Ok(4));
    assert_eq!(reader.get_optional_tag(4), Ok(Some(Wire::INT1)));
    assert_eq!(reader.get_tag(4), Ok(Wire::INT1));
    assert!(!reader.has_pending());
    assert_eq!(reader.read_u8(), Ok(44));
}

#[test]
fn next_tag_value_reads_ahead_once() {
    let mut buf = Vec::new();
    push_i32(300, -2, &mut buf);
    let mut reader = BinReader::new(&buf);
    assert_eq!(reader.get_next_tag_value(), Ok(300));
    assert_eq!(reader.get_total_read_len(), 3);
    assert_eq!(reader.get_next_tag_value(), Ok(300));
    assert_eq!(reader.get_total_read_len(), 3);
    assert_eq!(reader.skip_upto_tag(300).map(|h| (h.wire, h.tag)), Ok((Wire::INT1, 300)));
    assert_eq!(reader.read_integer(Wire::INT1), Ok(-2));
    assert_eq!(reader.get_next_tag_value(), Err(Error::InputTooShort));
}

#[test]
fn read_hdr_takes_nothing_from_a_cut_header() {
    let mut reader = BinReader::new(&[0x9F, 0x01]);
    assert_eq!(reader.read_hdr().map(|h| h.tag), Err(Error::InputTooShort));
    assert_eq!(reader.get_total_read_len(), 0);
    let mut reader = BinReader::new(&[0x9F, 0x01, 0x02]);
    assert_eq!(reader.read_hdr().map(|h| (h.wire, h.tag)), Ok((Wire::INT1, 0x0201)));
    assert_eq!(reader.get_total_read_len(), 3);
}

#[test]
fn typed_reads() {
    let mut reader = BinReader::new(&[0xFE, 0xFF, 0x01, 0x02, 0x03, 0x04]);
    assert_eq!(reader.read_u16(), Ok(0xFFFE));
    assert_eq!(reader.read_u32(), Ok(0x04030201));
    assert_eq!(reader.read_u8(), Err(Error::InputTooShort));

    let mut reader = BinReader::new(&[0xFE, 0xFF]);
    assert_eq!(reader.read_integer(Wire::INT2), Ok(-2));
    let mut reader = BinReader::new(&[0xFE, 0xFF]);
    assert_eq!(reader.read_u64(Wire::INT2), Ok(u64::MAX - 1));
    let mut reader = BinReader::new(&[0xFE, 0xFF]);
    assert_eq!(reader.read_integer(Wire::BLK2), Err(Error::InvalidEncoding));
    assert_eq!(reader.read_u64(Wire::REPEAT), Err(Error::InvalidEncoding));
    assert_eq!(reader.get_total_read_len(), 0);
    assert_eq!(reader.get_slice(3).map(|s| s.len()), Err(Error::InputTooShort));
    assert_eq!(reader.get_slice(2), Ok(&[0xFE, 0xFF][..]));
}

#[test]
fn float_bit_images() {
    let mut buf = Vec::new();
    push_f32_bits(1, 1.5f32.to_bits(), &mut buf);
    push_f64_bits(2, (-2.25f64).to_bits(), &mut buf);
    assert_eq!(
        buf,
        [0xC1, 0x00, 0x00, 0xC0, 0x3F, 0x62, 0, 0, 0, 0, 0, 0, 0x02, 0xC0]
    );
    let mut reader = BinReader::new(&buf);
    let wire = reader.get_tag(1).unwrap();
    assert_eq!(reader.read_f64_bits(wire), Err(Error::InvalidEncoding));
    assert_eq!(reader.read_f32_bits(wire).map(f32::from_bits), Ok(1.5));
    let wire = reader.get_tag(2).unwrap();
    assert_eq!(reader.read_f32_bits(wire), Err(Error::InvalidEncoding));
    assert_eq!(reader.read_f64_bits(wire).map(f64::from_bits), Ok(-2.25));
}

#[test]
fn required_space_counts_the_bytes_of_the_zigzag_image() {
    assert_eq!(required_space_for_i32(0), 1);
    assert_eq!(required_space_for_i32(127), 1);
    assert_eq!(required_space_for_i32(-128), 1);
    assert_eq!(required_space_for_i32(128), 2);
    assert_eq!(required_space_for_i32(-129), 2);
    assert_eq!(required_space_for_i32(32767), 2);
    assert_eq!(required_space_for_i32(-32768), 2);
    assert_eq!(required_space_for_i32(32768), 3);
    assert_eq!(required_space_for_i32(8388607), 3);
    assert_eq!(required_space_for_i32(-8388608), 3);
    assert_eq!(required_space_for_i32(8388608), 4);
    assert_eq!(required_space_for_i32(i32::MAX), 4);
    assert_eq!(required_space_for_i32(i32::MIN), 4);
}

#[test]
fn header_widths_and_reserved_slots() {
    assert_eq!(tag_len(0), 0);
    assert_eq!(tag_len(29), 0);
    assert_eq!(tag_len(30), 1);
    assert_eq!(tag_len(255), 1);
    assert_eq!(tag_len(256), 2);
    assert_eq!(tag_len(u16::MAX), 2);

    let mut slot = [0u8; 4];
    let rest = set_tag(Wire::QUAD, 300, &mut slot);
    assert_eq!(rest.len(), 1);
    assert_eq!(slot, [0x7F, 0x2C, 0x01, 0x00]);

    let mut slot = [0xAAu8; 6];
    set_len32(200, 0x01020304, &mut slot);
    assert_eq!(slot, [0x5E, 0xC8, 0x04, 0x03, 0x02, 0x01]);

    let mut packed = Vec::new();
    push_tag(Wire::BLK4, 200, &mut packed);
    assert_eq!(packed, slot[..2]);

    assert_eq!(Wire::from(0x5E), Wire::BLK4);
    assert_eq!(Wire::from(0xFF), Wire::REPEAT);
    assert_eq!(Wire::INT2.bits(), 0xA0);
}
