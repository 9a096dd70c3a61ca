use rust_fr::protocol::serializer::to_bytes;
use rust_fr::protocol::serializer::Delimiter;
use rust_fr::protocol::serializer::MinimalSerializer;
use rust_fr::protocol::token::ENUM_DELIMITER;
use rust_fr::protocol::token::MAP_DELIMITER;
use rust_fr::protocol::token::MAP_END_DELIMITER;
use rust_fr::protocol::token::MAP_KEY_DELIMITER;
use rust_fr::protocol::token::MAP_VALUE_DELIMITER;
use rust_fr::protocol::token::SEQ_DELIMITER;
use rust_fr::protocol::token::SEQ_END_DELIMITER;
use rust_fr::protocol::token::SEQ_VALUE_DELIMITER;
use rust_fr::protocol::token::UNIT;
use rust_fr::protocol::value::Value;

fn text(s: &str) -> Value {
    Value::Str(s.to_string())
}

#[test]
fn delimiters_have_their_bytes_and_names() {
    let all = [
        (Delimiter::String, 0x22u8, "String"),
        (Delimiter::Byte, 0x23, "Byte"),
        (Delimiter::Unit, 0x05, "Unit"),
        (Delimiter::Enum, 0x95, "Enum"),
        (Delimiter::SeqStart, 0x26, "SeqStart"),
        (Delimiter::SeqEnd, 0x29, "SeqEnd"),
        (Delimiter::SeqValue, 0x2E, "SeqValue"),
        (Delimiter::MapStart, 0x3A, "MapStart"),
        (Delimiter::MapEnd, 0x3E, "MapEnd"),
        (Delimiter::MapKey, 0x3B, "MapKey"),
        (Delimiter::MapValue, 0x3C, "MapValue"),
    ];
    for (delimiter, byte, name) in all {
        assert_eq!(delimiter.byte(), byte);
        assert_eq!(delimiter.name(), name);
    }
    for (i, a) in all.iter().enumerate() {
        for (j, b) in all.iter().enumerate() {
            assert_eq!(a.0.byte() == b.0.byte(), i == j);
        }
    }
}

#[test]
fn bool_is_one_byte() {
    assert_eq!(to_bytes(&Value::Bool(false)).unwrap(), vec![0]);
    assert_eq!(to_bytes(&Value::Bool(true)).unwrap(), vec![1]);
}

#[test]
fn unsigned_integers_are_little_endian_in_exact_width() {
    assert_eq!(to_bytes(&Value::U8(0xAB)).unwrap(), vec![0xAB]);
    assert_eq!(to_bytes(&Value::U16(0x0102)).unwrap(), vec![0x02, 0x01]);
    assert_eq!(to_bytes(&Value::U32(0x01020304)).unwrap(), vec![0x04, 0x03, 0x02, 0x01]);
    assert_eq!(
        to_bytes(&Value::U64(0x0102030405060708)).unwrap(),
        vec![0x08, 0x07, 0x06, 0x05, 0x04, 0x03, 0x02, 0x01]
    );
    assert_eq!(to_bytes(&Value::U32(7)).unwrap(), 7u32.to_le_bytes().to_vec());
    assert_eq!(to_bytes(&Value::U64(u64::MAX)).unwrap(), u64::MAX.to_le_bytes().to_vec());
}

#[test]
fn signed_integers_are_twos_complement() {
    assert_eq!(to_bytes(&Value::I8(-1)).unwrap(), vec![0xFF]);
    assert_eq!(to_bytes(&Value::I8(i8::MIN)).unwrap(), vec![0x80]);
    assert_eq!(to_bytes(&Value::I16(-2)).unwrap(), vec![0xFE, 0xFF]);
    assert_eq!(to_bytes(&Value::I32(-3)).unwrap(), vec![0xFD, 0xFF, 0xFF, 0xFF]);
    assert_eq!(to_bytes(&Value::I64(-4)).unwrap(), (-4i64).to_le_bytes().to_vec());
    assert_eq!(to_bytes(&Value::I64(i64::MIN)).unwrap(), i64::MIN.to_le_bytes().to_vec());
    assert_eq!(to_bytes(&Value::I32(i32::MAX)).unwrap(), i32::MAX.to_le_bytes().to_vec());
    assert_eq!(to_bytes(&Value::I16(i16::MIN)).unwrap(), i16::MIN.to_le_bytes().to_vec());
}

#[test]
fn integers_agree_with_the_standard_library() {
    for x in [0u64, 1, 255, 256, 0xDEADBEEF, u64::MAX] {
        assert_eq!(to_bytes(&Value::U64(x)).unwrap(), x.to_le_bytes().to_vec());
    }
    for x in [0u32, 1, 255, 256, 65535, 65536, u32::MAX] {
        assert_eq!(to_bytes(&Value::U32(x)).unwrap(), x.to_le_bytes().to_vec());
    }
    for x in [i64::MIN, -0x0102030405060708, -1, 0, 1, i64::MAX] {
        assert_eq!(to_bytes(&Value::I64(x)).unwrap(), x.to_le_bytes().to_vec());
    }
    for x in [i32::MIN, -65536, -1, 0, 1, i32::MAX] {
        assert_eq!(to_bytes(&Value::I32(x)).unwrap(), x.to_le_bytes().to_vec());
    }
    for x in [i16::MIN, -256, -1, 0, 1, i16::MAX] {
        assert_eq!(to_bytes(&Value::I16(x)).unwrap(), x.to_le_bytes().to_vec());
    }
    for x in i8::MIN..=i8::MAX {
        assert_eq!(to_bytes(&Value::I8(x)).unwrap(), x.to_le_bytes().to_vec());
    }
}

#[test]
fn char_is_its_scalar_value_in_four_bytes() {
    assert_eq!(to_bytes(&Value::Char('a')).unwrap(), vec![0x61, 0, 0, 0]);
    assert_eq!(to_bytes(&Value::Char('🦀')).unwrap(), 0x1F980u32.to_le_bytes().to_vec());
}

#[test]
fn string_is_its_utf8_bytes_behind_their_number() {
    assert_eq!(to_bytes(&text("")).unwrap(), vec![0, 0, 0, 0, 0, 0, 0, 0]);
    assert_eq!(
        to_bytes(&text("Ayush")).unwrap(),
        vec![5, 0, 0, 0, 0, 0, 0, 0, b'A', b'y', b'u', b's', b'h']
    );
    // Two characters, three bytes.
    assert_eq!(to_bytes(&text("éa")).unwrap(), vec![3, 0, 0, 0, 0, 0, 0, 0, 0xC3, 0xA9, b'a']);
}

#[test]
fn byte_buffer_is_its_bytes_behind_their_number() {
    assert_eq!(
        to_bytes(&Value::Bytes(vec![0x23, 0xFF])).unwrap(),
        vec![2, 0, 0, 0, 0, 0, 0, 0, 0x23, 0xFF]
    );
    let long = Value::Bytes(vec![7; 300]);
    let bytes = to_bytes(&long).unwrap();
    assert_eq!(bytes.len(), 308);
    assert_eq!(bytes[..8], [0x2C, 0x01, 0, 0, 0, 0, 0, 0]);
}

#[test]
fn unit_and_none_are_the_unit_delimiter() {
    assert_eq!(to_bytes(&Value::Unit).unwrap(), vec![UNIT]);
    assert_eq!(to_bytes(&Value::Opt(None)).unwrap(), vec![UNIT]);
}

#[test]
fn some_is_the_value_itself() {
    let inner = Value::U32(77);
    assert_eq!(
        to_bytes(&Value::Opt(Some(Box::new(Value::U32(77))))).unwrap(),
        to_bytes(&inner).unwrap()
    );
}

#[test]
fn three_elements_make_two_separators() {
    let list = Value::List(vec![Value::U8(1), Value::U8(2), Value::U8(3)]);
    let bytes = to_bytes(&list).unwrap();
    assert_eq!(
        bytes,
        vec![SEQ_DELIMITER, 1, SEQ_VALUE_DELIMITER, 2, SEQ_VALUE_DELIMITER, 3, SEQ_END_DELIMITER]
    );
    assert_eq!(bytes.iter().filter(|b| **b == SEQ_VALUE_DELIMITER).count(), 2);
}

#[test]
fn one_element_makes_no_separator() {
    assert_eq!(
        to_bytes(&Value::List(vec![Value::U8(9)])).unwrap(),
        vec![SEQ_DELIMITER, 9, SEQ_END_DELIMITER]
    );
}

#[test]
fn separator_follows_an_element_that_ends_in_the_sequence_byte() {
    // The first element ends in the byte that opens a sequence; the element
    // behind it still gets its separator.
    let list = Value::List(vec![Value::U8(SEQ_DELIMITER), Value::U8(1)]);
    assert_eq!(
        to_bytes(&list).unwrap(),
        vec![SEQ_DELIMITER, SEQ_DELIMITER, SEQ_VALUE_DELIMITER, 1, SEQ_END_DELIMITER]
    );
    let list = Value::List(vec![Value::List(vec![]), Value::U8(1)]);
    assert_eq!(
        to_bytes(&list).unwrap(),
        vec![
            SEQ_DELIMITER,
            SEQ_DELIMITER,
            SEQ_END_DELIMITER,
            SEQ_VALUE_DELIMITER,
            1,
            SEQ_END_DELIMITER
        ]
    );
}

#[test]
fn map_entries_are_key_delimiter_value() {
    let map = Value::Dict(vec![(Value::U8(1), Value::U8(10)), (Value::U8(2), Value::U8(20))]);
    assert_eq!(
        to_bytes(&map).unwrap(),
        vec![
            MAP_DELIMITER,
            1,
            MAP_KEY_DELIMITER,
            10,
            MAP_VALUE_DELIMITER,
            2,
            MAP_KEY_DELIMITER,
            20,
            MAP_END_DELIMITER
        ]
    );
}

#[test]
fn map_keeps_the_order_of_insertion() {
    let map = Value::Dict(vec![(Value::U8(2), Value::U8(0)), (Value::U8(1), Value::U8(0))]);
    let bytes = to_bytes(&map).unwrap();
    assert_eq!(bytes[1], 2);
    assert_eq!(bytes[5], 1);
}

#[test]
fn struct_is_a_map_keyed_by_field_names() {
    let human = Value::Dict(vec![(text("name"), text("Ayush")), (text("age"), Value::U8(19))]);
    let mut expected = vec![MAP_DELIMITER];
    expected.extend_from_slice(&4u64.to_le_bytes());
    expected.extend_from_slice(b"name");
    expected.push(MAP_KEY_DELIMITER);
    expected.extend_from_slice(&5u64.to_le_bytes());
    expected.extend_from_slice(b"Ayush");
    expected.push(MAP_VALUE_DELIMITER);
    expected.extend_from_slice(&3u64.to_le_bytes());
    expected.extend_from_slice(b"age");
    expected.push(MAP_KEY_DELIMITER);
    expected.push(19);
    expected.push(MAP_END_DELIMITER);
    assert_eq!(to_bytes(&human).unwrap(), expected);
}

#[test]
fn variant_is_marker_index_payload() {
    assert_eq!(to_bytes(&Value::Variant(2, None)).unwrap(), vec![ENUM_DELIMITER, 2, 0, 0, 0]);
    assert_eq!(
        to_bytes(&Value::Variant(0x01020304, Some(Box::new(Value::U8(4))))).unwrap(),
        vec![ENUM_DELIMITER, 4, 3, 2, 1, 4]
    );
    let tuple = Value::List(vec![Value::U8(1), Value::U8(2)]);
    assert_eq!(
        to_bytes(&Value::Variant(1, Some(Box::new(tuple)))).unwrap(),
        vec![
            ENUM_DELIMITER,
            1,
            0,
            0,
            0,
            SEQ_DELIMITER,
            1,
            SEQ_VALUE_DELIMITER,
            2,
            SEQ_END_DELIMITER
        ]
    );
}

#[test]
fn serializer_methods_write_what_the_value_walk_writes() {
    let mut serializer = MinimalSerializer::new();
    serializer.serialize_map();
    serializer.serialize_field(true, "name", &text("Ayush"));
    serializer.serialize_key(false, &text("age"));
    serializer.serialize_value(&Value::U8(19));
    serializer.end_map();
    let human = Value::Dict(vec![(text("name"), text("Ayush")), (text("age"), Value::U8(19))]);
    assert_eq!(serializer.into_bytes(), to_bytes(&human).unwrap());

    let mut serializer = MinimalSerializer::new();
    serializer.serialize_seq();
    serializer.serialize_element(true, &Value::I16(-2));
    serializer.serialize_element(false, &Value::I16(3));
    serializer.end_seq();
    let list = Value::List(vec![Value::I16(-2), Value::I16(3)]);
    assert_eq!(serializer.into_bytes(), to_bytes(&list).unwrap());

    let mut serializer = MinimalSerializer::new();
    serializer.serialize_bool(true);
    serializer.serialize_i8(-1);
    serializer.serialize_i32(-3);
    serializer.serialize_i64(-4);
    serializer.serialize_u8(1);
    serializer.serialize_u16(2);
    serializer.serialize_u32(3);
    serializer.serialize_u64(4);
    serializer.serialize_f32(1.0f32.to_bits());
    serializer.serialize_f64(2.0f64.to_bits());
    serializer.serialize_char('a');
    serializer.serialize_str("hi");
    serializer.serialize_bytes(&[1, 2]);
    serializer.serialize_unit();
    serializer.serialize_none();
    serializer.serialize_some(&Value::U8(8));
    serializer.serialize_unit_variant(1);
    serializer.serialize_newtype_variant(2, &Value::U8(9));
    serializer.serialize_token(Delimiter::String);
    let mut expected = vec![1, 0xFF];
    expected.extend_from_slice(&(-3i32).to_le_bytes());
    expected.extend_from_slice(&(-4i64).to_le_bytes());
    expected.push(1);
    expected.extend_from_slice(&2u16.to_le_bytes());
    expected.extend_from_slice(&3u32.to_le_bytes());
    expected.extend_from_slice(&4u64.to_le_bytes());
    expected.extend_from_slice(&1.0f32.to_le_bytes());
    expected.extend_from_slice(&2.0f64.to_le_bytes());
    expected.extend_from_slice(&[0x61, 0, 0, 0]);
    expected.extend_from_slice(&2u64.to_le_bytes());
    expected.extend_from_slice(b"hi");
    expected.extend_from_slice(&2u64.to_le_bytes());
    expected.extend_from_slice(&[1, 2]);
    expected.extend_from_slice(&[UNIT, UNIT, 8]);
    expected.extend_from_slice(&[ENUM_DELIMITER, 1, 0, 0, 0]);
    expected.extend_from_slice(&[ENUM_DELIMITER, 2, 0, 0, 0, 9]);
    expected.push(0x22);
    assert_eq!(serializer.into_bytes(), expected);
}
