use rust_fr::protocol::deserializer::from_bytes;
use rust_fr::protocol::deserializer::CustomDeserializer;
use rust_fr::protocol::deserializer::MapDeserializer;
use rust_fr::protocol::deserializer::SequenceDeserializer;
use rust_fr::protocol::error::Error;
use rust_fr::protocol::serializer::to_bytes;
use rust_fr::protocol::serializer::Delimiter;
use rust_fr::protocol::serializer::MinimalSerializer;
use rust_fr::protocol::value::Shape;
use rust_fr::protocol::value::Value;

fn text(s: &str) -> Value {
    Value::Str(s.to_string())
}

fn named(name: &str, shape: Shape) -> (String, Shape) {
    (name.to_string(), shape)
}

fn human() -> Value {
    Value::Dict(vec![(text("name"), text("Ayush")), (text("age"), Value::U8(19))])
}

fn human_shape() -> Shape {
    Shape::Struct(vec![named("name", Shape::Str), named("age", Shape::U8)])
}

fn is_truncation(error: &Error) -> bool {
    matches!(error, Error::UnexpectedEOF | Error::ExpectedDelimiter(_))
}

fn assert_every_prefix_is_refused(value: Value, shape: Shape) {
    let bytes = to_bytes(&value).unwrap();
    assert_eq!(from_bytes(&bytes, &shape).unwrap(), value);
    for kept in 0..bytes.len() {
        match from_bytes(&bytes[..kept], &shape) {
            Err(error) => assert!(is_truncation(&error), "{} bytes kept: {:?}", kept, error),
            Ok(read) => panic!("{} bytes kept: read {:?}", kept, read),
        }
    }
}

#[test]
fn peek_byte_on_nothing_is_no_byte() {
    let serializer = MinimalSerializer::new();
    assert!(matches!(serializer.peek_byte(), Err(Error::NoByte)));
    assert!(!serializer.peek_token(Delimiter::Unit));
}

#[test]
fn peek_byte_is_the_last_byte() {
    let mut serializer = MinimalSerializer::new();
    serializer.serialize_u16(0x0102);
    assert_eq!(*serializer.peek_byte().unwrap(), 0x01);
    serializer.serialize_token(Delimiter::SeqStart);
    assert_eq!(*serializer.peek_byte().unwrap(), 0x26);
    assert!(serializer.peek_token(Delimiter::SeqStart));
    assert!(!serializer.peek_token(Delimiter::SeqValue));
}

#[test]
fn peek_bytes_are_the_last_bytes() {
    let mut serializer = MinimalSerializer::new();
    serializer.serialize_u32(0x04030201);
    assert_eq!(serializer.peek_bytes(0).unwrap(), &[] as &[u8]);
    assert_eq!(serializer.peek_bytes(2).unwrap(), &[3, 4]);
    assert_eq!(serializer.peek_bytes(4).unwrap(), &[1, 2, 3, 4]);
    assert!(matches!(serializer.peek_bytes(5), Err(Error::NLargerThanLength(5, 4))));
}

#[test]
fn peek_nth_byte_counts_from_the_end() {
    let mut serializer = MinimalSerializer::new();
    serializer.serialize_u32(0x04030201);
    assert_eq!(*serializer.peek_nth_byte(1).unwrap(), 4);
    assert_eq!(*serializer.peek_nth_byte(4).unwrap(), 1);
    assert!(matches!(serializer.peek_nth_byte(5), Err(Error::NLargerThanLength(5, 4))));
    assert!(matches!(serializer.peek_nth_byte(0), Err(Error::NoByte)));
}

#[test]
fn self_describing_reads_are_unsupported() {
    let mut deserializer = CustomDeserializer::new(&[1, 2, 3]);
    match deserializer.deserialize_any() {
        Err(Error::UnsupportedCall(call)) => assert_eq!(call, "deserialize_any"),
        other => panic!("{:?}", other),
    }
    match deserializer.deserialize_ignored_any() {
        Err(Error::UnsupportedCall(call)) => assert_eq!(call, "deserialize_ignored_any"),
        other => panic!("{:?}", other),
    }
    assert_eq!(deserializer.position(), 0);
}

#[test]
fn fixed_width_read_past_the_end_is_unexpected_eof() {
    assert!(matches!(from_bytes(&[], &Shape::Bool), Err(Error::UnexpectedEOF)));
    assert!(matches!(from_bytes(&[], &Shape::U8), Err(Error::UnexpectedEOF)));
    assert!(matches!(from_bytes(&[1], &Shape::U16), Err(Error::UnexpectedEOF)));
    assert!(matches!(from_bytes(&[1, 2, 3], &Shape::I32), Err(Error::UnexpectedEOF)));
    assert!(matches!(from_bytes(&[1, 2, 3, 4, 5, 6, 7], &Shape::U64), Err(Error::UnexpectedEOF)));
    assert!(matches!(from_bytes(&[1, 2, 3], &Shape::F32), Err(Error::UnexpectedEOF)));
    assert!(matches!(from_bytes(&[0x61, 0, 0], &Shape::Char), Err(Error::UnexpectedEOF)));
    assert!(matches!(from_bytes(&[], &Shape::Unit), Err(Error::UnexpectedEOF)));
}

#[test]
fn string_cut_short_is_unexpected_eof() {
    let bytes = to_bytes(&text("hello")).unwrap();
    assert!(matches!(from_bytes(&bytes[..7], &Shape::Str), Err(Error::UnexpectedEOF)));
    assert!(matches!(from_bytes(&bytes[..8], &Shape::Str), Err(Error::UnexpectedEOF)));
    assert!(matches!(from_bytes(&bytes[..12], &Shape::Str), Err(Error::UnexpectedEOF)));
    assert!(matches!(from_bytes(&bytes[..12], &Shape::Bytes), Err(Error::UnexpectedEOF)));
    // A length that no input can hold.
    let huge = [0xFF; 8];
    assert!(matches!(from_bytes(&huge, &Shape::Str), Err(Error::UnexpectedEOF)));
    assert!(matches!(from_bytes(&huge, &Shape::Bytes), Err(Error::UnexpectedEOF)));
}

#[test]
fn integer_width_must_be_one_two_four_or_eight() {
    let bytes = [1, 2, 3, 4, 5, 6, 7, 8, 9, 10, 11, 12, 13, 14, 15, 16, 17];
    for width in [0usize, 3, 5, 6, 7, 9, 16] {
        let mut deserializer = CustomDeserializer::new(&bytes);
        assert!(matches!(deserializer.parse_unsigned(width), Err(Error::InvalidTypeSize)));
        assert!(matches!(deserializer.parse_signed(width), Err(Error::InvalidTypeSize)));
        assert_eq!(deserializer.position(), 0);
    }
    // The end of the input is looked at first.
    let mut deserializer = CustomDeserializer::new(&bytes[..2]);
    assert!(matches!(deserializer.parse_unsigned(3), Err(Error::UnexpectedEOF)));
}

#[test]
fn bool_byte_must_be_zero_or_one() {
    assert!(matches!(from_bytes(&[2], &Shape::Bool), Err(Error::ConversionError)));
    assert!(matches!(from_bytes(&[0xFF], &Shape::Bool), Err(Error::ConversionError)));
    assert_eq!(from_bytes(&[0], &Shape::Bool).unwrap(), Value::Bool(false));
    assert_eq!(from_bytes(&[1], &Shape::Bool).unwrap(), Value::Bool(true));
}

#[test]
fn missing_delimiter_is_expected_delimiter() {
    let list = Shape::List(Box::new(Shape::U8));
    assert!(matches!(
        from_bytes(&[0x00], &list),
        Err(Error::ExpectedDelimiter(Delimiter::SeqStart))
    ));
    assert!(matches!(
        from_bytes(&[0x26, 1, 2, 0x29], &list),
        Err(Error::ExpectedDelimiter(Delimiter::SeqValue))
    ));
    let map = Shape::Dict(Box::new(Shape::U8), Box::new(Shape::U8));
    assert!(matches!(
        from_bytes(&[0x26], &map),
        Err(Error::ExpectedDelimiter(Delimiter::MapStart))
    ));
    assert!(matches!(
        from_bytes(&[0x3A, 1, 2, 0x3E], &map),
        Err(Error::ExpectedDelimiter(Delimiter::MapKey))
    ));
    assert!(matches!(
        from_bytes(&[0x3A, 1, 0x3B, 2, 3], &map),
        Err(Error::ExpectedDelimiter(Delimiter::MapValue))
    ));
    assert!(matches!(
        from_bytes(&[0x06], &Shape::Unit),
        Err(Error::ExpectedDelimiter(Delimiter::Unit))
    ));
    assert!(matches!(
        from_bytes(&[0, 0, 0, 0, 0], &Shape::Enum(vec![None])),
        Err(Error::ExpectedDelimiter(Delimiter::Enum))
    ));
    let pair = Shape::Tuple(vec![Shape::U8, Shape::U8]);
    assert!(matches!(
        from_bytes(&[0x26, 1, 0x2E, 2, 0x2E], &pair),
        Err(Error::ExpectedDelimiter(Delimiter::SeqEnd))
    ));
    assert!(matches!(
        from_bytes(&[0x26, 1, 0x29], &pair),
        Err(Error::ExpectedDelimiter(Delimiter::SeqValue))
    ));
}

#[test]
fn string_bytes_must_be_utf8() {
    let mut bytes = 2u64.to_le_bytes().to_vec();
    bytes.extend_from_slice(&[0xC3, 0x28]);
    assert!(matches!(from_bytes(&bytes, &Shape::Str), Err(Error::InvalidUtf8)));
    // The same bytes are a byte buffer.
    assert_eq!(from_bytes(&bytes, &Shape::Bytes).unwrap(), Value::Bytes(vec![0xC3, 0x28]));

    let mut bytes = 1u64.to_le_bytes().to_vec();
    bytes.push(0xFF);
    assert!(matches!(from_bytes(&bytes, &Shape::Str), Err(Error::InvalidUtf8)));

    // A surrogate, written as three bytes.
    let mut bytes = 3u64.to_le_bytes().to_vec();
    bytes.extend_from_slice(&[0xED, 0xA0, 0x80]);
    assert!(matches!(from_bytes(&bytes, &Shape::Str), Err(Error::InvalidUtf8)));
}

#[test]
fn parse_str_gives_the_string_of_the_bytes() {
    let mut input = 6u64.to_le_bytes().to_vec();
    input.extend_from_slice("héllo".as_bytes());
    let mut deserializer = CustomDeserializer::new(&input);
    let mut scratch = Vec::new();
    assert_eq!(deserializer.parse_str(&mut scratch).unwrap(), "héllo");
    assert_eq!(scratch, "héllo".as_bytes());
    assert_eq!(deserializer.position(), 14);
}

#[test]
fn char_code_must_be_a_scalar_value() {
    let surrogate = 0xD800u32.to_le_bytes();
    assert!(matches!(
        from_bytes(&surrogate, &Shape::Char),
        Err(Error::InvalidCharCode(0xD800))
    ));
    let beyond = 0x110000u32.to_le_bytes();
    assert!(matches!(from_bytes(&beyond, &Shape::Char), Err(Error::InvalidCharCode(0x110000))));
    let max = u32::MAX.to_le_bytes();
    assert!(matches!(from_bytes(&max, &Shape::Char), Err(Error::InvalidCharCode(u32::MAX))));
    let below = 0xD7FFu32.to_le_bytes();
    assert_eq!(from_bytes(&below, &Shape::Char).unwrap(), Value::Char('\u{D7FF}'));
    let above = 0xE000u32.to_le_bytes();
    assert_eq!(from_bytes(&above, &Shape::Char).unwrap(), Value::Char('\u{E000}'));

    let mut deserializer = CustomDeserializer::new(&surrogate);
    assert!(deserializer.parse_char().is_err());
    assert_eq!(deserializer.position(), 0);
}

#[test]
fn variant_index_out_of_range_is_unknown_variant_index() {
    let shape = Shape::Enum(vec![None, Some(Shape::U8)]);
    let bytes = to_bytes(&Value::Variant(2, None)).unwrap();
    assert!(matches!(from_bytes(&bytes, &shape), Err(Error::UnknownVariantIndex(2))));
    let bytes = to_bytes(&Value::Variant(u32::MAX, Some(Box::new(Value::U8(1))))).unwrap();
    assert!(matches!(from_bytes(&bytes, &shape), Err(Error::UnknownVariantIndex(u32::MAX))));
    let bytes = to_bytes(&Value::Variant(0, None)).unwrap();
    assert!(matches!(
        from_bytes(&bytes, &Shape::Enum(vec![])),
        Err(Error::UnknownVariantIndex(0))
    ));
}

#[test]
fn struct_key_must_be_the_field_that_is_due() {
    let bytes = to_bytes(&human()).unwrap();
    let swapped = Shape::Struct(vec![named("age", Shape::U8), named("name", Shape::Str)]);
    match from_bytes(&bytes, &swapped) {
        Err(Error::DeserializationError(expected)) => assert_eq!(expected, "age"),
        other => panic!("{:?}", other),
    }
    let renamed = Shape::Struct(vec![named("name", Shape::Str), named("years", Shape::U8)]);
    match from_bytes(&bytes, &renamed) {
        Err(Error::DeserializationError(expected)) => assert_eq!(expected, "years"),
        other => panic!("{:?}", other),
    }
}

#[test]
fn struct_with_a_field_too_many_or_too_few_is_refused() {
    let bytes = to_bytes(&human()).unwrap();
    let shorter = Shape::Struct(vec![named("name", Shape::Str)]);
    assert!(matches!(
        from_bytes(&bytes, &shorter),
        Err(Error::ExpectedDelimiter(Delimiter::MapEnd))
    ));
    let longer = Shape::Struct(vec![
        named("name", Shape::Str),
        named("age", Shape::U8),
        named("height", Shape::U8),
    ]);
    assert!(matches!(
        from_bytes(&bytes, &longer),
        Err(Error::ExpectedDelimiter(Delimiter::MapValue))
    ));
}

#[test]
fn truncating_the_last_byte_of_a_struct_is_an_error() {
    let bytes = to_bytes(&human()).unwrap();
    assert_eq!(from_bytes(&bytes, &human_shape()).unwrap(), human());
    let cut = &bytes[..bytes.len() - 1];
    assert!(matches!(from_bytes(cut, &human_shape()), Err(Error::UnexpectedEOF)));
}

#[test]
fn every_prefix_of_an_encoding_is_refused() {
    assert_every_prefix_is_refused(human(), human_shape());
    assert_every_prefix_is_refused(Value::U64(77), Shape::U64);
    assert_every_prefix_is_refused(text("hello"), Shape::Str);
    assert_every_prefix_is_refused(
        Value::List(vec![Value::U16(1), Value::U16(2), Value::U16(3)]),
        Shape::List(Box::new(Shape::U16)),
    );
    assert_every_prefix_is_refused(Value::List(vec![]), Shape::List(Box::new(Shape::U16)));
    assert_every_prefix_is_refused(
        Value::Dict(vec![(text("a"), Value::U8(1)), (text("b"), Value::U8(2))]),
        Shape::Dict(Box::new(Shape::Str), Box::new(Shape::U8)),
    );
    assert_every_prefix_is_refused(
        Value::Opt(Some(Box::new(Value::U32(9)))),
        Shape::Opt(Box::new(Shape::U32)),
    );
    assert_every_prefix_is_refused(Value::Opt(None), Shape::Opt(Box::new(Shape::U32)));
    assert_every_prefix_is_refused(
        Value::Variant(1, Some(Box::new(Value::List(vec![Value::U8(1), text("x")])))),
        Shape::Enum(vec![None, Some(Shape::Tuple(vec![Shape::U8, Shape::Str]))]),
    );
    assert_every_prefix_is_refused(Value::Variant(0, None), Shape::Enum(vec![None]));
}

#[test]
fn sequence_missing_its_closing_delimiter_is_refused() {
    let bytes = [0x26, 1, 0x2E, 2];
    assert!(matches!(
        from_bytes(&bytes, &Shape::List(Box::new(Shape::U8))),
        Err(Error::UnexpectedEOF)
    ));
    let bytes = [0x3A, 1, 0x3B, 2];
    assert!(matches!(
        from_bytes(&bytes, &Shape::Dict(Box::new(Shape::U8), Box::new(Shape::U8))),
        Err(Error::UnexpectedEOF)
    ));
}

#[test]
fn cursor_reads_bytes_and_tokens() {
    let input = [0x26, 7, 0x2E, 8, 9, 10, 0x29];
    let mut deserializer = CustomDeserializer::new(&input);
    assert_eq!(deserializer.position(), 0);
    assert_eq!(deserializer.peek_byte().unwrap(), 0x26);
    assert!(deserializer.peek_token(Delimiter::SeqStart));
    assert!(!deserializer.peek_token(Delimiter::MapStart));
    assert!(matches!(
        deserializer.eat_token(Delimiter::MapStart),
        Err(Error::ExpectedDelimiter(Delimiter::MapStart))
    ));
    assert_eq!(deserializer.position(), 0);
    deserializer.eat_token(Delimiter::SeqStart).unwrap();
    assert_eq!(deserializer.eat_byte().unwrap(), 7);
    assert!(deserializer.seq_step(false).unwrap());
    assert_eq!(deserializer.position(), 3);
    assert_eq!(deserializer.eat_bytes(3).unwrap(), vec![8, 9, 10]);
    assert!(matches!(deserializer.eat_bytes(2), Err(Error::UnexpectedEOF)));
    assert!(!deserializer.seq_step(false).unwrap());
    assert_eq!(deserializer.position(), 6);
    deserializer.eat_token(Delimiter::SeqEnd).unwrap();
    assert!(matches!(deserializer.peek_byte(), Err(Error::UnexpectedEOF)));
    assert!(matches!(deserializer.eat_byte(), Err(Error::UnexpectedEOF)));
    assert!(matches!(deserializer.eat_token(Delimiter::Unit), Err(Error::UnexpectedEOF)));
    assert!(!deserializer.peek_token(Delimiter::SeqEnd));
    assert!(matches!(deserializer.seq_step(false), Err(Error::UnexpectedEOF)));
    assert!(matches!(deserializer.map_step(false), Err(Error::UnexpectedEOF)));
    assert!(deserializer.map_step(true).unwrap());
    assert_eq!(deserializer.eat_bytes(0).unwrap(), Vec::<u8>::new());
}

#[test]
fn variant_head_is_marker_and_known_index() {
    let input = [0x95, 2, 0, 0, 0, 0x95, 3, 0, 0, 0];
    let mut deserializer = CustomDeserializer::new(&input);
    assert_eq!(deserializer.parse_variant(3).unwrap(), 2);
    assert_eq!(deserializer.position(), 5);
    assert!(matches!(deserializer.parse_variant(3), Err(Error::UnknownVariantIndex(3))));
    assert_eq!(deserializer.position(), 5);
    assert_eq!(deserializer.parse_variant(4).unwrap(), 3);
    assert!(matches!(deserializer.parse_variant(4), Err(Error::UnexpectedEOF)));

    let mut deserializer = CustomDeserializer::new(&input[..3]);
    assert!(matches!(deserializer.parse_variant(3), Err(Error::UnexpectedEOF)));
    assert_eq!(deserializer.position(), 0);
    let mut deserializer = CustomDeserializer::new(&input[1..]);
    assert!(matches!(
        deserializer.parse_variant(3),
        Err(Error::ExpectedDelimiter(Delimiter::Enum))
    ));
}

#[test]
fn separator_is_read_before_every_element_but_the_first() {
    let input = [0x2E, 0x3C, 7];
    let mut deserializer = CustomDeserializer::new(&input);
    deserializer.eat_separator(true, Delimiter::SeqValue).unwrap();
    assert_eq!(deserializer.position(), 0);
    deserializer.eat_separator(false, Delimiter::SeqValue).unwrap();
    assert_eq!(deserializer.position(), 1);
    assert!(matches!(
        deserializer.eat_separator(false, Delimiter::SeqValue),
        Err(Error::ExpectedDelimiter(Delimiter::SeqValue))
    ));
    deserializer.eat_separator(false, Delimiter::MapValue).unwrap();
    assert_eq!(deserializer.position(), 2);
}

#[test]
fn parse_methods_read_what_the_serializer_wrote() {
    let mut serializer = MinimalSerializer::new();
    serializer.serialize_bool(true);
    serializer.serialize_i16(-300);
    serializer.serialize_u32(70000);
    serializer.serialize_f32(1.5f32.to_bits());
    serializer.serialize_f64((-2.25f64).to_bits());
    serializer.serialize_char('ß');
    serializer.serialize_str("hi");
    serializer.serialize_bytes(&[1, 2, 3]);
    serializer.serialize_unit();
    let input = serializer.into_bytes();
    let mut deserializer = CustomDeserializer::new(&input);
    assert!(deserializer.parse_bool().unwrap());
    assert_eq!(deserializer.parse_signed(2).unwrap(), -300);
    assert_eq!(deserializer.parse_unsigned(4).unwrap(), 70000);
    assert_eq!(f32::from_bits(deserializer.parse_f32().unwrap()), 1.5);
    assert_eq!(f64::from_bits(deserializer.parse_f64().unwrap()), -2.25);
    assert_eq!(deserializer.parse_char().unwrap(), 'ß');
    let mut scratch = Vec::new();
    assert_eq!(deserializer.parse_str(&mut scratch).unwrap(), "hi");
    let mut buffer = vec![0];
    deserializer.parse_bytes(&mut buffer).unwrap();
    assert_eq!(buffer, vec![0, 1, 2, 3]);
    deserializer.deserialize_unit().unwrap();
    assert_eq!(deserializer.position(), input.len());
}

#[test]
fn sequence_pull_hands_out_one_element_at_a_time() {
    let input = [0x26, 1, 0x2E, 2, 0x29, 0xAA];
    let mut deserializer = CustomDeserializer::new(&input);
    deserializer.eat_token(Delimiter::SeqStart).unwrap();
    {
        let mut access = SequenceDeserializer::new(&mut deserializer);
        assert!(access.first);
        assert_eq!(access.next_element(&Shape::U8).unwrap(), Some(Value::U8(1)));
        assert!(!access.first);
        assert_eq!(access.next_element(&Shape::U8).unwrap(), Some(Value::U8(2)));
        assert_eq!(access.next_element(&Shape::U8).unwrap(), None);
        assert_eq!(access.next_element(&Shape::U8).unwrap(), None);
    }
    assert_eq!(deserializer.position(), 4);
    deserializer.eat_token(Delimiter::SeqEnd).unwrap();

    let mut deserializer = CustomDeserializer::new(&input);
    deserializer.eat_token(Delimiter::SeqStart).unwrap();
    let items = SequenceDeserializer::new(&mut deserializer).collect(&Shape::U8).unwrap();
    assert_eq!(items, vec![Value::U8(1), Value::U8(2)]);
    assert_eq!(deserializer.position(), 4);
}

#[test]
fn map_pull_hands_out_keys_and_values() {
    let input = [0x3A, 1, 0x3B, 10, 0x3C, 2, 0x3B, 20, 0x3E];
    let mut deserializer = CustomDeserializer::new(&input);
    deserializer.eat_token(Delimiter::MapStart).unwrap();
    {
        let mut access = MapDeserializer::new(&mut deserializer);
        assert_eq!(access.next_key(&Shape::U8).unwrap(), Some(Value::U8(1)));
        assert_eq!(access.next_value(&Shape::U8).unwrap(), Value::U8(10));
        assert_eq!(access.next_key(&Shape::U8).unwrap(), Some(Value::U8(2)));
        assert_eq!(access.next_value(&Shape::U8).unwrap(), Value::U8(20));
        assert_eq!(access.next_key(&Shape::U8).unwrap(), None);
    }
    assert_eq!(deserializer.position(), 8);

    let mut deserializer = CustomDeserializer::new(&input);
    deserializer.eat_token(Delimiter::MapStart).unwrap();
    let entries =
        MapDeserializer::new(&mut deserializer).collect(&Shape::U8, &Shape::U8).unwrap();
    assert_eq!(entries, vec![(Value::U8(1), Value::U8(10)), (Value::U8(2), Value::U8(20))]);
}

#[test]
fn composite_reads_on_the_cursor() {
    let value = Value::Variant(1, Some(Box::new(Value::Opt(Some(Box::new(Value::U8(3)))))));
    let input = to_bytes(&value).unwrap();
    let mut deserializer = CustomDeserializer::new(&input);
    let variants = vec![None, Some(Shape::Opt(Box::new(Shape::U8)))];
    assert_eq!(deserializer.deserialize_enum(&variants).unwrap(), value);

    let input = [0x05, 0x07];
    let mut deserializer = CustomDeserializer::new(&input);
    assert_eq!(deserializer.deserialize_option(&Shape::U8).unwrap(), None);
    assert_eq!(deserializer.deserialize_option(&Shape::U8).unwrap(), Some(Value::U8(7)));

    let input = [0x26, 1, 0x2E, 0, 0x29, 0x3A, 0x3E];
    let mut deserializer = CustomDeserializer::new(&input);
    assert_eq!(
        deserializer.deserialize_tuple(&vec![Shape::U8, Shape::Bool]).unwrap(),
        vec![Value::U8(1), Value::Bool(false)]
    );
    assert_eq!(deserializer.deserialize_map(&Shape::U8, &Shape::U8).unwrap(), vec![]);
    assert_eq!(deserializer.position(), 7);
}

#[test]
fn refused_sequence_leaves_the_cursor_where_it_stood() {
    // Another byte stands where the sequence should open.
    let input = [0x07, 0x26, 1, 0x29];
    let mut deserializer = CustomDeserializer::new(&input);
    assert!(matches!(
        deserializer.deserialize_seq(&Shape::U8),
        Err(Error::ExpectedDelimiter(Delimiter::SeqStart))
    ));
    assert_eq!(deserializer.position(), 0);
    assert_eq!(deserializer.eat_byte().unwrap(), 7);

    // The sequence opens and then goes wrong.
    assert!(matches!(
        deserializer.deserialize_seq(&Shape::U16),
        Err(Error::UnexpectedEOF)
    ));
    assert_eq!(deserializer.position(), 1);
    assert_eq!(deserializer.deserialize_seq(&Shape::U8).unwrap(), vec![Value::U8(1)]);
    assert_eq!(deserializer.position(), 4);
}

#[test]
fn every_refused_read_leaves_the_cursor_where_it_stood() {
    let input = [0x26, 1, 0x2E, 2, 0x2E];
    let mut deserializer = CustomDeserializer::new(&input);
    let pair = vec![Shape::U8, Shape::U8];
    assert!(deserializer.deserialize_tuple(&pair).is_err());
    assert_eq!(deserializer.position(), 0);
    assert!(deserializer.deserialize(&Shape::List(Box::new(Shape::U8))).is_err());
    assert_eq!(deserializer.position(), 0);
    assert!(deserializer.deserialize_option(&Shape::U64).is_err());
    assert_eq!(deserializer.position(), 0);

    let input = [0x3A, 1, 0x3B, 2, 0x3C, 3];
    let mut deserializer = CustomDeserializer::new(&input);
    assert!(matches!(
        deserializer.deserialize_map(&Shape::U8, &Shape::U8),
        Err(Error::UnexpectedEOF)
    ));
    assert_eq!(deserializer.position(), 0);

    let bytes = to_bytes(&human()).unwrap();
    let cut = &bytes[..bytes.len() - 2];
    let mut deserializer = CustomDeserializer::new(cut);
    let fields = vec![named("name", Shape::Str), named("age", Shape::U8)];
    assert!(matches!(deserializer.deserialize_struct(&fields), Err(Error::UnexpectedEOF)));
    assert_eq!(deserializer.position(), 0);
    let renamed = vec![named("name", Shape::Str), named("years", Shape::U8)];
    let mut deserializer = CustomDeserializer::new(&bytes);
    assert!(deserializer.deserialize_struct(&renamed).is_err());
    assert_eq!(deserializer.position(), 0);
    deserializer.eat_token(Delimiter::MapStart).unwrap();
    let due = "age".to_string();
    assert!(matches!(
        deserializer.deserialize_field(true, &due, &Shape::U8),
        Err(Error::DeserializationError(_))
    ));
    assert_eq!(deserializer.position(), 1);
    let due = "name".to_string();
    assert_eq!(
        deserializer.deserialize_field(true, &due, &Shape::Str).unwrap(),
        (text("name"), text("Ayush"))
    );

    let input = [0x95, 1, 0, 0, 0, 7];
    let mut deserializer = CustomDeserializer::new(&input);
    let variants = vec![None, Some(Shape::U16)];
    assert!(matches!(deserializer.deserialize_enum(&variants), Err(Error::UnexpectedEOF)));
    assert_eq!(deserializer.position(), 0);
}

#[test]
fn refused_run_of_bytes_reads_and_appends_nothing() {
    // The length asks for five bytes and three follow.
    let mut input = 5u64.to_le_bytes().to_vec();
    input.extend_from_slice(&[1, 2, 3]);
    let mut deserializer = CustomDeserializer::new(&input);
    let mut buffer = vec![9];
    assert!(matches!(deserializer.parse_bytes(&mut buffer), Err(Error::UnexpectedEOF)));
    assert_eq!(deserializer.position(), 0);
    assert_eq!(buffer, vec![9]);
    assert!(matches!(deserializer.parse_str(&mut buffer), Err(Error::UnexpectedEOF)));
    assert_eq!(deserializer.position(), 0);
    assert_eq!(buffer, vec![9]);

    // The bytes are there and are not UTF-8.
    let mut input = 2u64.to_le_bytes().to_vec();
    input.extend_from_slice(&[0xC3, 0x28]);
    let mut deserializer = CustomDeserializer::new(&input);
    let mut buffer = vec![b'a'];
    assert!(matches!(deserializer.parse_str(&mut buffer), Err(Error::InvalidUtf8)));
    assert_eq!(deserializer.position(), 0);
    assert_eq!(buffer, vec![b'a']);
}

#[test]
fn pull_is_past_the_first_once_an_element_was_asked_for() {
    // The first element is cut short.
    let input = [0x26, 1];
    let mut deserializer = CustomDeserializer::new(&input);
    deserializer.eat_token(Delimiter::SeqStart).unwrap();
    {
        let mut access = SequenceDeserializer::new(&mut deserializer);
        assert!(access.first);
        assert!(matches!(access.next_element(&Shape::U16), Err(Error::UnexpectedEOF)));
        assert!(!access.first);
    }
    assert_eq!(deserializer.position(), 1);

    // The separator is missing: no element was asked for.
    let input = [0x26, 1, 2, 0x29];
    let mut deserializer = CustomDeserializer::new(&input);
    deserializer.eat_token(Delimiter::SeqStart).unwrap();
    {
        let mut access = SequenceDeserializer::new(&mut deserializer);
        assert_eq!(access.next_element(&Shape::U8).unwrap(), Some(Value::U8(1)));
        assert!(matches!(
            access.next_element(&Shape::U8),
            Err(Error::ExpectedDelimiter(Delimiter::SeqValue))
        ));
        assert!(!access.first);
    }
    assert_eq!(deserializer.position(), 2);

    // At the end of the input the missing separator is the end of the input.
    let input = [0x26, 1];
    let mut deserializer = CustomDeserializer::new(&input);
    deserializer.eat_token(Delimiter::SeqStart).unwrap();
    let mut access = SequenceDeserializer::new(&mut deserializer);
    assert_eq!(access.next_element(&Shape::U8).unwrap(), Some(Value::U8(1)));
    assert!(matches!(access.next_element(&Shape::U8), Err(Error::UnexpectedEOF)));

    // The same for the keys of a map.
    let input = [0x3A, 1];
    let mut deserializer = CustomDeserializer::new(&input);
    deserializer.eat_token(Delimiter::MapStart).unwrap();
    {
        let mut access = MapDeserializer::new(&mut deserializer);
        assert!(matches!(access.next_key(&Shape::U8), Err(Error::UnexpectedEOF)));
        assert!(!access.first);
    }
    assert_eq!(deserializer.position(), 1);
}

#[test]
fn inner_opening_is_the_start_of_the_first_element() {
    let value = Value::List(vec![Value::List(vec![])]);
    let bytes = to_bytes(&value).unwrap();
    assert_eq!(bytes, vec![0x26, 0x26, 0x29, 0x29]);
    let inner = Shape::List(Box::new(Shape::U8));
    let mut deserializer = CustomDeserializer::new(&bytes);
    deserializer.eat_token(Delimiter::SeqStart).unwrap();
    {
        let mut access = SequenceDeserializer::new(&mut deserializer);
        assert_eq!(access.next_element(&inner).unwrap(), Some(Value::List(vec![])));
        assert_eq!(access.next_element(&inner).unwrap(), None);
    }
    assert_eq!(deserializer.position(), 3);
    assert_eq!(from_bytes(&bytes, &Shape::List(Box::new(inner))).unwrap(), value);
}

#[test]
fn nested_sequence_cut_short_is_refused() {
    let lists = Shape::List(Box::new(Shape::List(Box::new(Shape::U8))));
    let value = Value::List(vec![Value::List(vec![])]);
    let bytes = to_bytes(&value).unwrap();
    // Only the closing delimiter is missing.
    let cut = &bytes[..bytes.len() - 1];
    assert!(matches!(from_bytes(cut, &lists), Err(Error::UnexpectedEOF)));

    assert_every_prefix_is_refused(value, lists);
    assert_every_prefix_is_refused(
        Value::List(vec![
            Value::List(vec![Value::U8(1), Value::U8(2)]),
            Value::List(vec![]),
            Value::List(vec![Value::U8(3)]),
        ]),
        Shape::List(Box::new(Shape::List(Box::new(Shape::U8)))),
    );
    assert_every_prefix_is_refused(
        Value::List(vec![Value::List(vec![Value::U8(1), text("one")])]),
        Shape::List(Box::new(Shape::Tuple(vec![Shape::U8, Shape::Str]))),
    );
    assert_every_prefix_is_refused(
        Value::Dict(vec![(Value::Dict(vec![(Value::U8(1), Value::U8(2))]), Value::U8(3))]),
        Shape::Dict(
            Box::new(Shape::Dict(Box::new(Shape::U8), Box::new(Shape::U8))),
            Box::new(Shape::U8),
        ),
    );
}
