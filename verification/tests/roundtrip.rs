use rust_fr::protocol::deserializer::from_bytes;
use rust_fr::protocol::serializer::to_bytes;
use rust_fr::protocol::value::Shape;
use rust_fr::protocol::value::Value;

fn text(s: &str) -> Value {
    Value::Str(s.to_string())
}

fn field(name: &str, value: Value) -> (Value, Value) {
    (text(name), value)
}

fn named(name: &str, shape: Shape) -> (String, Shape) {
    (name.to_string(), shape)
}

fn primitives_value() -> Value {
    Value::Dict(vec![
        field("a", Value::U8(1)),
        field("b", Value::U16(2)),
        field("c", Value::U32(3)),
        field("d", Value::U64(4)),
        field("e", Value::I8(-1)),
        field("f", Value::I16(-2)),
        field("g", Value::I32(-3)),
        field("h", Value::I64(-4)),
        field("i", Value::F32(1.0f32.to_bits())),
        field("j", Value::F64(2.0f64.to_bits())),
        field("k", Value::Bool(true)),
        field("l", Value::Char('a')),
        field("m", text("hello")),
    ])
}

fn primitives_fields() -> Vec<(String, Shape)> {
    vec![
        named("a", Shape::U8),
        named("b", Shape::U16),
        named("c", Shape::U32),
        named("d", Shape::U64),
        named("e", Shape::I8),
        named("f", Shape::I16),
        named("g", Shape::I32),
        named("h", Shape::I64),
        named("i", Shape::F32),
        named("j", Shape::F64),
        named("k", Shape::Bool),
        named("l", Shape::Char),
        named("m", Shape::Str),
    ]
}

fn string_to_u8_map() -> Value {
    Value::Dict(vec![(text("a"), Value::U8(1)), (text("b"), Value::U8(2))])
}

fn string_to_u8_shape() -> Shape {
    Shape::Dict(Box::new(Shape::Str), Box::new(Shape::U8))
}

fn some(value: Value) -> Value {
    Value::Opt(Some(Box::new(value)))
}

fn opt(shape: Shape) -> Shape {
    Shape::Opt(Box::new(shape))
}

fn assert_round_trip(value: Value, shape: Shape) {
    let bytes = to_bytes(&value).unwrap();
    let read = from_bytes(&bytes, &shape).unwrap();
    assert_eq!(value, read);
}

#[test]
fn primitives() {
    let primitives = primitives_value();

    // Serialize
    let bytes = to_bytes(&primitives).unwrap();

    // Deserialize
    let deserialized_primitives = from_bytes(&bytes, &Shape::Struct(primitives_fields())).unwrap();
    assert_eq!(primitives, deserialized_primitives);
}

#[test]
fn compound_types() {
    let compound_types = Value::Dict(vec![
        field("a", Value::List(vec![Value::U8(1), Value::U8(2), Value::U8(3)])),
        field("b", string_to_u8_map()),
        field("c", some(Value::U8(1))),
        field("d", Value::Opt(None)),
        field("e", primitives_value()),
    ]);
    let shape = Shape::Struct(vec![
        named("a", Shape::List(Box::new(Shape::U8))),
        named("b", string_to_u8_shape()),
        named("c", opt(Shape::U8)),
        named("d", opt(Shape::Str)),
        named("e", Shape::Struct(primitives_fields())),
    ]);

    // Serialize
    let bytes = to_bytes(&compound_types).unwrap();

    // Deserialize
    let deserialized_compound_types = from_bytes(&bytes, &shape).unwrap();
    assert_eq!(compound_types, deserialized_compound_types);
}

#[test]
fn random() {
    let random = Value::Dict(vec![
        field("a", Value::U8(1)),
        field("b", Value::U16(2)),
        field("c", Value::U32(3)),
        field("d", Value::U64(4)),
        field("e", Value::I8(-1)),
        field("f", Value::I16(-2)),
        field("g", Value::I32(-3)),
        field("h", Value::I64(-4)),
        field("i", Value::F32(1.0f32.to_bits())),
        field("j", Value::F64(2.0f64.to_bits())),
        field("k", Value::Bool(true)),
        field("l", Value::Char('a')),
        field("m", text("hello")),
        field("n", Value::List(vec![Value::U8(1), Value::U8(2), Value::U8(3)])),
        field("o", string_to_u8_map()),
        field("p", some(Value::U8(1))),
        field("q", Value::Opt(None)),
    ]);
    let mut fields = primitives_fields();
    fields.push(named("n", Shape::List(Box::new(Shape::U8))));
    fields.push(named("o", string_to_u8_shape()));
    fields.push(named("p", opt(Shape::U8)));
    fields.push(named("q", opt(Shape::Str)));

    // Serialize
    let bytes = to_bytes(&random).unwrap();

    // Deserialize
    let deserialized_random = from_bytes(&bytes, &Shape::Struct(fields)).unwrap();
    assert_eq!(random, deserialized_random);
}

#[test]
fn readme_example() {
    let human = Value::Dict(vec![field("name", text("Ayush")), field("age", Value::U8(19))]);
    let shape = Shape::Struct(vec![named("name", Shape::Str), named("age", Shape::U8)]);

    // serialize the data to bytes (Vec<u8>)
    let human_bytes = to_bytes(&human).unwrap();

    // deserialize the data from serialized bytes.
    let deserialized_human = from_bytes(&human_bytes, &shape).unwrap();

    assert_eq!(human, deserialized_human);
}

#[test]
fn every_primitive_round_trips_at_its_bounds() {
    assert_round_trip(Value::Bool(false), Shape::Bool);
    assert_round_trip(Value::Bool(true), Shape::Bool);
    assert_round_trip(Value::I8(i8::MIN), Shape::I8);
    assert_round_trip(Value::I8(i8::MAX), Shape::I8);
    assert_round_trip(Value::I16(i16::MIN), Shape::I16);
    assert_round_trip(Value::I16(i16::MAX), Shape::I16);
    assert_round_trip(Value::I32(i32::MIN), Shape::I32);
    assert_round_trip(Value::I32(i32::MAX), Shape::I32);
    assert_round_trip(Value::I64(i64::MIN), Shape::I64);
    assert_round_trip(Value::I64(i64::MAX), Shape::I64);
    assert_round_trip(Value::I64(-1), Shape::I64);
    assert_round_trip(Value::U8(u8::MAX), Shape::U8);
    assert_round_trip(Value::U16(u16::MAX), Shape::U16);
    assert_round_trip(Value::U32(u32::MAX), Shape::U32);
    assert_round_trip(Value::U64(u64::MAX), Shape::U64);
    assert_round_trip(Value::U64(0), Shape::U64);
    assert_round_trip(Value::Char('\0'), Shape::Char);
    assert_round_trip(Value::Char('\u{10FFFF}'), Shape::Char);
    assert_round_trip(Value::Char('é'), Shape::Char);
    assert_round_trip(Value::Unit, Shape::Unit);
}

#[test]
fn floats_round_trip_bit_for_bit() {
    for x in [0.0f32, -0.0, 1.5, f32::MIN, f32::MAX, f32::INFINITY, f32::NAN] {
        let bytes = to_bytes(&Value::F32(x.to_bits())).unwrap();
        assert_eq!(bytes, x.to_le_bytes().to_vec());
        match from_bytes(&bytes, &Shape::F32).unwrap() {
            Value::F32(bits) => assert_eq!(bits, x.to_bits()),
            other => panic!("read {:?}", other),
        }
    }
    for x in [0.0f64, -2.0, 1e300, f64::NEG_INFINITY, f64::NAN] {
        let bytes = to_bytes(&Value::F64(x.to_bits())).unwrap();
        assert_eq!(bytes, x.to_le_bytes().to_vec());
        match from_bytes(&bytes, &Shape::F64).unwrap() {
            Value::F64(bits) => assert_eq!(bits, x.to_bits()),
            other => panic!("read {:?}", other),
        }
    }
}

#[test]
fn strings_and_bytes_round_trip_with_any_content() {
    assert_round_trip(text(""), Shape::Str);
    assert_round_trip(text("hello"), Shape::Str);
    assert_round_trip(text("quote \" hash # colon : amp &"), Shape::Str);
    assert_round_trip(text("héllo wörld ✓ 🦀"), Shape::Str);
    assert_round_trip(Value::Bytes(vec![]), Shape::Bytes);
    let delimiters = vec![0x22, 0x23, 0x05, 0x26, 0x29, 0x2E, 0x3A, 0x3E];
    assert_round_trip(Value::Bytes(delimiters), Shape::Bytes);
    assert_round_trip(Value::Bytes((0..=255).collect()), Shape::Bytes);
}

#[test]
fn empty_collections_round_trip() {
    let list = Shape::List(Box::new(Shape::U32));
    let bytes = to_bytes(&Value::List(vec![])).unwrap();
    assert_eq!(bytes, vec![0x26, 0x29]);
    assert_eq!(from_bytes(&bytes, &list).unwrap(), Value::List(vec![]));

    let bytes = to_bytes(&Value::Dict(vec![])).unwrap();
    assert_eq!(bytes, vec![0x3A, 0x3E]);
    assert_eq!(from_bytes(&bytes, &string_to_u8_shape()).unwrap(), Value::Dict(vec![]));

    assert_round_trip(Value::List(vec![]), Shape::Tuple(vec![]));
    assert_round_trip(Value::Dict(vec![]), Shape::Struct(vec![]));
}

#[test]
fn nested_collections_round_trip() {
    let lists = Shape::List(Box::new(Shape::List(Box::new(Shape::U16))));
    assert_round_trip(Value::List(vec![Value::List(vec![])]), lists);

    let lists = Shape::List(Box::new(Shape::List(Box::new(Shape::U16))));
    let value = Value::List(vec![
        Value::List(vec![]),
        Value::List(vec![Value::U16(1), Value::U16(2)]),
        Value::List(vec![]),
    ]);
    assert_round_trip(value, lists);

    let pairs = Shape::List(Box::new(Shape::Tuple(vec![Shape::U8, Shape::Str])));
    let value = Value::List(vec![
        Value::List(vec![Value::U8(1), text("one")]),
        Value::List(vec![Value::U8(2), text("two")]),
    ]);
    assert_round_trip(value, pairs);

    let deep = Shape::List(Box::new(Shape::List(Box::new(Shape::List(Box::new(Shape::U8))))));
    let value = Value::List(vec![Value::List(vec![Value::List(vec![Value::U8(0x26)])])]);
    assert_round_trip(value, deep);

    let map = Value::Dict(vec![
        (Value::U8(1), string_to_u8_map()),
        (Value::U8(2), Value::Dict(vec![])),
    ]);
    assert_round_trip(map, Shape::Dict(Box::new(Shape::U8), Box::new(string_to_u8_shape())));

    // A map whose first key is a map, and one whose first key is a struct.
    let keyed_by_map = Shape::Dict(Box::new(string_to_u8_shape()), Box::new(Shape::Bool));
    let value = Value::Dict(vec![
        (string_to_u8_map(), Value::Bool(true)),
        (Value::Dict(vec![]), Value::Bool(false)),
    ]);
    assert_round_trip(value, keyed_by_map);
    let keyed_by_struct = Shape::Dict(
        Box::new(Shape::Struct(vec![named("a", Shape::U8)])),
        Box::new(Shape::U8),
    );
    let value = Value::Dict(vec![(Value::Dict(vec![field("a", Value::U8(7))]), Value::U8(1))]);
    assert_round_trip(value, keyed_by_struct);

    // A list of enum variants and a list of present optional lists.
    let variants = Shape::List(Box::new(Shape::Enum(vec![None, Some(Shape::U8)])));
    let value = Value::List(vec![
        Value::Variant(0, None),
        Value::Variant(1, Some(Box::new(Value::U8(9)))),
    ]);
    assert_round_trip(value, variants);
    let optional = Shape::List(Box::new(opt(Shape::List(Box::new(Shape::U8)))));
    let value = Value::List(vec![some(Value::List(vec![])), Value::Opt(None)]);
    assert_round_trip(value, optional);
}

#[test]
fn tuples_hold_one_shape_for_each_position() {
    // The first element is the byte that closes a sequence: a tuple is read
    // to its length, so the byte is read as the element.
    let value = Value::List(vec![Value::U8(0x29), text("x"), Value::Bool(true), Value::Unit]);
    let shape = Shape::Tuple(vec![Shape::U8, Shape::Str, Shape::Bool, Shape::Unit]);
    assert_round_trip(value, shape);
}

#[test]
fn option_none_round_trips_to_none() {
    let bytes = to_bytes(&Value::Opt(None)).unwrap();
    assert_eq!(bytes, vec![0x05]);
    assert_eq!(from_bytes(&bytes, &opt(Shape::U8)).unwrap(), Value::Opt(None));
    assert_eq!(from_bytes(&bytes, &opt(Shape::Str)).unwrap(), Value::Opt(None));
}

#[test]
fn option_some_zero_round_trips_and_differs_from_none() {
    let some_zero = some(Value::U8(0));
    let bytes = to_bytes(&some_zero).unwrap();
    assert_eq!(bytes, vec![0x00]);
    assert_ne!(bytes, to_bytes(&Value::Opt(None)).unwrap());
    assert_eq!(from_bytes(&bytes, &opt(Shape::U8)).unwrap(), some_zero);
}

#[test]
fn option_whose_payload_begins_with_the_unit_byte_reads_as_none() {
    // The byte 5 is the unit delimiter.
    let bytes = to_bytes(&some(Value::U8(5))).unwrap();
    assert_eq!(bytes, vec![0x05]);
    assert_eq!(from_bytes(&bytes, &opt(Shape::U8)).unwrap(), Value::Opt(None));

    // So is the first byte of the length of a string of five bytes.
    let bytes = to_bytes(&some(text("hello"))).unwrap();
    assert_eq!(from_bytes(&bytes, &opt(Shape::Str)).unwrap(), Value::Opt(None));
}

#[test]
fn list_whose_first_element_begins_with_the_closing_byte_reads_as_empty() {
    let bytes = to_bytes(&Value::List(vec![Value::U8(0x29), Value::U8(1)])).unwrap();
    assert_eq!(bytes, vec![0x26, 0x29, 0x2E, 0x01, 0x29]);
    assert_eq!(
        from_bytes(&bytes, &Shape::List(Box::new(Shape::U8))).unwrap(),
        Value::List(vec![])
    );
    // Behind the first place the same byte is read as an element.
    assert_round_trip(
        Value::List(vec![Value::U8(1), Value::U8(0x29), Value::U8(0x2E)]),
        Shape::List(Box::new(Shape::U8)),
    );
}

fn enum_shape() -> Shape {
    Shape::Enum(vec![
        None,
        Some(Shape::U8),
        Some(Shape::Tuple(vec![Shape::U8, Shape::Str])),
        Some(Shape::Struct(vec![named("a", Shape::U8), named("b", Shape::U16)])),
    ])
}

#[test]
fn unit_variant_round_trips() {
    assert_round_trip(Value::Variant(0, None), enum_shape());
}

#[test]
fn newtype_variant_round_trips() {
    assert_round_trip(Value::Variant(1, Some(Box::new(Value::U8(4)))), enum_shape());
}

#[test]
fn tuple_variant_round_trips() {
    let payload = Value::List(vec![Value::U8(7), text("seven")]);
    assert_round_trip(Value::Variant(2, Some(Box::new(payload))), enum_shape());
}

#[test]
fn struct_variant_round_trips() {
    let payload = Value::Dict(vec![field("a", Value::U8(142)), field("b", Value::U16(5156))]);
    assert_round_trip(Value::Variant(3, Some(Box::new(payload))), enum_shape());
}

#[test]
fn encoding_is_the_same_in_every_call() {
    let value = primitives_value();
    let first = to_bytes(&value).unwrap();
    let second = to_bytes(&value).unwrap();
    let third = to_bytes(&primitives_value()).unwrap();
    assert_eq!(first, second);
    assert_eq!(first, third);
}

#[test]
fn clone_is_equal_and_has_the_same_bytes() {
    let value = Value::Dict(vec![
        field("a", Value::List(vec![Value::U8(1), some(text("x")), Value::Opt(None)])),
        field("b", Value::Variant(3, Some(Box::new(Value::Bytes(vec![1, 2, 3]))))),
        field("c", primitives_value()),
    ]);
    let copy = value.clone();
    assert_eq!(copy, value);
    assert_eq!(to_bytes(&copy).unwrap(), to_bytes(&value).unwrap());
}

#[test]
fn bytes_behind_the_value_are_left_unread() {
    let mut bytes = to_bytes(&Value::U16(0x0102)).unwrap();
    bytes.extend_from_slice(&[9, 9, 9]);
    assert_eq!(from_bytes(&bytes, &Shape::U16).unwrap(), Value::U16(0x0102));
}
