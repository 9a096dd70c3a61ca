//! The grammar of the stream: the bytes that stand for a value, and the value
//! that bytes stand for when they are read as a given shape.

use vstd::prelude::*;
use vstd::utf8::decode_utf8;
use vstd::utf8::encode_utf8;
use vstd::utf8::is_scalar;
use vstd::utf8::valid_utf8;
use super::error::SpecError;
use super::token::Delimiter;
use super::value::Shape;
use super::value::SpecValue;
use super::wire::from_twos_complement;
use super::wire::le_bytes;
use super::wire::le_value;
use super::wire::twos_complement;

verus! {

/// The one byte of a delimiter.
pub open spec fn token(delimiter: Delimiter) -> Seq<u8> {
    seq![delimiter.pattern()]
}

/// The bytes that a separator takes: none before the first element of a
/// collection, the delimiter before every other.
pub open spec fn separator(first: bool, delimiter: Delimiter) -> Seq<u8> {
    if first {
        Seq::empty()
    } else {
        token(delimiter)
    }
}

/// A run of bytes behind its length, which is written as 64 bits.
pub open spec fn length_prefixed(bytes: Seq<u8>) -> Seq<u8> {
    le_bytes(bytes.len(), 8) + bytes
}

/// The bytes that stand for `value`.
///
/// - A boolean is one byte, 0 or 1.
/// - An integer is its bytes in little-endian order, in its exact width; a
///   floating-point number is its bit pattern written the same way, and a
///   character is its scalar value in four bytes.
/// - A string is its UTF-8 bytes behind their number; a byte buffer is its
///   bytes behind their number.
/// - The unit value and an absent optional value are the unit delimiter; a
///   present optional value is written as the value itself.
/// - A list stands between the delimiter that opens a sequence and the one
///   that closes it, a dictionary between the two of a map.
/// - An enum variant is the enum delimiter, the index in four bytes, and the
///   payload if it has one.
pub open spec fn encoding(value: SpecValue) -> Seq<u8>
    decreases value,
{
    match value {
        SpecValue::Bool(b) => seq![if b { 1u8 } else { 0u8 }],
        SpecValue::I8(x) => le_bytes(twos_complement(x as int, 1), 1),
        SpecValue::I16(x) => le_bytes(twos_complement(x as int, 2), 2),
        SpecValue::I32(x) => le_bytes(twos_complement(x as int, 4), 4),
        SpecValue::I64(x) => le_bytes(twos_complement(x as int, 8), 8),
        SpecValue::U8(x) => le_bytes(x as nat, 1),
        SpecValue::U16(x) => le_bytes(x as nat, 2),
        SpecValue::U32(x) => le_bytes(x as nat, 4),
        SpecValue::U64(x) => le_bytes(x as nat, 8),
        SpecValue::F32(bits) => le_bytes(bits as nat, 4),
        SpecValue::F64(bits) => le_bytes(bits as nat, 8),
        SpecValue::Char(c) => le_bytes(c as u32 as nat, 4),
        SpecValue::Str(text) => length_prefixed(encode_utf8(text)),
        SpecValue::Bytes(bytes) => length_prefixed(bytes),
        SpecValue::Unit => token(Delimiter::Unit),
        SpecValue::Opt(None) => token(Delimiter::Unit),
        SpecValue::Opt(Some(inner)) => encoding(*inner),
        SpecValue::List(items) => token(Delimiter::SeqStart) + encoding_items(items) + token(
            Delimiter::SeqEnd,
        ),
        SpecValue::Dict(entries) => token(Delimiter::MapStart) + encoding_entries(entries)
            + token(Delimiter::MapEnd),
        SpecValue::Variant(index, None) => token(Delimiter::Enum) + le_bytes(index as nat, 4),
        SpecValue::Variant(index, Some(payload)) => token(Delimiter::Enum) + le_bytes(
            index as nat,
            4,
        ) + encoding(*payload),
    }
}

/// The elements of a list on the wire: one after the other, with a value
/// delimiter before every element but the first.
pub open spec fn encoding_items(items: Seq<SpecValue>) -> Seq<u8>
    decreases items,
{
    if items.len() == 0 {
        Seq::empty()
    } else if items.len() == 1 {
        encoding(items.last())
    } else {
        encoding_items(items.drop_last()) + token(Delimiter::SeqValue) + encoding(items.last())
    }
}

/// One entry of a dictionary on the wire: the key, the key delimiter, the
/// value.
pub open spec fn encoding_entry(entry: (SpecValue, SpecValue)) -> Seq<u8>
    decreases entry,
{
    encoding(entry.0) + token(Delimiter::MapKey) + encoding(entry.1)
}

/// The entries of a dictionary on the wire: one after the other, with a value
/// delimiter before every entry but the first.
pub open spec fn encoding_entries(entries: Seq<(SpecValue, SpecValue)>) -> Seq<u8>
    decreases entries,
{
    if entries.len() == 0 {
        Seq::empty()
    } else if entries.len() == 1 {
        encoding_entry(entries.last())
    } else {
        encoding_entries(entries.drop_last()) + token(Delimiter::MapValue) + encoding_entry(
            entries.last(),
        )
    }
}

/// What a list's elements come to when one more is written.
pub proof fn lemma_encoding_items_push(items: Seq<SpecValue>, item: SpecValue)
    ensures
        encoding_items(items.push(item)) == if items.len() == 0 {
            encoding(item)
        } else {
            encoding_items(items) + token(Delimiter::SeqValue) + encoding(item)
        },
{
    assert(items.push(item).drop_last() =~= items);
}

/// What a dictionary's entries come to when one more is written.
pub proof fn lemma_encoding_entries_push(
    entries: Seq<(SpecValue, SpecValue)>,
    entry: (SpecValue, SpecValue),
)
    ensures
        encoding_entries(entries.push(entry)) == if entries.len() == 0 {
            encoding_entry(entry)
        } else {
            encoding_entries(entries) + token(Delimiter::MapValue) + encoding_entry(entry)
        },
{
    assert(entries.push(entry).drop_last() =~= entries);
}

/// The number of bytes from `pos` to the end of `input`.
pub open spec fn remaining(input: Seq<u8>, pos: nat) -> nat {
    if pos <= input.len() {
        (input.len() - pos) as nat
    } else {
        0
    }
}

/// Whether the byte at `pos` is that of `delimiter`. At the end of the input
/// no delimiter is found.
pub open spec fn token_at(input: Seq<u8>, pos: nat, delimiter: Delimiter) -> bool {
    pos < input.len() && input[pos as int] == delimiter.pattern()
}

/// Reads a delimiter that must stand at `pos`. The result is the number of
/// bytes read, which is 1.
pub open spec fn expect(input: Seq<u8>, pos: nat, delimiter: Delimiter) -> Result<nat, SpecError> {
    if pos >= input.len() {
        Err(SpecError::UnexpectedEOF)
    } else if input[pos as int] != delimiter.pattern() {
        Err(SpecError::ExpectedDelimiter(delimiter))
    } else {
        Ok(1)
    }
}

/// Reads the separator before an element: nothing before the first, the
/// delimiter before every other. The result is the number of bytes read.
pub open spec fn separator_at(
    input: Seq<u8>,
    pos: nat,
    first: bool,
    delimiter: Delimiter,
) -> Result<nat, SpecError> {
    if first {
        Ok(0)
    } else {
        expect(input, pos, delimiter)
    }
}

/// Whether an integer can be `width` bytes wide.
pub open spec fn valid_width(width: nat) -> bool {
    width == 1 || width == 2 || width == 4 || width == 8
}

/// Reads an unsigned integer of `width` bytes at `pos`.
pub open spec fn unsigned_at(input: Seq<u8>, pos: nat, width: nat) -> Result<nat, SpecError> {
    if remaining(input, pos) < width {
        Err(SpecError::UnexpectedEOF)
    } else if !valid_width(width) {
        Err(SpecError::InvalidTypeSize)
    } else {
        Ok(le_value(input.subrange(pos as int, pos + width as int)))
    }
}

/// Reads a signed integer of `width` bytes at `pos`.
pub open spec fn signed_at(input: Seq<u8>, pos: nat, width: nat) -> Result<int, SpecError> {
    match unsigned_at(input, pos, width) {
        Err(e) => Err(e),
        Ok(n) => Ok(from_twos_complement(n, width)),
    }
}

/// Reads a boolean at `pos`: one byte, which must be 0 or 1.
pub open spec fn bool_at(input: Seq<u8>, pos: nat) -> Result<bool, SpecError> {
    if pos >= input.len() {
        Err(SpecError::UnexpectedEOF)
    } else if input[pos as int] == 0 {
        Ok(false)
    } else if input[pos as int] == 1 {
        Ok(true)
    } else {
        Err(SpecError::ConversionError)
    }
}

/// Reads a character at `pos`: four bytes, which must hold a Unicode scalar
/// value.
pub open spec fn char_at(input: Seq<u8>, pos: nat) -> Result<char, SpecError> {
    match unsigned_at(input, pos, 4) {
        Err(e) => Err(e),
        Ok(code) => if is_scalar(code as u32) {
            Ok(code as u32 as char)
        } else {
            Err(SpecError::InvalidCharCode(code as u32))
        },
    }
}

/// Reads a run of bytes behind its length at `pos`. The result is the run
/// and the number of bytes read, the eight of the length included.
pub open spec fn run_at(input: Seq<u8>, pos: nat) -> Result<(Seq<u8>, nat), SpecError> {
    match unsigned_at(input, pos, 8) {
        Err(e) => Err(e),
        Ok(len) => if remaining(input, pos + 8) < len {
            Err(SpecError::UnexpectedEOF)
        } else {
            Ok((input.subrange(pos + 8 as int, pos + 8 + len as int), 8 + len))
        },
    }
}

/// Reads a string at `pos`: a run of bytes, which must be UTF-8.
pub open spec fn text_at(input: Seq<u8>, pos: nat) -> Result<(Seq<char>, nat), SpecError> {
    match run_at(input, pos) {
        Err(e) => Err(e),
        Ok((bytes, n)) => if valid_utf8(bytes) {
            Ok((decode_utf8(bytes), n))
        } else {
            Err(SpecError::InvalidUtf8)
        },
    }
}

/// Reads the head of an enum variant at `pos`: the enum delimiter and an
/// index, which must be below `count`, the number of variants that the enum
/// has. The result is the index and the number of bytes read.
pub open spec fn variant_at(input: Seq<u8>, pos: nat, count: nat) -> Result<(u32, nat), SpecError> {
    match expect(input, pos, Delimiter::Enum) {
        Err(e) => Err(e),
        Ok(mark) => match unsigned_at(input, pos + mark, 4) {
            Err(e) => Err(e),
            Ok(index) => if index >= count {
                Err(SpecError::UnknownVariantIndex(index as u32))
            } else {
                Ok((index as u32, mark + 4))
            },
        },
    }
}

/// Reads `input` from `pos` on as a value of the given shape. The result is
/// the value and the number of bytes read, or the first error met.
///
/// - A fixed-width value needs its bytes: `UnexpectedEOF` if fewer remain.
/// - An optional value is absent if the unit delimiter stands at `pos`, else
///   it is present and read as the inner shape.
/// - A list and a dictionary are read element by element until the closing
///   delimiter is seen where an element could begin. A tuple and a struct
///   are read to the length that their shape gives.
/// - An enum is the enum delimiter, an index that the shape must know, and
///   the payload of that variant.
pub open spec fn decoding(shape: Shape, input: Seq<u8>, pos: nat) -> Result<
    (SpecValue, nat),
    SpecError,
>
    decreases shape, 1nat, 0nat, 0nat,
{
    match shape {
        Shape::Bool => match bool_at(input, pos) {
            Err(e) => Err(e),
            Ok(b) => Ok((SpecValue::Bool(b), 1)),
        },
        Shape::I8 => match signed_at(input, pos, 1) {
            Err(e) => Err(e),
            Ok(x) => Ok((SpecValue::I8(x as i8), 1)),
        },
        Shape::I16 => match signed_at(input, pos, 2) {
            Err(e) => Err(e),
            Ok(x) => Ok((SpecValue::I16(x as i16), 2)),
        },
        Shape::I32 => match signed_at(input, pos, 4) {
            Err(e) => Err(e),
            Ok(x) => Ok((SpecValue::I32(x as i32), 4)),
        },
        Shape::I64 => match signed_at(input, pos, 8) {
            Err(e) => Err(e),
            Ok(x) => Ok((SpecValue::I64(x as i64), 8)),
        },
        Shape::U8 => match unsigned_at(input, pos, 1) {
            Err(e) => Err(e),
            Ok(x) => Ok((SpecValue::U8(x as u8), 1)),
        },
        Shape::U16 => match unsigned_at(input, pos, 2) {
            Err(e) => Err(e),
            Ok(x) => Ok((SpecValue::U16(x as u16), 2)),
        },
        Shape::U32 => match unsigned_at(input, pos, 4) {
            Err(e) => Err(e),
            Ok(x) => Ok((SpecValue::U32(x as u32), 4)),
        },
        Shape::U64 => match unsigned_at(input, pos, 8) {
            Err(e) => Err(e),
            Ok(x) => Ok((SpecValue::U64(x as u64), 8)),
        },
        Shape::F32 => match unsigned_at(input, pos, 4) {
            Err(e) => Err(e),
            Ok(x) => Ok((SpecValue::F32(x as u32), 4)),
        },
        Shape::F64 => match unsigned_at(input, pos, 8) {
            Err(e) => Err(e),
            Ok(x) => Ok((SpecValue::F64(x as u64), 8)),
        },
        Shape::Char => match char_at(input, pos) {
            Err(e) => Err(e),
            Ok(c) => Ok((SpecValue::Char(c), 4)),
        },
        Shape::Str => match text_at(input, pos) {
            Err(e) => Err(e),
            Ok((text, n)) => Ok((SpecValue::Str(text), n)),
        },
        Shape::Bytes => match run_at(input, pos) {
            Err(e) => Err(e),
            Ok((bytes, n)) => Ok((SpecValue::Bytes(bytes), n)),
        },
        Shape::Unit => match expect(input, pos, Delimiter::Unit) {
            Err(e) => Err(e),
            Ok(n) => Ok((SpecValue::Unit, n)),
        },
        Shape::Opt(inner) => if token_at(input, pos, Delimiter::Unit) {
            Ok((SpecValue::Opt(None), 1))
        } else {
            match decoding(*inner, input, pos) {
                Err(e) => Err(e),
                Ok((value, n)) => Ok((SpecValue::Opt(Some(Box::new(value))), n)),
            }
        },
        Shape::List(element) => match expect(input, pos, Delimiter::SeqStart) {
            Err(e) => Err(e),
            Ok(open) => match list_items(*element, input, pos + open, true) {
                Err(e) => Err(e),
                Ok((items, n)) => Ok((SpecValue::List(items), open + n)),
            },
        },
        Shape::Tuple(shapes) => match expect(input, pos, Delimiter::SeqStart) {
            Err(e) => Err(e),
            Ok(open) => match tuple_items(shapes@, 0, input, pos + open) {
                Err(e) => Err(e),
                Ok((items, n)) => Ok((SpecValue::List(items), open + n)),
            },
        },
        Shape::Dict(key, value) => match expect(input, pos, Delimiter::MapStart) {
            Err(e) => Err(e),
            Ok(open) => match dict_entries(*key, *value, input, pos + open, true) {
                Err(e) => Err(e),
                Ok((entries, n)) => Ok((SpecValue::Dict(entries), open + n)),
            },
        },
        Shape::Struct(fields) => match expect(input, pos, Delimiter::MapStart) {
            Err(e) => Err(e),
            Ok(open) => match struct_fields(fields@, 0, input, pos + open) {
                Err(e) => Err(e),
                Ok((entries, n)) => Ok((SpecValue::Dict(entries), open + n)),
            },
        },
        Shape::Enum(variants) => match variant_at(input, pos, variants@.len()) {
            Err(e) => Err(e),
            Ok((index, head)) => match variants@[index as int] {
                None => Ok((SpecValue::Variant(index, None), head)),
                Some(payload) => match decoding(payload, input, pos + head) {
                    Err(e) => Err(e),
                    Ok((value, n)) => Ok(
                        (SpecValue::Variant(index, Some(Box::new(value))), head + n),
                    ),
                },
            },
        },
    }
}

/// Reads the elements of a list from `pos` on, through the closing
/// delimiter. `first` says that no element has been read yet.
///
/// If the delimiter that closes a sequence stands at `pos` the list ends
/// there. Else a
/// value delimiter must come first, unless this is the first element, and
/// then the element.
pub open spec fn list_items(element: Shape, input: Seq<u8>, pos: nat, first: bool) -> Result<
    (Seq<SpecValue>, nat),
    SpecError,
>
    decreases element, 2nat, remaining(input, pos), if first { 1nat } else { 0nat },
{
    if token_at(input, pos, Delimiter::SeqEnd) {
        Ok((Seq::empty(), 1))
    } else {
        match separator_at(input, pos, first, Delimiter::SeqValue) {
            Err(e) => Err(e),
            Ok(sep) => match decoding(element, input, pos + sep) {
                Err(e) => Err(e),
                Ok((value, n)) => match list_items(element, input, pos + sep + n, false) {
                    Err(e) => Err(e),
                    Ok((rest, m)) => Ok((seq![value] + rest, sep + n + m)),
                },
            },
        }
    }
}

/// Reads the elements of a tuple from the one at index `from` on, through
/// the closing delimiter.
pub open spec fn tuple_items(shapes: Seq<Shape>, from: nat, input: Seq<u8>, pos: nat) -> Result<
    (Seq<SpecValue>, nat),
    SpecError,
>
    decreases shapes, 0nat, shapes.len() - from, 0nat,
{
    if from >= shapes.len() {
        match expect(input, pos, Delimiter::SeqEnd) {
            Err(e) => Err(e),
            Ok(close) => Ok((Seq::empty(), close)),
        }
    } else {
        match separator_at(input, pos, from == 0, Delimiter::SeqValue) {
            Err(e) => Err(e),
            Ok(sep) => match decoding(shapes[from as int], input, pos + sep) {
                Err(e) => Err(e),
                Ok((value, n)) => match tuple_items(shapes, from + 1, input, pos + sep + n) {
                    Err(e) => Err(e),
                    Ok((rest, m)) => Ok((seq![value] + rest, sep + n + m)),
                },
            },
        }
    }
}

/// Reads the entries of a dictionary from `pos` on, through the closing
/// delimiter. `first` says that no entry has been read yet.
///
/// If the delimiter that closes a map stands at `pos` the dictionary ends
/// there. Else a
/// value delimiter must come first, unless this is the first entry, and then
/// the key, the key delimiter and the value.
pub open spec fn dict_entries(
    key_shape: Shape,
    value_shape: Shape,
    input: Seq<u8>,
    pos: nat,
    first: bool,
) -> Result<(Seq<(SpecValue, SpecValue)>, nat), SpecError>
    decreases Shape::Dict(Box::new(key_shape), Box::new(value_shape)), 0nat, remaining(input, pos),
        if first {
            1nat
        } else {
            0nat
        },
{
    if token_at(input, pos, Delimiter::MapEnd) {
        Ok((Seq::empty(), 1))
    } else {
        proof {
            let whole = Shape::Dict(Box::new(key_shape), Box::new(value_shape));
            assert(decreases_to!(whole => *whole->Dict_0));
            assert(decreases_to!(whole => *whole->Dict_1));
        }
        match separator_at(input, pos, first, Delimiter::MapValue) {
            Err(e) => Err(e),
            Ok(sep) => match decoding(key_shape, input, pos + sep) {
                Err(e) => Err(e),
                Ok((key, n)) => match expect(input, pos + sep + n, Delimiter::MapKey) {
                    Err(e) => Err(e),
                    Ok(mid) => match decoding(value_shape, input, pos + sep + n + mid) {
                        Err(e) => Err(e),
                        Ok((value, m)) => match dict_entries(
                            key_shape,
                            value_shape,
                            input,
                            pos + sep + n + mid + m,
                            false,
                        ) {
                            Err(e) => Err(e),
                            Ok((rest, k)) => Ok(
                                (seq![(key, value)] + rest, sep + n + mid + m + k),
                            ),
                        },
                    },
                },
            },
        }
    }
}

/// Reads one field of a struct at `pos`: the separator, unless the field is
/// the first, the key, which must be `name`, the key delimiter and the value
/// of the given shape. Where the key is another, the error carries `name`.
pub open spec fn field_at(
    name: Seq<char>,
    shape: Shape,
    input: Seq<u8>,
    pos: nat,
    first: bool,
) -> Result<((SpecValue, SpecValue), nat), SpecError>
    decreases shape, 2nat, 0nat, 0nat,
{
    match separator_at(input, pos, first, Delimiter::MapValue) {
        Err(e) => Err(e),
        Ok(sep) => match text_at(input, pos + sep) {
            Err(e) => Err(e),
            Ok((key, n)) => if key != name {
                Err(SpecError::DeserializationError(name))
            } else {
                match expect(input, pos + sep + n, Delimiter::MapKey) {
                    Err(e) => Err(e),
                    Ok(mid) => match decoding(shape, input, pos + sep + n + mid) {
                        Err(e) => Err(e),
                        Ok((value, m)) => Ok(((SpecValue::Str(key), value), sep + n + mid + m)),
                    },
                }
            },
        },
    }
}

/// Reads the fields of a struct from the one at index `from` on, through the
/// closing delimiter. Each key must be the name of the field that is due.
pub open spec fn struct_fields(
    fields: Seq<(String, Shape)>,
    from: nat,
    input: Seq<u8>,
    pos: nat,
) -> Result<(Seq<(SpecValue, SpecValue)>, nat), SpecError>
    decreases fields, 0nat, fields.len() - from, 0nat,
{
    if from >= fields.len() {
        match expect(input, pos, Delimiter::MapEnd) {
            Err(e) => Err(e),
            Ok(close) => Ok((Seq::empty(), close)),
        }
    } else {
        match field_at(fields[from as int].0@, fields[from as int].1, input, pos, from == 0) {
            Err(e) => Err(e),
            Ok((entry, n)) => match struct_fields(fields, from + 1, input, pos + n) {
                Err(e) => Err(e),
                Ok((rest, k)) => Ok((seq![entry] + rest, n + k)),
            },
        }
    }
}

/// Whether another element follows in a collection that `close` ends: `None`
/// if `close` stands at `pos`, else the number of bytes that the separator
/// `between` takes, which must stand there unless this is the first element.
pub open spec fn step_at(
    input: Seq<u8>,
    pos: nat,
    first: bool,
    close: Delimiter,
    between: Delimiter,
) -> Result<Option<nat>, SpecError> {
    if token_at(input, pos, close) {
        Ok(None)
    } else {
        match separator_at(input, pos, first, between) {
            Err(e) => Err(e),
            Ok(sep) => Ok(Some(sep)),
        }
    }
}

/// What one pull at a list gives: `None` if the closing delimiter stands at
/// `pos`, else the next element and the number of bytes read for it and for
/// the value delimiter before it.
pub open spec fn next_item(element: Shape, input: Seq<u8>, pos: nat, first: bool) -> Result<
    Option<(SpecValue, nat)>,
    SpecError,
> {
    if token_at(input, pos, Delimiter::SeqEnd) {
        Ok(None)
    } else {
        match separator_at(input, pos, first, Delimiter::SeqValue) {
            Err(e) => Err(e),
            Ok(sep) => match decoding(element, input, pos + sep) {
                Err(e) => Err(e),
                Ok((value, n)) => Ok(Some((value, sep + n))),
            },
        }
    }
}

/// What one pull at the keys of a dictionary gives: `None` if the closing
/// delimiter stands at `pos`, else the next key and the number of bytes read
/// for it, for the value delimiter before it and for the key delimiter behind
/// it.
pub open spec fn next_key(key_shape: Shape, input: Seq<u8>, pos: nat, first: bool) -> Result<
    Option<(SpecValue, nat)>,
    SpecError,
> {
    if token_at(input, pos, Delimiter::MapEnd) {
        Ok(None)
    } else {
        match separator_at(input, pos, first, Delimiter::MapValue) {
            Err(e) => Err(e),
            Ok(sep) => match decoding(key_shape, input, pos + sep) {
                Err(e) => Err(e),
                Ok((key, n)) => match expect(input, pos + sep + n, Delimiter::MapKey) {
                    Err(e) => Err(e),
                    Ok(mid) => Ok(Some((key, sep + n + mid))),
                },
            },
        }
    }
}

/// A read that went on where another had stopped: the elements read before
/// come first, and the bytes read add up.
pub open spec fn prepend<T>(
    done: Seq<T>,
    read: nat,
    then: Result<(Seq<T>, nat), SpecError>,
) -> Result<(Seq<T>, nat), SpecError> {
    match then {
        Err(e) => Err(e),
        Ok((rest, n)) => Ok((done + rest, read + n)),
    }
}

} // verus!
