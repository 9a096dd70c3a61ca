//! What holds of the codec as a whole: reading what was written gives the
//! value back, equal values have equal bytes, and the boundaries of the
//! format are where the grammar puts them.

use vstd::prelude::*;
use vstd::utf8::char_is_scalar;
use vstd::utf8::char_u32_cast;
use vstd::utf8::encode_utf8;
use vstd::utf8::encode_utf8_decode_utf8;
use vstd::utf8::encode_utf8_valid_utf8;
use super::error::SpecError;
use super::format::decoding;
use super::format::dict_entries;
use super::format::encoding;
use super::format::encoding_entries;
use super::format::encoding_entry;
use super::format::encoding_items;
use super::format::expect;
use super::format::field_at;
use super::format::lemma_encoding_entries_push;
use super::format::lemma_encoding_items_push;
use super::format::length_prefixed;
use super::format::list_items;
use super::format::run_at;
use super::format::separator;
use super::format::separator_at;
use super::format::signed_at;
use super::format::struct_fields;
use super::format::text_at;
use super::format::token;
use super::format::token_at;
use super::format::tuple_items;
use super::format::unsigned_at;
use super::format::valid_width;
use super::token::Delimiter;
use super::value::Shape;
use super::value::SpecValue;
use super::value::Value;
use super::wire::fits_signed;
use super::wire::le_bytes;
use super::wire::lemma_le_bytes_len;
use super::wire::lemma_le_value_of_bytes;
use super::wire::lemma_pow256_values;
use super::wire::lemma_twos_complement_inverse;
use super::wire::pow256;
use super::wire::twos_complement;

verus! {

/// The elements of a list from the one at index `from` on, as they stand on
/// the wire: each behind a value delimiter, but for the first of the list.
pub open spec fn items_rest(items: Seq<SpecValue>, from: nat) -> Seq<u8>
    decreases items.len() - from,
{
    if from >= items.len() {
        Seq::empty()
    } else {
        separator(from == 0, Delimiter::SeqValue) + encoding(items[from as int]) + items_rest(
            items,
            from + 1,
        )
    }
}

/// The entries of a dictionary from the one at index `from` on, as they stand
/// on the wire: each behind a value delimiter, but for the first of the
/// dictionary.
pub open spec fn entries_rest(entries: Seq<(SpecValue, SpecValue)>, from: nat) -> Seq<u8>
    decreases entries.len() - from,
{
    if from >= entries.len() {
        Seq::empty()
    } else {
        separator(from == 0, Delimiter::MapValue) + encoding_entry(entries[from as int])
            + entries_rest(entries, from + 1)
    }
}

/// The first byte of a value on the wire.
pub open spec fn leading_byte(value: SpecValue) -> u8 {
    encoding(value)[0]
}

/// Whether the decoder can tell `value` from an absent or empty one when it
/// reads it as `shape`.
///
/// Before a present optional value the decoder looks for the unit delimiter,
/// and before the first element of a list or the first key of a dictionary
/// for the delimiter that closes the collection. A payload that itself
/// begins with that byte is taken for the delimiter; nothing else is left
/// out. A list, a dictionary and an enum variant begin with a delimiter of
/// their own, so they may stand in any of these places. A tuple and a struct
/// are read to a length that the shape gives, so their elements may begin
/// with any byte.
pub open spec fn unambiguous(shape: Shape, value: SpecValue) -> bool
    decreases value,
{
    match (shape, value) {
        (Shape::Opt(inner), SpecValue::Opt(Some(payload))) => {
            &&& leading_byte(*payload) != Delimiter::Unit.pattern()
            &&& unambiguous(*inner, *payload)
        },
        (Shape::List(element), SpecValue::List(items)) => {
            &&& items.len() > 0 ==> leading_byte(items[0]) != Delimiter::SeqEnd.pattern()
            &&& forall|i: int| 0 <= i < items.len() ==> unambiguous(*element, #[trigger] items[i])
        },
        (Shape::Tuple(shapes), SpecValue::List(items)) => forall|i: int|
            0 <= i < items.len() && i < shapes@.len() ==> unambiguous(
                shapes@[i],
                #[trigger] items[i],
            ),
        (Shape::Dict(key, value), SpecValue::Dict(entries)) => {
            &&& entries.len() > 0 ==> leading_byte(entries[0].0) != Delimiter::MapEnd.pattern()
            &&& forall|i: int|
                0 <= i < entries.len() ==> unambiguous(*key, (#[trigger] entries[i]).0)
                    && unambiguous(*value, entries[i].1)
        },
        (Shape::Struct(fields), SpecValue::Dict(entries)) => forall|i: int|
            0 <= i < entries.len() && i < fields@.len() ==> unambiguous(
                fields@[i].1,
                (#[trigger] entries[i]).1,
            ),
        (Shape::Enum(variants), SpecValue::Variant(index, Some(payload))) => index
            < variants@.len() ==> (variants@[index as int] matches Some(inner) ==> unambiguous(
            inner,
            *payload,
        )),
        _ => true,
    }
}

/// Whether `bytes` stand in `input` from `pos` on.
pub open spec fn occurs_at(input: Seq<u8>, pos: nat, bytes: Seq<u8>) -> bool {
    &&& pos + bytes.len() <= input.len()
    &&& input.subrange(pos as int, pos + bytes.len() as int) == bytes
}

/// Every value takes at least one byte.
pub proof fn lemma_encoding_nonempty(value: SpecValue)
    ensures
        encoding(value).len() >= 1,
    decreases value,
{
    lemma_le_bytes_len(0, 0);
    match value {
        SpecValue::I8(x) => lemma_le_bytes_len(twos_complement(x as int, 1), 1),
        SpecValue::I16(x) => lemma_le_bytes_len(twos_complement(x as int, 2), 2),
        SpecValue::I32(x) => lemma_le_bytes_len(twos_complement(x as int, 4), 4),
        SpecValue::I64(x) => lemma_le_bytes_len(twos_complement(x as int, 8), 8),
        SpecValue::U8(x) => lemma_le_bytes_len(x as nat, 1),
        SpecValue::U16(x) => lemma_le_bytes_len(x as nat, 2),
        SpecValue::U32(x) => lemma_le_bytes_len(x as nat, 4),
        SpecValue::U64(x) => lemma_le_bytes_len(x as nat, 8),
        SpecValue::F32(bits) => lemma_le_bytes_len(bits as nat, 4),
        SpecValue::F64(bits) => lemma_le_bytes_len(bits as nat, 8),
        SpecValue::Char(c) => lemma_le_bytes_len(c as u32 as nat, 4),
        SpecValue::Str(text) => lemma_le_bytes_len(encode_utf8(text).len(), 8),
        SpecValue::Bytes(bytes) => lemma_le_bytes_len(bytes.len(), 8),
        SpecValue::Opt(Some(inner)) => lemma_encoding_nonempty(*inner),
        _ => {},
    }
}

/// Where two runs of bytes stand one after the other, each stands in its
/// place.
pub proof fn lemma_occurs_split(input: Seq<u8>, pos: nat, head: Seq<u8>, tail: Seq<u8>)
    requires
        occurs_at(input, pos, head + tail),
    ensures
        occurs_at(input, pos, head),
        occurs_at(input, pos + head.len(), tail),
{
    let whole = input.subrange(pos as int, pos + (head + tail).len() as int);
    let mid = head.len() as int;
    let end = (head + tail).len() as int;
    assert(input.subrange(pos as int, pos + mid) =~= whole.subrange(0, mid));
    assert(whole.subrange(0, mid) =~= head);
    assert(input.subrange(pos + mid, pos + end) =~= whole.subrange(mid, end));
    assert(whole.subrange(mid, end) =~= tail);
}

/// A delimiter that stands at `pos` is found there and read.
pub proof fn lemma_token_occurs(input: Seq<u8>, pos: nat, delimiter: Delimiter)
    requires
        occurs_at(input, pos, token(delimiter)),
    ensures
        token_at(input, pos, delimiter),
        expect(input, pos, delimiter) == Ok::<nat, SpecError>(1),
{
    assert(input.subrange(pos as int, pos + 1 as int)[0] == delimiter.pattern());
}

/// The first byte of bytes that stand at `pos` is the byte at `pos`.
pub proof fn lemma_first_byte(input: Seq<u8>, pos: nat, bytes: Seq<u8>)
    requires
        occurs_at(input, pos, bytes),
        bytes.len() > 0,
    ensures
        pos < input.len(),
        input[pos as int] == bytes[0],
{
    assert(input.subrange(pos as int, pos + bytes.len() as int)[0] == bytes[0]);
}

/// An unsigned integer that stands at `pos` is read back.
pub proof fn lemma_unsigned_occurs(input: Seq<u8>, pos: nat, value: nat, width: nat)
    requires
        valid_width(width),
        value < pow256(width),
        occurs_at(input, pos, le_bytes(value, width)),
    ensures
        unsigned_at(input, pos, width) == Ok::<nat, SpecError>(value),
{
    lemma_le_bytes_len(value, width);
    lemma_le_value_of_bytes(value, width);
}

/// A signed integer that stands at `pos` is read back.
pub proof fn lemma_signed_occurs(input: Seq<u8>, pos: nat, value: int, width: nat)
    requires
        valid_width(width),
        fits_signed(value, width),
        occurs_at(input, pos, le_bytes(twos_complement(value, width), width)),
    ensures
        signed_at(input, pos, width) == Ok::<int, SpecError>(value),
{
    lemma_twos_complement_inverse(value, width);
    lemma_unsigned_occurs(input, pos, twos_complement(value, width), width);
}

/// A run of bytes that stands at `pos` behind its length is read back.
pub proof fn lemma_run_occurs(input: Seq<u8>, pos: nat, bytes: Seq<u8>)
    requires
        bytes.len() <= u64::MAX,
        occurs_at(input, pos, length_prefixed(bytes)),
    ensures
        run_at(input, pos) == Ok::<(Seq<u8>, nat), SpecError>((bytes, 8 + bytes.len())),
{
    lemma_pow256_values();
    lemma_le_bytes_len(bytes.len(), 8);
    lemma_occurs_split(input, pos, le_bytes(bytes.len(), 8), bytes);
    lemma_unsigned_occurs(input, pos, bytes.len(), 8);
}

/// A string that stands at `pos` is read back.
pub proof fn lemma_text_occurs(input: Seq<u8>, pos: nat, text: Seq<char>)
    requires
        encode_utf8(text).len() <= u64::MAX,
        occurs_at(input, pos, length_prefixed(encode_utf8(text))),
    ensures
        text_at(input, pos) == Ok::<(Seq<char>, nat), SpecError>(
            (text, 8 + encode_utf8(text).len()),
        ),
{
    lemma_run_occurs(input, pos, encode_utf8(text));
    encode_utf8_valid_utf8(text);
    encode_utf8_decode_utf8(text);
}

/// The elements of a list on the wire are the first `from` of them and then
/// the rest.
pub proof fn lemma_items_split(items: Seq<SpecValue>, from: nat)
    requires
        from <= items.len(),
    ensures
        encoding_items(items) == encoding_items(items.take(from as int)) + items_rest(items, from),
    decreases items.len() - from,
{
    if from == items.len() {
        assert(items.take(from as int) =~= items);
        assert(encoding_items(items) + Seq::<u8>::empty() =~= encoding_items(items));
    } else {
        let done = items.take(from as int);
        let next = items[from as int];
        lemma_items_split(items, from + 1);
        assert(items.take(from + 1 as int) =~= done.push(next));
        lemma_encoding_items_push(done, next);
        let rest = items_rest(items, from + 1);
        if from == 0 {
            assert(done =~= Seq::<SpecValue>::empty());
            assert(encoding_items(done) + (Seq::<u8>::empty() + encoding(next) + rest) =~= encoding(
                next,
            ) + rest);
        } else {
            assert(encoding_items(done) + (token(Delimiter::SeqValue) + encoding(next) + rest)
                =~= (encoding_items(done) + token(Delimiter::SeqValue) + encoding(next)) + rest);
        }
    }
}

/// The entries of a dictionary on the wire are the first `from` of them and
/// then the rest.
pub proof fn lemma_entries_split(entries: Seq<(SpecValue, SpecValue)>, from: nat)
    requires
        from <= entries.len(),
    ensures
        encoding_entries(entries) == encoding_entries(entries.take(from as int)) + entries_rest(
            entries,
            from,
        ),
    decreases entries.len() - from,
{
    if from == entries.len() {
        assert(entries.take(from as int) =~= entries);
        assert(encoding_entries(entries) + Seq::<u8>::empty() =~= encoding_entries(entries));
    } else {
        let done = entries.take(from as int);
        let next = entries[from as int];
        lemma_entries_split(entries, from + 1);
        assert(entries.take(from + 1 as int) =~= done.push(next));
        lemma_encoding_entries_push(done, next);
        let rest = entries_rest(entries, from + 1);
        if from == 0 {
            assert(done =~= Seq::<(SpecValue, SpecValue)>::empty());
            assert(encoding_entries(done) + (Seq::<u8>::empty() + encoding_entry(next) + rest)
                =~= encoding_entry(next) + rest);
        } else {
            assert(encoding_entries(done) + (token(Delimiter::MapValue) + encoding_entry(next)
                + rest) =~= (encoding_entries(done) + token(Delimiter::MapValue) + encoding_entry(
                next,
            )) + rest);
        }
    }
}

/// Reading gives back what was written: where the bytes of `value` stand in
/// `input` at `pos`, whatever follows them, reading `input` there as `shape`
/// gives `value` and the number of its bytes.
///
/// This asks that `shape` admits `value` and that `value` is unambiguous
/// under `shape`.
pub proof fn lemma_decoding_of_encoding(shape: Shape, value: SpecValue, input: Seq<u8>, pos: nat)
    requires
        shape.admits(value),
        unambiguous(shape, value),
        occurs_at(input, pos, encoding(value)),
    ensures
        decoding(shape, input, pos) == Ok::<(SpecValue, nat), SpecError>(
            (value, encoding(value).len()),
        ),
    decreases value, 0nat, 0nat,
{
    lemma_pow256_values();
    let bytes = encoding(value);
    match (shape, value) {
        (Shape::Bool, SpecValue::Bool(b)) => {
            lemma_first_byte(input, pos, bytes);
        },
        (Shape::I8, SpecValue::I8(x)) => {
            lemma_le_bytes_len(twos_complement(x as int, 1), 1);
            lemma_signed_occurs(input, pos, x as int, 1);
        },
        (Shape::I16, SpecValue::I16(x)) => {
            lemma_le_bytes_len(twos_complement(x as int, 2), 2);
            lemma_signed_occurs(input, pos, x as int, 2);
        },
        (Shape::I32, SpecValue::I32(x)) => {
            lemma_le_bytes_len(twos_complement(x as int, 4), 4);
            lemma_signed_occurs(input, pos, x as int, 4);
        },
        (Shape::I64, SpecValue::I64(x)) => {
            lemma_le_bytes_len(twos_complement(x as int, 8), 8);
            lemma_signed_occurs(input, pos, x as int, 8);
        },
        (Shape::U8, SpecValue::U8(x)) => {
            lemma_le_bytes_len(x as nat, 1);
            lemma_unsigned_occurs(input, pos, x as nat, 1);
        },
        (Shape::U16, SpecValue::U16(x)) => {
            lemma_le_bytes_len(x as nat, 2);
            lemma_unsigned_occurs(input, pos, x as nat, 2);
        },
        (Shape::U32, SpecValue::U32(x)) => {
            lemma_le_bytes_len(x as nat, 4);
            lemma_unsigned_occurs(input, pos, x as nat, 4);
        },
        (Shape::U64, SpecValue::U64(x)) => {
            lemma_le_bytes_len(x as nat, 8);
            lemma_unsigned_occurs(input, pos, x as nat, 8);
        },
        (Shape::F32, SpecValue::F32(x)) => {
            lemma_le_bytes_len(x as nat, 4);
            lemma_unsigned_occurs(input, pos, x as nat, 4);
        },
        (Shape::F64, SpecValue::F64(x)) => {
            lemma_le_bytes_len(x as nat, 8);
            lemma_unsigned_occurs(input, pos, x as nat, 8);
        },
        (Shape::Char, SpecValue::Char(c)) => {
            lemma_le_bytes_len(c as u32 as nat, 4);
            lemma_unsigned_occurs(input, pos, c as u32 as nat, 4);
            char_is_scalar(c);
            char_u32_cast(c, c as u32);
        },
        (Shape::Str, SpecValue::Str(text)) => {
            lemma_le_bytes_len(encode_utf8(text).len(), 8);
            lemma_text_occurs(input, pos, text);
        },
        (Shape::Bytes, SpecValue::Bytes(run)) => {
            lemma_le_bytes_len(run.len(), 8);
            lemma_run_occurs(input, pos, run);
        },
        (Shape::Unit, SpecValue::Unit) => {
            lemma_token_occurs(input, pos, Delimiter::Unit);
        },
        (Shape::Opt(inner), SpecValue::Opt(None)) => {
            lemma_token_occurs(input, pos, Delimiter::Unit);
        },
        (Shape::Opt(inner), SpecValue::Opt(Some(payload))) => {
            lemma_encoding_nonempty(*payload);
            lemma_first_byte(input, pos, bytes);
            lemma_decoding_of_encoding(*inner, *payload, input, pos);
        },
        (Shape::List(element), SpecValue::List(items)) => {
            let open = token(Delimiter::SeqStart);
            let close = token(Delimiter::SeqEnd);
            let body = encoding_items(items);
            assert(bytes =~= open + (body + close));
            lemma_occurs_split(input, pos, open, body + close);
            lemma_token_occurs(input, pos, Delimiter::SeqStart);
            lemma_items_split(items, 0);
            assert(items.take(0) =~= Seq::<SpecValue>::empty());
            assert(body =~= items_rest(items, 0));
            lemma_list_occurs(*element, items, 0, input, pos + 1);
            assert(items.skip(0) =~= items);
        },
        (Shape::Tuple(shapes), SpecValue::List(items)) => {
            let open = token(Delimiter::SeqStart);
            let close = token(Delimiter::SeqEnd);
            let body = encoding_items(items);
            assert(bytes =~= open + (body + close));
            lemma_occurs_split(input, pos, open, body + close);
            lemma_token_occurs(input, pos, Delimiter::SeqStart);
            lemma_items_split(items, 0);
            assert(items.take(0) =~= Seq::<SpecValue>::empty());
            assert(body =~= items_rest(items, 0));
            lemma_tuple_occurs(shapes@, items, 0, input, pos + 1);
            assert(items.skip(0) =~= items);
        },
        (Shape::Dict(key, value_shape), SpecValue::Dict(entries)) => {
            let open = token(Delimiter::MapStart);
            let close = token(Delimiter::MapEnd);
            let body = encoding_entries(entries);
            assert(bytes =~= open + (body + close));
            lemma_occurs_split(input, pos, open, body + close);
            lemma_token_occurs(input, pos, Delimiter::MapStart);
            lemma_entries_split(entries, 0);
            assert(entries.take(0) =~= Seq::<(SpecValue, SpecValue)>::empty());
            assert(body =~= entries_rest(entries, 0));
            lemma_dict_occurs(*key, *value_shape, entries, 0, input, pos + 1);
            assert(entries.skip(0) =~= entries);
        },
        (Shape::Struct(fields), SpecValue::Dict(entries)) => {
            let open = token(Delimiter::MapStart);
            let close = token(Delimiter::MapEnd);
            let body = encoding_entries(entries);
            assert(bytes =~= open + (body + close));
            lemma_occurs_split(input, pos, open, body + close);
            lemma_token_occurs(input, pos, Delimiter::MapStart);
            lemma_entries_split(entries, 0);
            assert(entries.take(0) =~= Seq::<(SpecValue, SpecValue)>::empty());
            assert(body =~= entries_rest(entries, 0));
            lemma_struct_occurs(fields@, entries, 0, input, pos + 1);
            assert(entries.skip(0) =~= entries);
        },
        (Shape::Enum(variants), SpecValue::Variant(index, None)) => {
            let mark = token(Delimiter::Enum);
            let number = le_bytes(index as nat, 4);
            lemma_le_bytes_len(index as nat, 4);
            lemma_occurs_split(input, pos, mark, number);
            lemma_token_occurs(input, pos, Delimiter::Enum);
            lemma_unsigned_occurs(input, pos + 1, index as nat, 4);
        },
        (Shape::Enum(variants), SpecValue::Variant(index, Some(payload))) => {
            let mark = token(Delimiter::Enum);
            let number = le_bytes(index as nat, 4);
            let inner = variants@[index as int]->Some_0;
            lemma_le_bytes_len(index as nat, 4);
            assert(bytes =~= mark + (number + encoding(*payload)));
            lemma_occurs_split(input, pos, mark, number + encoding(*payload));
            lemma_occurs_split(input, pos + 1, number, encoding(*payload));
            lemma_token_occurs(input, pos, Delimiter::Enum);
            lemma_unsigned_occurs(input, pos + 1, index as nat, 4);
            lemma_decoding_of_encoding(inner, *payload, input, pos + 5);
        },
        _ => {},
    }
}

/// The elements of a list from index `from` on, with the closing delimiter
/// behind them, are read back.
pub proof fn lemma_list_occurs(
    element: Shape,
    items: Seq<SpecValue>,
    from: nat,
    input: Seq<u8>,
    pos: nat,
)
    requires
        from <= items.len(),
        forall|i: int|
            0 <= i < items.len() ==> element.admits(#[trigger] items[i]) && unambiguous(
                element,
                items[i],
            ),
        items.len() > 0 ==> leading_byte(items[0]) != Delimiter::SeqEnd.pattern(),
        occurs_at(input, pos, items_rest(items, from) + token(Delimiter::SeqEnd)),
    ensures
        list_items(element, input, pos, from == 0) == Ok::<(Seq<SpecValue>, nat), SpecError>(
            (items.skip(from as int), items_rest(items, from).len() + 1),
        ),
    decreases items, 1nat, items.len() - from,
{
    let close = token(Delimiter::SeqEnd);
    if from == items.len() {
        assert(items_rest(items, from) + close =~= close);
        lemma_token_occurs(input, pos, Delimiter::SeqEnd);
        assert(items.skip(from as int) =~= Seq::<SpecValue>::empty());
    } else {
        let sep = separator(from == 0, Delimiter::SeqValue);
        let item = items[from as int];
        let rest = items_rest(items, from + 1);
        lemma_encoding_nonempty(item);
        assert(items_rest(items, from) + close =~= sep + (encoding(item) + (rest + close)));
        lemma_occurs_split(input, pos, sep, encoding(item) + (rest + close));
        lemma_occurs_split(input, pos + sep.len(), encoding(item), rest + close);
        if from == 0 {
            lemma_first_byte(input, pos, encoding(item));
        } else {
            lemma_token_occurs(input, pos, Delimiter::SeqValue);
        }
        assert(!token_at(input, pos, Delimiter::SeqEnd));
        assert(separator_at(input, pos, from == 0, Delimiter::SeqValue) == Ok::<nat, SpecError>(
            sep.len(),
        ));
        lemma_decoding_of_encoding(element, item, input, pos + sep.len());
        lemma_list_occurs(element, items, from + 1, input, pos + sep.len() + encoding(item).len());
        assert(seq![item] + items.skip(from + 1 as int) =~= items.skip(from as int));
    }
}

/// The elements of a tuple from index `from` on, with the closing delimiter
/// behind them, are read back.
pub proof fn lemma_tuple_occurs(
    shapes: Seq<Shape>,
    items: Seq<SpecValue>,
    from: nat,
    input: Seq<u8>,
    pos: nat,
)
    requires
        from <= items.len() == shapes.len(),
        forall|i: int|
            0 <= i < items.len() ==> shapes[i].admits(#[trigger] items[i]) && unambiguous(
                shapes[i],
                items[i],
            ),
        occurs_at(input, pos, items_rest(items, from) + token(Delimiter::SeqEnd)),
    ensures
        tuple_items(shapes, from, input, pos) == Ok::<(Seq<SpecValue>, nat), SpecError>(
            (items.skip(from as int), items_rest(items, from).len() + 1),
        ),
    decreases items, 1nat, items.len() - from,
{
    let close = token(Delimiter::SeqEnd);
    if from == items.len() {
        assert(items_rest(items, from) + close =~= close);
        lemma_token_occurs(input, pos, Delimiter::SeqEnd);
        assert(items.skip(from as int) =~= Seq::<SpecValue>::empty());
    } else {
        let sep = separator(from == 0, Delimiter::SeqValue);
        let item = items[from as int];
        let rest = items_rest(items, from + 1);
        assert(items_rest(items, from) + close =~= sep + (encoding(item) + (rest + close)));
        lemma_occurs_split(input, pos, sep, encoding(item) + (rest + close));
        lemma_occurs_split(input, pos + sep.len(), encoding(item), rest + close);
        if from != 0 {
            lemma_token_occurs(input, pos, Delimiter::SeqValue);
        }
        assert(separator_at(input, pos, from == 0, Delimiter::SeqValue) == Ok::<nat, SpecError>(
            sep.len(),
        ));
        lemma_decoding_of_encoding(shapes[from as int], item, input, pos + sep.len());
        lemma_tuple_occurs(shapes, items, from + 1, input, pos + sep.len() + encoding(item).len());
        assert(seq![item] + items.skip(from + 1 as int) =~= items.skip(from as int));
    }
}

/// The entries of a dictionary from index `from` on, with the closing
/// delimiter behind them, are read back.
pub proof fn lemma_dict_occurs(
    key_shape: Shape,
    value_shape: Shape,
    entries: Seq<(SpecValue, SpecValue)>,
    from: nat,
    input: Seq<u8>,
    pos: nat,
)
    requires
        from <= entries.len(),
        forall|i: int|
            0 <= i < entries.len() ==> {
                &&& key_shape.admits((#[trigger] entries[i]).0)
                &&& unambiguous(key_shape, entries[i].0)
                &&& value_shape.admits(entries[i].1)
                &&& unambiguous(value_shape, entries[i].1)
            },
        entries.len() > 0 ==> leading_byte(entries[0].0) != Delimiter::MapEnd.pattern(),
        occurs_at(input, pos, entries_rest(entries, from) + token(Delimiter::MapEnd)),
    ensures
        dict_entries(key_shape, value_shape, input, pos, from == 0) == Ok::<
            (Seq<(SpecValue, SpecValue)>, nat),
            SpecError,
        >((entries.skip(from as int), entries_rest(entries, from).len() + 1)),
    decreases entries, 1nat, entries.len() - from,
{
    let close = token(Delimiter::MapEnd);
    if from == entries.len() {
        assert(entries_rest(entries, from) + close =~= close);
        lemma_token_occurs(input, pos, Delimiter::MapEnd);
        assert(entries.skip(from as int) =~= Seq::<(SpecValue, SpecValue)>::empty());
    } else {
        let sep = separator(from == 0, Delimiter::MapValue);
        let entry = entries[from as int];
        let key = encoding(entry.0);
        let mid = token(Delimiter::MapKey);
        let value = encoding(entry.1);
        let rest = entries_rest(entries, from + 1);
        let at_key = pos + sep.len();
        let at_mid = at_key + key.len();
        let at_value = at_mid + 1;
        let at_rest = at_value + value.len();
        lemma_encoding_nonempty(entry.0);
        assert(entries_rest(entries, from) + close =~= sep + encoding_entry(entry) + (rest
            + close));
        lemma_entry_occurs(input, pos, sep, entry, rest + close);
        assert(!token_at(input, pos, Delimiter::MapEnd)) by {
            if from == 0 {
                lemma_first_byte(input, pos, key);
            } else {
                lemma_token_occurs(input, pos, Delimiter::MapValue);
            }
        }
        assert(separator_at(input, pos, from == 0, Delimiter::MapValue) == Ok::<nat, SpecError>(
            sep.len(),
        )) by {
            if from != 0 {
                lemma_token_occurs(input, pos, Delimiter::MapValue);
            }
        }
        assert(decoding(key_shape, input, at_key) == Ok::<(SpecValue, nat), SpecError>(
            (entry.0, key.len()),
        )) by {
            lemma_decoding_of_encoding(key_shape, entry.0, input, at_key);
        }
        assert(expect(input, at_mid, Delimiter::MapKey) == Ok::<nat, SpecError>(1)) by {
            lemma_token_occurs(input, at_mid, Delimiter::MapKey);
        }
        assert(decoding(value_shape, input, at_value) == Ok::<(SpecValue, nat), SpecError>(
            (entry.1, value.len()),
        )) by {
            lemma_decoding_of_encoding(value_shape, entry.1, input, at_value);
        }
        lemma_dict_occurs(key_shape, value_shape, entries, from + 1, input, at_rest);
        assert(seq![entry] + entries.skip(from + 1 as int) =~= entries.skip(from as int));
        assert(entries_rest(entries, from).len() == sep.len() + key.len() + 1 + value.len()
            + rest.len());
    }
}

/// Where a separator, an entry and more bytes stand one after the other, the
/// key, the key delimiter, the value and the rest each stand in their place.
pub proof fn lemma_entry_occurs(
    input: Seq<u8>,
    pos: nat,
    sep: Seq<u8>,
    entry: (SpecValue, SpecValue),
    more: Seq<u8>,
)
    requires
        occurs_at(input, pos, sep + encoding_entry(entry) + more),
    ensures
        occurs_at(input, pos, sep),
        occurs_at(input, pos + sep.len(), encoding(entry.0)),
        occurs_at(input, pos + sep.len() + encoding(entry.0).len(), token(Delimiter::MapKey)),
        occurs_at(input, pos + sep.len() + encoding(entry.0).len() + 1, encoding(entry.1)),
        occurs_at(
            input,
            pos + sep.len() + encoding(entry.0).len() + 1 + encoding(entry.1).len(),
            more,
        ),
{
    let key = encoding(entry.0);
    let mid = token(Delimiter::MapKey);
    let value = encoding(entry.1);
    assert(sep + encoding_entry(entry) + more =~= sep + (key + (mid + (value + more))));
    lemma_occurs_split(input, pos, sep, key + (mid + (value + more)));
    lemma_occurs_split(input, pos + sep.len(), key, mid + (value + more));
    lemma_occurs_split(input, pos + sep.len() + key.len(), mid, value + more);
    lemma_occurs_split(input, pos + sep.len() + key.len() + 1, value, more);
}

/// The fields of a struct from index `from` on, with the closing delimiter
/// behind them, are read back.
pub proof fn lemma_struct_occurs(
    fields: Seq<(String, Shape)>,
    entries: Seq<(SpecValue, SpecValue)>,
    from: nat,
    input: Seq<u8>,
    pos: nat,
)
    requires
        from <= entries.len() == fields.len(),
        forall|i: int|
            0 <= i < entries.len() ==> {
                &&& (#[trigger] entries[i]).0 == SpecValue::Str(fields[i].0@)
                &&& encode_utf8(fields[i].0@).len() <= u64::MAX
                &&& fields[i].1.admits(entries[i].1)
                &&& unambiguous(fields[i].1, entries[i].1)
            },
        occurs_at(input, pos, entries_rest(entries, from) + token(Delimiter::MapEnd)),
    ensures
        struct_fields(fields, from, input, pos) == Ok::<
            (Seq<(SpecValue, SpecValue)>, nat),
            SpecError,
        >((entries.skip(from as int), entries_rest(entries, from).len() + 1)),
    decreases entries, 1nat, entries.len() - from,
{
    let close = token(Delimiter::MapEnd);
    if from == entries.len() {
        assert(entries_rest(entries, from) + close =~= close);
        lemma_token_occurs(input, pos, Delimiter::MapEnd);
        assert(entries.skip(from as int) =~= Seq::<(SpecValue, SpecValue)>::empty());
    } else {
        let sep = separator(from == 0, Delimiter::MapValue);
        let entry = entries[from as int];
        let name = fields[from as int].0@;
        let key = encoding(entry.0);
        let value = encoding(entry.1);
        let rest = entries_rest(entries, from + 1);
        let at_key = pos + sep.len();
        let at_mid = at_key + key.len();
        let at_value = at_mid + 1;
        let at_rest = at_value + value.len();
        assert(entry.0 == SpecValue::Str(name));
        assert(entries_rest(entries, from) + close =~= sep + encoding_entry(entry) + (rest
            + close));
        lemma_entry_occurs(input, pos, sep, entry, rest + close);
        assert(separator_at(input, pos, from == 0, Delimiter::MapValue) == Ok::<nat, SpecError>(
            sep.len(),
        )) by {
            if from != 0 {
                lemma_token_occurs(input, pos, Delimiter::MapValue);
            }
        }
        assert(text_at(input, at_key) == Ok::<(Seq<char>, nat), SpecError>((name, key.len())))
            by {
            lemma_le_bytes_len(encode_utf8(name).len(), 8);
            lemma_text_occurs(input, at_key, name);
        }
        assert(expect(input, at_mid, Delimiter::MapKey) == Ok::<nat, SpecError>(1)) by {
            lemma_token_occurs(input, at_mid, Delimiter::MapKey);
        }
        assert(decoding(fields[from as int].1, input, at_value) == Ok::<
            (SpecValue, nat),
            SpecError,
        >((entry.1, value.len()))) by {
            lemma_decoding_of_encoding(fields[from as int].1, entry.1, input, at_value);
        }
        assert(field_at(name, fields[from as int].1, input, pos, from == 0) == Ok::<
            ((SpecValue, SpecValue), nat),
            SpecError,
        >(((SpecValue::Str(name), entry.1), sep.len() + key.len() + 1 + value.len())));
        lemma_struct_occurs(fields, entries, from + 1, input, at_rest);
        assert(seq![(SpecValue::Str(name), entry.1)] + entries.skip(from + 1 as int)
            =~= entries.skip(from as int));
        assert(entries_rest(entries, from).len() == sep.len() + key.len() + 1 + value.len()
            + rest.len());
    }
}

/// Round trip: reading the bytes of a value as its shape gives the value
/// back, and reads all of the bytes.
///
/// This holds of every value that `shape` admits and that is unambiguous
/// under `shape`.
pub proof fn theorem_round_trip(shape: Shape, value: SpecValue)
    requires
        shape.admits(value),
        unambiguous(shape, value),
    ensures
        decoding(shape, encoding(value), 0) == Ok::<(SpecValue, nat), SpecError>(
            (value, encoding(value).len()),
        ),
{
    let bytes = encoding(value);
    assert(bytes.subrange(0, bytes.len() as int) =~= bytes);
    lemma_decoding_of_encoding(shape, value, bytes, 0);
}

/// Determinism: the bytes of a value depend on nothing but the value. Two
/// values with the same model are written as the same bytes, in every call.
pub proof fn theorem_deterministic(first: Value, second: Value)
    requires
        first@ == second@,
    ensures
        encoding(first@) == encoding(second@),
{
}

/// The empty list: the opening delimiter and at once the closing one, with
/// no separator and no element between them. Read as a list of any element
/// shape, the two bytes give the empty list.
pub proof fn theorem_empty_list(element: Shape)
    ensures
        encoding(SpecValue::List(Seq::empty())) == seq![
            Delimiter::SeqStart.pattern(),
            Delimiter::SeqEnd.pattern(),
        ],
        decoding(Shape::List(Box::new(element)), encoding(SpecValue::List(Seq::empty())), 0)
            == Ok::<(SpecValue, nat), SpecError>((SpecValue::List(Seq::empty()), 2)),
{
    let empty = SpecValue::List(Seq::empty());
    assert(encoding_items(Seq::<SpecValue>::empty()) =~= Seq::<u8>::empty());
    assert(encoding(empty) =~= seq![
        Delimiter::SeqStart.pattern(),
        Delimiter::SeqEnd.pattern(),
    ]);
    theorem_round_trip(Shape::List(Box::new(element)), empty);
}

/// The empty dictionary: the opening delimiter and at once the closing one.
/// Read as a dictionary of any key and value shape, the two bytes give the
/// empty dictionary.
pub proof fn theorem_empty_dict(key: Shape, value: Shape)
    ensures
        encoding(SpecValue::Dict(Seq::empty())) == seq![
            Delimiter::MapStart.pattern(),
            Delimiter::MapEnd.pattern(),
        ],
        decoding(
            Shape::Dict(Box::new(key), Box::new(value)),
            encoding(SpecValue::Dict(Seq::empty())),
            0,
        ) == Ok::<(SpecValue, nat), SpecError>((SpecValue::Dict(Seq::empty()), 2)),
{
    let empty = SpecValue::Dict(Seq::empty());
    assert(encoding_entries(Seq::<(SpecValue, SpecValue)>::empty()) =~= Seq::<u8>::empty());
    assert(encoding(empty) =~= seq![
        Delimiter::MapStart.pattern(),
        Delimiter::MapEnd.pattern(),
    ]);
    theorem_round_trip(Shape::Dict(Box::new(key), Box::new(value)), empty);
}

/// The number of bytes that the elements of a list take without their
/// separators.
pub open spec fn payload_len(items: Seq<SpecValue>) -> nat
    decreases items.len(),
{
    if items.len() == 0 {
        0
    } else {
        payload_len(items.drop_last()) + encoding(items.last()).len()
    }
}

/// Separator placement: the elements of a list stand in their order, each
/// but the first behind one value delimiter. So a list of `n` elements holds
/// `n - 1` separators, and none if it is empty.
pub proof fn theorem_separators(items: Seq<SpecValue>)
    ensures
        encoding_items(items) == items_rest(items, 0),
        encoding_items(items).len() == payload_len(items) + if items.len() == 0 {
            0
        } else {
            items.len() - 1
        },
    decreases items.len(),
{
    lemma_items_split(items, 0);
    assert(items.take(0) =~= Seq::<SpecValue>::empty());
    assert(Seq::<u8>::empty() + items_rest(items, 0) =~= items_rest(items, 0));
    if items.len() > 0 {
        theorem_separators(items.drop_last());
    }
}

/// A list of three elements holds two separators: one between the first and
/// the second element, one between the second and the third.
pub proof fn theorem_three_elements(a: SpecValue, b: SpecValue, c: SpecValue)
    ensures
        encoding(SpecValue::List(seq![a, b, c])) == token(Delimiter::SeqStart) + encoding(a)
            + token(Delimiter::SeqValue) + encoding(b) + token(Delimiter::SeqValue) + encoding(c)
            + token(Delimiter::SeqEnd),
{
    let one = seq![a];
    let two = seq![a, b];
    let three = seq![a, b, c];
    assert(two.drop_last() =~= one);
    assert(three.drop_last() =~= two);
    assert(encoding_items(one) == encoding(a));
    assert(encoding_items(two) == encoding(a) + token(Delimiter::SeqValue) + encoding(b));
    assert(encoding_items(three) == encoding_items(two) + token(Delimiter::SeqValue) + encoding(
        c,
    ));
    assert(encoding(SpecValue::List(three)) =~= token(Delimiter::SeqStart) + encoding(a) + token(
        Delimiter::SeqValue,
    ) + encoding(b) + token(Delimiter::SeqValue) + encoding(c) + token(Delimiter::SeqEnd));
}

/// An absent optional value is one unit delimiter, and is read back as
/// absent, whatever the shape of the value that might have been there.
pub proof fn theorem_option_none(inner: Shape)
    ensures
        encoding(SpecValue::Opt(None)) == token(Delimiter::Unit),
        decoding(Shape::Opt(Box::new(inner)), encoding(SpecValue::Opt(None)), 0) == Ok::<
            (SpecValue, nat),
            SpecError,
        >((SpecValue::Opt(None), 1)),
{
    let bytes = encoding(SpecValue::Opt(None));
    assert(token_at(bytes, 0, Delimiter::Unit));
}

/// A present optional value whose own bytes do not begin with the unit
/// delimiter is read back as present, and its bytes differ from those of an
/// absent value.
pub proof fn theorem_option_some(inner: Shape, payload: SpecValue)
    requires
        inner.admits(payload),
        unambiguous(inner, payload),
        leading_byte(payload) != Delimiter::Unit.pattern(),
    ensures
        decoding(
            Shape::Opt(Box::new(inner)),
            encoding(SpecValue::Opt(Some(Box::new(payload)))),
            0,
        ) == Ok::<(SpecValue, nat), SpecError>(
            (SpecValue::Opt(Some(Box::new(payload))), encoding(payload).len()),
        ),
        encoding(SpecValue::Opt(Some(Box::new(payload)))) != encoding(SpecValue::Opt(None)),
{
    theorem_round_trip(Shape::Opt(Box::new(inner)), SpecValue::Opt(Some(Box::new(payload))));
    lemma_encoding_nonempty(payload);
    assert(encoding(SpecValue::Opt(None))[0] == Delimiter::Unit.pattern());
}

/// The present byte zero is read back as present.
pub proof fn theorem_option_some_zero()
    ensures
        decoding(
            Shape::Opt(Box::new(Shape::U8)),
            encoding(SpecValue::Opt(Some(Box::new(SpecValue::U8(0))))),
            0,
        ) == Ok::<(SpecValue, nat), SpecError>(
            (SpecValue::Opt(Some(Box::new(SpecValue::U8(0)))), 1),
        ),
{
    reveal_with_fuel(le_bytes, 2);
    assert(le_bytes(0, 1) =~= seq![0u8]);
    theorem_option_some(Shape::U8, SpecValue::U8(0));
}

/// A present optional value whose own bytes begin with the unit delimiter is
/// taken for an absent one: the decoder cannot tell the two apart.
pub proof fn theorem_option_ambiguous(inner: Shape, payload: SpecValue)
    requires
        leading_byte(payload) == Delimiter::Unit.pattern(),
    ensures
        decoding(
            Shape::Opt(Box::new(inner)),
            encoding(SpecValue::Opt(Some(Box::new(payload)))),
            0,
        ) == Ok::<(SpecValue, nat), SpecError>((SpecValue::Opt(None), 1)),
{
    lemma_encoding_nonempty(payload);
}

/// A list whose first element begins with the byte that closes a sequence is
/// taken for the empty list: the decoder cannot tell the two apart.
pub proof fn theorem_list_ambiguous(element: Shape, items: Seq<SpecValue>)
    requires
        items.len() > 0,
        leading_byte(items[0]) == Delimiter::SeqEnd.pattern(),
    ensures
        decoding(Shape::List(Box::new(element)), encoding(SpecValue::List(items)), 0) == Ok::<
            (SpecValue, nat),
            SpecError,
        >((SpecValue::List(Seq::empty()), 2)),
{
    let bytes = encoding(SpecValue::List(items));
    lemma_encoding_nonempty(items[0]);
    lemma_items_split(items, 0);
    assert(items.take(0) =~= Seq::<SpecValue>::empty());
    assert(encoding_items(items) =~= items_rest(items, 0));
    assert(items_rest(items, 0) =~= encoding(items[0]) + items_rest(items, 1));
    assert(bytes[1] == encoding(items[0])[0]);
    assert(bytes[0] == Delimiter::SeqStart.pattern());
    assert(expect(bytes, 0, Delimiter::SeqStart) == Ok::<nat, SpecError>(1));
    assert(token_at(bytes, 1, Delimiter::SeqEnd));
    assert(list_items(element, bytes, 1, true) == Ok::<(Seq<SpecValue>, nat), SpecError>(
        (Seq::empty(), 1),
    ));
}

/// A dictionary whose first key begins with the byte that closes a map is
/// taken for the empty dictionary.
pub proof fn theorem_dict_ambiguous(
    key: Shape,
    value: Shape,
    entries: Seq<(SpecValue, SpecValue)>,
)
    requires
        entries.len() > 0,
        leading_byte(entries[0].0) == Delimiter::MapEnd.pattern(),
    ensures
        decoding(
            Shape::Dict(Box::new(key), Box::new(value)),
            encoding(SpecValue::Dict(entries)),
            0,
        ) == Ok::<(SpecValue, nat), SpecError>((SpecValue::Dict(Seq::empty()), 2)),
{
    let bytes = encoding(SpecValue::Dict(entries));
    lemma_encoding_nonempty(entries[0].0);
    lemma_entries_split(entries, 0);
    assert(entries.take(0) =~= Seq::<(SpecValue, SpecValue)>::empty());
    assert(encoding_entries(entries) =~= entries_rest(entries, 0));
    assert(entries_rest(entries, 0) =~= encoding_entry(entries[0]) + entries_rest(entries, 1));
    assert(bytes[1] == encoding(entries[0].0)[0]);
    assert(bytes[0] == Delimiter::MapStart.pattern());
    assert(expect(bytes, 0, Delimiter::MapStart) == Ok::<nat, SpecError>(1));
    assert(token_at(bytes, 1, Delimiter::MapEnd));
    assert(dict_entries(key, value, bytes, 1, true) == Ok::<
        (Seq<(SpecValue, SpecValue)>, nat),
        SpecError,
    >((Seq::empty(), 1)));
}

/// A list begins with the delimiter that opens a sequence, a dictionary with
/// the one that opens a map and an enum variant with the enum delimiter. None
/// of them begins with a byte that the decoder takes for an end or for an
/// absent value.
pub proof fn theorem_collections_lead_with_their_own(value: SpecValue)
    ensures
        value is List ==> leading_byte(value) == Delimiter::SeqStart.pattern(),
        value is Dict ==> leading_byte(value) == Delimiter::MapStart.pattern(),
        value is Variant ==> leading_byte(value) == Delimiter::Enum.pattern(),
        value is List || value is Dict || value is Variant ==> {
            &&& leading_byte(value) != Delimiter::SeqEnd.pattern()
            &&& leading_byte(value) != Delimiter::MapEnd.pattern()
            &&& leading_byte(value) != Delimiter::Unit.pattern()
        },
{
}

/// Nested collections: a list whose first element is a list, a dictionary or
/// an enum variant is read back, and not taken for the empty list.
pub proof fn theorem_nested_list_round_trip(element: Shape, items: Seq<SpecValue>)
    requires
        Shape::List(Box::new(element)).admits(SpecValue::List(items)),
        forall|i: int| 0 <= i < items.len() ==> unambiguous(element, #[trigger] items[i]),
        items.len() > 0 ==> items[0] is List || items[0] is Dict || items[0] is Variant,
    ensures
        unambiguous(Shape::List(Box::new(element)), SpecValue::List(items)),
        decoding(Shape::List(Box::new(element)), encoding(SpecValue::List(items)), 0) == Ok::<
            (SpecValue, nat),
            SpecError,
        >((SpecValue::List(items), encoding(SpecValue::List(items)).len())),
{
    if items.len() > 0 {
        theorem_collections_lead_with_their_own(items[0]);
    }
    theorem_round_trip(Shape::List(Box::new(element)), SpecValue::List(items));
}

/// Nested collections: a dictionary whose first key is a list, a dictionary
/// or an enum variant is read back, and not taken for the empty dictionary.
pub proof fn theorem_nested_dict_round_trip(
    key: Shape,
    value: Shape,
    entries: Seq<(SpecValue, SpecValue)>,
)
    requires
        Shape::Dict(Box::new(key), Box::new(value)).admits(SpecValue::Dict(entries)),
        forall|i: int|
            0 <= i < entries.len() ==> unambiguous(key, (#[trigger] entries[i]).0) && unambiguous(
                value,
                entries[i].1,
            ),
        entries.len() > 0 ==> entries[0].0 is List || entries[0].0 is Dict
            || entries[0].0 is Variant,
    ensures
        unambiguous(Shape::Dict(Box::new(key), Box::new(value)), SpecValue::Dict(entries)),
        decoding(
            Shape::Dict(Box::new(key), Box::new(value)),
            encoding(SpecValue::Dict(entries)),
            0,
        ) == Ok::<(SpecValue, nat), SpecError>(
            (SpecValue::Dict(entries), encoding(SpecValue::Dict(entries)).len()),
        ),
{
    if entries.len() > 0 {
        theorem_collections_lead_with_their_own(entries[0].0);
    }
    theorem_round_trip(
        Shape::Dict(Box::new(key), Box::new(value)),
        SpecValue::Dict(entries),
    );
}

/// Every kind of variant is read back: one without payload, and one whose
/// payload is a single value, a tuple or a struct.
pub proof fn theorem_variant_round_trip(
    variants: Vec<Option<Shape>>,
    index: u32,
    payload: Option<Box<SpecValue>>,
)
    requires
        Shape::Enum(variants).admits(SpecValue::Variant(index, payload)),
        unambiguous(Shape::Enum(variants), SpecValue::Variant(index, payload)),
    ensures
        decoding(Shape::Enum(variants), encoding(SpecValue::Variant(index, payload)), 0) == Ok::<
            (SpecValue, nat),
            SpecError,
        >((SpecValue::Variant(index, payload), encoding(SpecValue::Variant(index, payload)).len())),
{
    theorem_round_trip(Shape::Enum(variants), SpecValue::Variant(index, payload));
}

/// An index that the enum does not know is refused with
/// `UnknownVariantIndex`, whatever follows it.
pub proof fn theorem_unknown_variant(
    variants: Vec<Option<Shape>>,
    index: u32,
    input: Seq<u8>,
    pos: nat,
)
    requires
        index >= variants@.len(),
        occurs_at(input, pos, token(Delimiter::Enum) + le_bytes(index as nat, 4)),
    ensures
        decoding(Shape::Enum(variants), input, pos) == Err::<(SpecValue, nat), SpecError>(
            SpecError::UnknownVariantIndex(index),
        ),
{
    lemma_pow256_values();
    lemma_le_bytes_len(index as nat, 4);
    lemma_occurs_split(input, pos, token(Delimiter::Enum), le_bytes(index as nat, 4));
    lemma_token_occurs(input, pos, Delimiter::Enum);
    lemma_unsigned_occurs(input, pos + 1, index as nat, 4);
}

} // verus!
