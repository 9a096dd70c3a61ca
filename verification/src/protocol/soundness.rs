//! What is read is what stands there: a read that succeeds has found the
//! bytes of the value that it gives, and no other bytes read as that value.

use vstd::prelude::*;
use vstd::utf8::decode_utf8_encode_utf8;
use vstd::utf8::encode_utf8;
use super::error::SpecError;
use super::format::decoding;
use super::format::dict_entries;
use super::format::encoding;
use super::format::encoding_entry;
use super::format::field_at;
use super::format::length_prefixed;
use super::format::list_items;
use super::format::remaining;
use super::format::run_at;
use super::format::separator;
use super::format::separator_at;
use super::format::signed_at;
use super::format::struct_fields;
use super::format::text_at;
use super::format::token;
use super::format::token_at;
use super::format::tuple_items;
use super::format::unsigned_at;
use super::format::valid_width;
use super::format::variant_at;
use super::theorems::entries_rest;
use super::theorems::items_rest;
use super::theorems::leading_byte;
use super::theorems::lemma_encoding_nonempty;
use super::theorems::lemma_entries_split;
use super::theorems::lemma_first_byte;
use super::theorems::lemma_items_split;
use super::theorems::occurs_at;
use super::theorems::theorem_round_trip;
use super::theorems::unambiguous;
use super::token::Delimiter;
use super::value::Shape;
use super::value::SpecValue;
use super::wire::fits_signed;
use super::wire::le_bytes;
use super::wire::le_value;
use super::wire::lemma_from_twos_complement_inverse;
use super::wire::lemma_le_bytes_len;
use super::wire::lemma_le_bytes_of_value;
use super::wire::lemma_le_value_bound;
use super::wire::lemma_pow256_values;
use super::wire::pow256;
use super::wire::twos_complement;

verus! {

/// The elements of `items` as they follow one another on the wire, each
/// behind a value delimiter, but for the first if `first` says that it opens
/// the list.
pub open spec fn items_run(items: Seq<SpecValue>, first: bool) -> Seq<u8>
    decreases items.len(),
{
    if items.len() == 0 {
        Seq::empty()
    } else {
        separator(first, Delimiter::SeqValue) + encoding(items[0]) + items_run(
            items.skip(1),
            false,
        )
    }
}

/// The entries of `entries` as they follow one another on the wire, each
/// behind a value delimiter, but for the first if `first` says that it opens
/// the dictionary.
pub open spec fn entries_run(entries: Seq<(SpecValue, SpecValue)>, first: bool) -> Seq<u8>
    decreases entries.len(),
{
    if entries.len() == 0 {
        Seq::empty()
    } else {
        separator(first, Delimiter::MapValue) + encoding_entry(entries[0]) + entries_run(
            entries.skip(1),
            false,
        )
    }
}

/// What a successful read says of the value `value` that it gave for `n`
/// bytes at `pos`: the shape admits the value, the value is unambiguous, and
/// its bytes are the `n` bytes that stand at `pos`.
pub open spec fn reads(shape: Shape, input: Seq<u8>, pos: nat, value: SpecValue, n: nat) -> bool {
    &&& shape.admits(value)
    &&& unambiguous(shape, value)
    &&& n == encoding(value).len()
    &&& occurs_at(input, pos, encoding(value))
}

/// Runs of bytes that stand one behind the other stand there as one run.
pub proof fn lemma_occurs_join(input: Seq<u8>, pos: nat, head: Seq<u8>, tail: Seq<u8>)
    requires
        occurs_at(input, pos, head),
        occurs_at(input, pos + head.len(), tail),
    ensures
        occurs_at(input, pos, head + tail),
{
    let mid = head.len() as int;
    let end = (head + tail).len() as int;
    assert(input.subrange(pos as int, pos + end) =~= input.subrange(pos as int, pos + mid)
        + input.subrange(pos + mid, pos + end));
}

/// A delimiter that is found at `pos` stands there.
pub proof fn lemma_token_found(input: Seq<u8>, pos: nat, delimiter: Delimiter)
    requires
        token_at(input, pos, delimiter),
    ensures
        occurs_at(input, pos, token(delimiter)),
{
    assert(input.subrange(pos as int, pos + 1 as int) =~= token(delimiter));
}

/// A separator that was read stands where it was read.
pub proof fn lemma_separator_found(
    input: Seq<u8>,
    pos: nat,
    first: bool,
    delimiter: Delimiter,
)
    requires
        separator_at(input, pos, first, delimiter) is Ok,
    ensures
        separator_at(input, pos, first, delimiter) == Ok::<nat, SpecError>(
            separator(first, delimiter).len(),
        ),
        pos <= input.len() ==> occurs_at(input, pos, separator(first, delimiter)),
{
    if !first {
        lemma_token_found(input, pos, delimiter);
    } else if pos <= input.len() {
        assert(input.subrange(pos as int, pos as int) =~= Seq::<u8>::empty());
    }
}

/// An unsigned integer that was read stands where it was read.
pub proof fn lemma_unsigned_found(input: Seq<u8>, pos: nat, width: nat)
    requires
        unsigned_at(input, pos, width) is Ok,
    ensures
        valid_width(width),
        unsigned_at(input, pos, width)->Ok_0 < pow256(width),
        occurs_at(input, pos, le_bytes(unsigned_at(input, pos, width)->Ok_0, width)),
{
    let bytes = input.subrange(pos as int, pos + width as int);
    lemma_le_bytes_of_value(bytes);
    lemma_le_value_bound(bytes);
    lemma_le_bytes_len(le_value(bytes), width);
}

/// A signed integer that was read stands where it was read.
pub proof fn lemma_signed_found(input: Seq<u8>, pos: nat, width: nat)
    requires
        signed_at(input, pos, width) is Ok,
    ensures
        valid_width(width),
        fits_signed(signed_at(input, pos, width)->Ok_0, width),
        occurs_at(
            input,
            pos,
            le_bytes(twos_complement(signed_at(input, pos, width)->Ok_0, width), width),
        ),
{
    lemma_unsigned_found(input, pos, width);
    lemma_from_twos_complement_inverse(unsigned_at(input, pos, width)->Ok_0, width);
}

/// A run of bytes that was read stands where it was read, behind its length.
pub proof fn lemma_run_found(input: Seq<u8>, pos: nat)
    requires
        run_at(input, pos) is Ok,
    ensures
        run_at(input, pos)->Ok_0.0.len() <= u64::MAX,
        run_at(input, pos)->Ok_0.1 == length_prefixed(run_at(input, pos)->Ok_0.0).len(),
        occurs_at(input, pos, length_prefixed(run_at(input, pos)->Ok_0.0)),
{
    lemma_pow256_values();
    lemma_unsigned_found(input, pos, 8);
    let len = unsigned_at(input, pos, 8)->Ok_0;
    let run = run_at(input, pos)->Ok_0.0;
    lemma_le_bytes_len(len, 8);
    assert(run.len() == len);
    assert(input.subrange(pos + 8 as int, pos + 8 + run.len() as int) == run);
    lemma_occurs_join(input, pos, le_bytes(len, 8), run);
}

/// The elements of a list from index `from` on follow one another as
/// `items_run` says.
pub proof fn lemma_items_run(items: Seq<SpecValue>, from: nat)
    requires
        from <= items.len(),
    ensures
        items_rest(items, from) == items_run(items.skip(from as int), from == 0),
    decreases items.len() - from,
{
    let tail = items.skip(from as int);
    if from < items.len() {
        lemma_items_run(items, from + 1);
        assert(tail.skip(1) =~= items.skip(from + 1 as int));
        assert(tail[0] == items[from as int]);
    }
}

/// The entries of a dictionary from index `from` on follow one another as
/// `entries_run` says.
pub proof fn lemma_entries_run(entries: Seq<(SpecValue, SpecValue)>, from: nat)
    requires
        from <= entries.len(),
    ensures
        entries_rest(entries, from) == entries_run(entries.skip(from as int), from == 0),
    decreases entries.len() - from,
{
    let tail = entries.skip(from as int);
    if from < entries.len() {
        lemma_entries_run(entries, from + 1);
        assert(tail.skip(1) =~= entries.skip(from + 1 as int));
        assert(tail[0] == entries[from as int]);
    }
}

/// Whether a value of this shape is a whole number of fixed width.
pub open spec fn is_number(shape: Shape) -> bool {
    shape is I8 || shape is I16 || shape is I32 || shape is I64 || shape is U8 || shape is U16
        || shape is U32 || shape is U64 || shape is F32 || shape is F64
}

/// Whether a value of this shape holds no other value.
pub open spec fn is_leaf(shape: Shape) -> bool {
    is_number(shape) || shape is Bool || shape is Char || shape is Str || shape is Bytes
        || shape is Unit
}

/// A number that was read stands where it was read.
pub proof fn lemma_number_reads(shape: Shape, input: Seq<u8>, pos: nat)
    requires
        is_number(shape),
    ensures
        decoding(shape, input, pos) matches Ok((value, n)) ==> reads(shape, input, pos, value, n),
{
    lemma_pow256_values();
    if let Ok((value, n)) = decoding(shape, input, pos) {
        match shape {
            Shape::I8 => {
                lemma_signed_found(input, pos, 1);
                lemma_le_bytes_len(twos_complement(signed_at(input, pos, 1)->Ok_0, 1), 1);
            },
            Shape::I16 => {
                lemma_signed_found(input, pos, 2);
                lemma_le_bytes_len(twos_complement(signed_at(input, pos, 2)->Ok_0, 2), 2);
            },
            Shape::I32 => {
                lemma_signed_found(input, pos, 4);
                lemma_le_bytes_len(twos_complement(signed_at(input, pos, 4)->Ok_0, 4), 4);
            },
            Shape::I64 => {
                lemma_signed_found(input, pos, 8);
                lemma_le_bytes_len(twos_complement(signed_at(input, pos, 8)->Ok_0, 8), 8);
            },
            Shape::U8 => {
                lemma_unsigned_found(input, pos, 1);
                lemma_le_bytes_len(unsigned_at(input, pos, 1)->Ok_0, 1);
            },
            Shape::U16 => {
                lemma_unsigned_found(input, pos, 2);
                lemma_le_bytes_len(unsigned_at(input, pos, 2)->Ok_0, 2);
            },
            Shape::U32 | Shape::F32 => {
                lemma_unsigned_found(input, pos, 4);
                lemma_le_bytes_len(unsigned_at(input, pos, 4)->Ok_0, 4);
            },
            _ => {
                lemma_unsigned_found(input, pos, 8);
                lemma_le_bytes_len(unsigned_at(input, pos, 8)->Ok_0, 8);
            },
        }
    }
}

/// A value that holds no other value, and that was read, stands where it was
/// read.
pub proof fn lemma_leaf_reads(shape: Shape, input: Seq<u8>, pos: nat)
    requires
        is_leaf(shape),
    ensures
        decoding(shape, input, pos) matches Ok((value, n)) ==> reads(shape, input, pos, value, n),
{
    lemma_pow256_values();
    if let Ok((value, n)) = decoding(shape, input, pos) {
        match shape {
            Shape::Bool => {
                assert(input.subrange(pos as int, pos + 1 as int) =~= encoding(value));
            },
            Shape::Char => {
                lemma_unsigned_found(input, pos, 4);
                lemma_le_bytes_len(unsigned_at(input, pos, 4)->Ok_0, 4);
            },
            Shape::Str => {
                lemma_run_found(input, pos);
                decode_utf8_encode_utf8(run_at(input, pos)->Ok_0.0);
            },
            Shape::Bytes => {
                lemma_run_found(input, pos);
            },
            Shape::Unit => {
                lemma_token_found(input, pos, Delimiter::Unit);
            },
            _ => {
                lemma_number_reads(shape, input, pos);
            },
        }
    }
}

/// A read that succeeds has found the bytes of the value that it gives:
/// the shape admits the value, the value is unambiguous under the shape, and
/// the bytes read are the value's own.
pub proof fn lemma_decoding_reads(shape: Shape, input: Seq<u8>, pos: nat)
    ensures
        decoding(shape, input, pos) matches Ok((value, n)) ==> reads(shape, input, pos, value, n),
    decreases shape, 1nat, 0nat, 0nat,
{
    match shape {
        Shape::Opt(inner) => {
            if let Ok((value, n)) = decoding(shape, input, pos) {
                if token_at(input, pos, Delimiter::Unit) {
                    lemma_token_found(input, pos, Delimiter::Unit);
                } else {
                    lemma_decoding_reads(*inner, input, pos);
                    let payload = decoding(*inner, input, pos)->Ok_0.0;
                    lemma_encoding_nonempty(payload);
                    lemma_first_byte(input, pos, encoding(payload));
                }
            }
        },
        Shape::List(element) => {
            lemma_list_shape_reads(*element, input, pos);
        },
        Shape::Tuple(shapes) => {
            lemma_tuple_shape_reads(shapes, input, pos);
        },
        Shape::Dict(key, value) => {
            lemma_dict_shape_reads(*key, *value, input, pos);
        },
        Shape::Struct(fields) => {
            lemma_struct_shape_reads(fields, input, pos);
        },
        Shape::Enum(variants) => {
            lemma_enum_shape_reads(variants, input, pos);
        },
        _ => {
            lemma_leaf_reads(shape, input, pos);
        },
    }
}

/// A list that was read stands where it was read.
pub proof fn lemma_list_shape_reads(element: Shape, input: Seq<u8>, pos: nat)
    ensures
        decoding(Shape::List(Box::new(element)), input, pos) matches Ok((value, n)) ==> reads(
            Shape::List(Box::new(element)),
            input,
            pos,
            value,
            n,
        ),
    decreases element, 3nat, 0nat, 0nat,
{
    let shape = Shape::List(Box::new(element));
    let mark = token(Delimiter::SeqStart);
    let close = token(Delimiter::SeqEnd);
    if let Ok((value, n)) = decoding(shape, input, pos) {
        lemma_token_found(input, pos, Delimiter::SeqStart);
        lemma_list_reads(element, input, pos + 1, true);
        let items = list_items(element, input, pos + 1, true)->Ok_0.0;
        lemma_items_split(items, 0);
        lemma_items_run(items, 0);
        assert(items.take(0) =~= Seq::<SpecValue>::empty());
        assert(items.skip(0) =~= items);
        let body = items_run(items, true);
        assert(encoding(value) =~= mark + (body + close));
        lemma_occurs_join(input, pos, mark, body + close);
    }
}

/// A tuple that was read stands where it was read.
pub proof fn lemma_tuple_shape_reads(shapes: Vec<Shape>, input: Seq<u8>, pos: nat)
    ensures
        decoding(Shape::Tuple(shapes), input, pos) matches Ok((value, n)) ==> reads(
            Shape::Tuple(shapes),
            input,
            pos,
            value,
            n,
        ),
    decreases shapes, 1nat, 0nat, 0nat,
{
    let shape = Shape::Tuple(shapes);
    let mark = token(Delimiter::SeqStart);
    let close = token(Delimiter::SeqEnd);
    if let Ok((value, n)) = decoding(shape, input, pos) {
        lemma_token_found(input, pos, Delimiter::SeqStart);
        lemma_tuple_reads(shapes@, 0, input, pos + 1);
        let items = tuple_items(shapes@, 0, input, pos + 1)->Ok_0.0;
        lemma_items_split(items, 0);
        lemma_items_run(items, 0);
        assert(items.take(0) =~= Seq::<SpecValue>::empty());
        assert(items.skip(0) =~= items);
        let body = items_run(items, true);
        assert(encoding(value) =~= mark + (body + close));
        lemma_occurs_join(input, pos, mark, body + close);
    }
}

/// A dictionary that was read stands where it was read.
pub proof fn lemma_dict_shape_reads(key: Shape, value_shape: Shape, input: Seq<u8>, pos: nat)
    ensures
        decoding(Shape::Dict(Box::new(key), Box::new(value_shape)), input, pos) matches Ok(
            (value, n),
        ) ==> reads(Shape::Dict(Box::new(key), Box::new(value_shape)), input, pos, value, n),
    decreases Shape::Dict(Box::new(key), Box::new(value_shape)), 0nat,
        remaining(input, pos + 1) + 1, 0nat,
{
    let shape = Shape::Dict(Box::new(key), Box::new(value_shape));
    let mark = token(Delimiter::MapStart);
    let close = token(Delimiter::MapEnd);
    if let Ok((value, n)) = decoding(shape, input, pos) {
        lemma_token_found(input, pos, Delimiter::MapStart);
        lemma_dict_reads(key, value_shape, input, pos + 1, true);
        let entries = dict_entries(key, value_shape, input, pos + 1, true)->Ok_0.0;
        lemma_entries_split(entries, 0);
        lemma_entries_run(entries, 0);
        assert(entries.take(0) =~= Seq::<(SpecValue, SpecValue)>::empty());
        assert(entries.skip(0) =~= entries);
        let body = entries_run(entries, true);
        assert(encoding(value) =~= mark + (body + close));
        lemma_occurs_join(input, pos, mark, body + close);
    }
}

/// A struct that was read stands where it was read.
pub proof fn lemma_struct_shape_reads(fields: Vec<(String, Shape)>, input: Seq<u8>, pos: nat)
    ensures
        decoding(Shape::Struct(fields), input, pos) matches Ok((value, n)) ==> reads(
            Shape::Struct(fields),
            input,
            pos,
            value,
            n,
        ),
    decreases fields, 1nat, 0nat, 0nat,
{
    let shape = Shape::Struct(fields);
    let mark = token(Delimiter::MapStart);
    let close = token(Delimiter::MapEnd);
    if let Ok((value, n)) = decoding(shape, input, pos) {
        lemma_token_found(input, pos, Delimiter::MapStart);
        lemma_struct_reads(fields@, 0, input, pos + 1);
        let entries = struct_fields(fields@, 0, input, pos + 1)->Ok_0.0;
        lemma_entries_split(entries, 0);
        lemma_entries_run(entries, 0);
        assert(entries.take(0) =~= Seq::<(SpecValue, SpecValue)>::empty());
        assert(entries.skip(0) =~= entries);
        let body = entries_run(entries, true);
        assert(encoding(value) =~= mark + (body + close));
        lemma_occurs_join(input, pos, mark, body + close);
    }
}

/// An enum variant that was read stands where it was read.
pub proof fn lemma_enum_shape_reads(variants: Vec<Option<Shape>>, input: Seq<u8>, pos: nat)
    ensures
        decoding(Shape::Enum(variants), input, pos) matches Ok((value, n)) ==> reads(
            Shape::Enum(variants),
            input,
            pos,
            value,
            n,
        ),
    decreases variants, 1nat, 0nat, 0nat,
{
    lemma_pow256_values();
    let shape = Shape::Enum(variants);
    if let Ok((value, n)) = decoding(shape, input, pos) {
        let index = variant_at(input, pos, variants@.len())->Ok_0.0;
        let mark = token(Delimiter::Enum);
        let number = le_bytes(index as nat, 4);
        lemma_token_found(input, pos, Delimiter::Enum);
        lemma_unsigned_found(input, pos + 1, 4);
        lemma_le_bytes_len(index as nat, 4);
        lemma_occurs_join(input, pos, mark, number);
        match variants@[index as int] {
            None => {},
            Some(payload) => {
                lemma_decoding_reads(payload, input, pos + 5);
                let inner = decoding(payload, input, pos + 5)->Ok_0.0;
                lemma_occurs_join(input, pos, mark + number, encoding(inner));
            },
        }
    }
}

/// The elements that a list read gives stand where it read them, each behind
/// its separator, and the closing delimiter behind them.
pub proof fn lemma_list_reads(element: Shape, input: Seq<u8>, pos: nat, first: bool)
    ensures
        list_items(element, input, pos, first) matches Ok((items, n)) ==> {
            &&& forall|i: int|
                0 <= i < items.len() ==> element.admits(#[trigger] items[i]) && unambiguous(
                    element,
                    items[i],
                )
            &&& first && items.len() > 0 ==> leading_byte(items[0])
                != Delimiter::SeqEnd.pattern()
            &&& n == items_run(items, first).len() + 1
            &&& occurs_at(input, pos, items_run(items, first) + token(Delimiter::SeqEnd))
        },
    decreases element, 2nat, remaining(input, pos),
        if first {
            1nat
        } else {
            0nat
        },
{
    let close = token(Delimiter::SeqEnd);
    if let Ok((items, n)) = list_items(element, input, pos, first) {
        if token_at(input, pos, Delimiter::SeqEnd) {
            lemma_token_found(input, pos, Delimiter::SeqEnd);
            assert(items_run(items, first) + close =~= close);
        } else {
            let sep = separator(first, Delimiter::SeqValue);
            let at_item = pos + sep.len();
            lemma_separator_found(input, pos, first, Delimiter::SeqValue);
            lemma_decoding_reads(element, input, at_item);
            let (item, read) = decoding(element, input, at_item)->Ok_0;
            let at_rest = at_item + read;
            lemma_list_reads(element, input, at_rest, false);
            let (rest, m) = list_items(element, input, at_rest, false)->Ok_0;
            assert(items =~= seq![item] + rest);
            assert(items.skip(1) =~= rest);
            assert(items[0] == item);
            let tail = items_run(rest, false) + close;
            lemma_occurs_join(input, at_item, encoding(item), tail);
            lemma_occurs_join(input, pos, sep, encoding(item) + tail);
            assert(items_run(items, first) + close =~= sep + (encoding(item) + tail));
            lemma_encoding_nonempty(item);
            if first {
                lemma_first_byte(input, pos, encoding(item));
            }
            assert forall|i: int| 0 <= i < items.len() implies element.admits(
                #[trigger] items[i],
            ) && unambiguous(element, items[i]) by {
                if i > 0 {
                    assert(items[i] == rest[i - 1]);
                }
            }
        }
    }
}

/// The elements that a tuple read gives stand where it read them, one for
/// each shape from index `from` on.
pub proof fn lemma_tuple_reads(shapes: Seq<Shape>, from: nat, input: Seq<u8>, pos: nat)
    requires
        from <= shapes.len(),
    ensures
        tuple_items(shapes, from, input, pos) matches Ok((items, n)) ==> {
            &&& items.len() == shapes.len() - from
            &&& forall|i: int|
                0 <= i < items.len() ==> shapes[from + i].admits(#[trigger] items[i])
                    && unambiguous(shapes[from + i], items[i])
            &&& n == items_run(items, from == 0).len() + 1
            &&& occurs_at(input, pos, items_run(items, from == 0) + token(Delimiter::SeqEnd))
        },
    decreases shapes, 0nat, shapes.len() - from, 0nat,
{
    let close = token(Delimiter::SeqEnd);
    let first = from == 0;
    if let Ok((items, n)) = tuple_items(shapes, from, input, pos) {
        if from >= shapes.len() {
            lemma_token_found(input, pos, Delimiter::SeqEnd);
            assert(items_run(items, first) + close =~= close);
        } else {
            let sep = separator(first, Delimiter::SeqValue);
            let at_item = pos + sep.len();
            lemma_separator_found(input, pos, first, Delimiter::SeqValue);
            lemma_decoding_reads(shapes[from as int], input, at_item);
            let (item, read) = decoding(shapes[from as int], input, at_item)->Ok_0;
            let at_rest = at_item + read;
            lemma_tuple_reads(shapes, from + 1, input, at_rest);
            let (rest, m) = tuple_items(shapes, from + 1, input, at_rest)->Ok_0;
            assert(items =~= seq![item] + rest);
            assert(items.skip(1) =~= rest);
            assert(items[0] == item);
            let tail = items_run(rest, false) + close;
            lemma_occurs_join(input, at_item, encoding(item), tail);
            lemma_occurs_join(input, pos, sep, encoding(item) + tail);
            assert(items_run(items, first) + close =~= sep + (encoding(item) + tail));
            assert forall|i: int| 0 <= i < items.len() implies shapes[from + i].admits(
                #[trigger] items[i],
            ) && unambiguous(shapes[from + i], items[i]) by {
                if i > 0 {
                    assert(items[i] == rest[i - 1]);
                }
            }
        }
    }
}

/// The entries that a dictionary read gives stand where it read them, each
/// behind its separator, and the closing delimiter behind them.
pub proof fn lemma_dict_reads(
    key_shape: Shape,
    value_shape: Shape,
    input: Seq<u8>,
    pos: nat,
    first: bool,
)
    ensures
        dict_entries(key_shape, value_shape, input, pos, first) matches Ok((entries, n)) ==> {
            &&& forall|i: int|
                0 <= i < entries.len() ==> {
                    &&& key_shape.admits((#[trigger] entries[i]).0)
                    &&& unambiguous(key_shape, entries[i].0)
                    &&& value_shape.admits(entries[i].1)
                    &&& unambiguous(value_shape, entries[i].1)
                }
            &&& first && entries.len() > 0 ==> leading_byte(entries[0].0)
                != Delimiter::MapEnd.pattern()
            &&& n == entries_run(entries, first).len() + 1
            &&& occurs_at(input, pos, entries_run(entries, first) + token(Delimiter::MapEnd))
        },
    decreases Shape::Dict(Box::new(key_shape), Box::new(value_shape)), 0nat,
        remaining(input, pos),
        if first {
            1nat
        } else {
            0nat
        },
{
    let close = token(Delimiter::MapEnd);
    let whole = Shape::Dict(Box::new(key_shape), Box::new(value_shape));
    assert(decreases_to!(whole => *whole->Dict_0));
    assert(decreases_to!(whole => *whole->Dict_1));
    if let Ok((entries, n)) = dict_entries(key_shape, value_shape, input, pos, first) {
        if token_at(input, pos, Delimiter::MapEnd) {
            lemma_token_found(input, pos, Delimiter::MapEnd);
            assert(entries_run(entries, first) + close =~= close);
        } else {
            lemma_separator_found(input, pos, first, Delimiter::MapValue);
            let sep = separator(first, Delimiter::MapValue);
            let at_key = pos + sep.len();
            lemma_decoding_reads(key_shape, input, at_key);
            let (key, key_len) = decoding(key_shape, input, at_key)->Ok_0;
            let at_mid = at_key + key_len;
            lemma_token_found(input, at_mid, Delimiter::MapKey);
            let at_value = at_mid + 1;
            lemma_decoding_reads(value_shape, input, at_value);
            let (value, value_len) = decoding(value_shape, input, at_value)->Ok_0;
            let at_rest = at_value + value_len;
            lemma_dict_reads(key_shape, value_shape, input, at_rest, false);
            let (rest, m) = dict_entries(key_shape, value_shape, input, at_rest, false)->Ok_0;
            let entry = (key, value);
            assert(entries =~= seq![entry] + rest);
            assert(entries.skip(1) =~= rest);
            assert(entries[0] == entry);
            let tail = entries_run(rest, false) + close;
            lemma_entry_join(input, pos, sep, entry, tail);
            assert(entries_run(entries, first) + close =~= sep + encoding_entry(entry) + tail);
            lemma_encoding_nonempty(key);
            if first {
                lemma_first_byte(input, pos, encoding(key));
            }
            assert forall|i: int| 0 <= i < entries.len() implies {
                &&& key_shape.admits((#[trigger] entries[i]).0)
                &&& unambiguous(key_shape, entries[i].0)
                &&& value_shape.admits(entries[i].1)
                &&& unambiguous(value_shape, entries[i].1)
            } by {
                if i > 0 {
                    assert(entries[i] == rest[i - 1]);
                }
            }
        }
    }
}

/// Where a separator, a key, the key delimiter, a value and more bytes stand
/// one behind the other, the separator, the entry and the rest stand there
/// as one run.
pub proof fn lemma_entry_join(
    input: Seq<u8>,
    pos: nat,
    sep: Seq<u8>,
    entry: (SpecValue, SpecValue),
    more: Seq<u8>,
)
    requires
        occurs_at(input, pos, sep),
        occurs_at(input, pos + sep.len(), encoding(entry.0)),
        occurs_at(input, pos + sep.len() + encoding(entry.0).len(), token(Delimiter::MapKey)),
        occurs_at(input, pos + sep.len() + encoding(entry.0).len() + 1, encoding(entry.1)),
        occurs_at(
            input,
            pos + sep.len() + encoding(entry.0).len() + 1 + encoding(entry.1).len(),
            more,
        ),
    ensures
        occurs_at(input, pos, sep + encoding_entry(entry) + more),
{
    let key = encoding(entry.0);
    let mid = token(Delimiter::MapKey);
    let value = encoding(entry.1);
    lemma_occurs_join(input, pos + sep.len() + key.len() + 1, value, more);
    lemma_occurs_join(input, pos + sep.len() + key.len(), mid, value + more);
    lemma_occurs_join(input, pos + sep.len(), key, mid + (value + more));
    lemma_occurs_join(input, pos, sep, key + (mid + (value + more)));
    assert(sep + encoding_entry(entry) + more =~= sep + (key + (mid + (value + more))));
}

/// The field that a field read gives stands where it was read, behind its
/// separator, and its key is the name that was asked for.
pub proof fn lemma_field_reads(
    name: Seq<char>,
    shape: Shape,
    input: Seq<u8>,
    pos: nat,
    first: bool,
)
    ensures
        field_at(name, shape, input, pos, first) matches Ok((entry, n)) ==> {
            &&& entry.0 == SpecValue::Str(name)
            &&& encode_utf8(name).len() <= u64::MAX
            &&& shape.admits(entry.1)
            &&& unambiguous(shape, entry.1)
            &&& n == (separator(first, Delimiter::MapValue) + encoding_entry(entry)).len()
            &&& occurs_at(
                input,
                pos,
                separator(first, Delimiter::MapValue) + encoding_entry(entry),
            )
        },
    decreases shape, 2nat, 0nat, 0nat,
{
    if let Ok((entry, n)) = field_at(name, shape, input, pos, first) {
        let sep = separator(first, Delimiter::MapValue);
        let at_key = pos + sep.len();
        lemma_separator_found(input, pos, first, Delimiter::MapValue);
        lemma_run_found(input, at_key);
        decode_utf8_encode_utf8(run_at(input, at_key)->Ok_0.0);
        let key_len = text_at(input, at_key)->Ok_0.1;
        let at_mid = at_key + key_len;
        lemma_token_found(input, at_mid, Delimiter::MapKey);
        let at_value = at_mid + 1;
        lemma_decoding_reads(shape, input, at_value);
        let value_len = decoding(shape, input, at_value)->Ok_0.1;
        let end = at_value + value_len;
        assert(input.subrange(end as int, end as int) =~= Seq::<u8>::empty());
        lemma_entry_join(input, pos, sep, entry, Seq::<u8>::empty());
        assert(sep + encoding_entry(entry) + Seq::<u8>::empty() =~= sep + encoding_entry(entry));
    }
}

/// The entries that a struct read gives stand where it read them, one for
/// each field from index `from` on, keyed by the field's name.
pub proof fn lemma_struct_reads(
    fields: Seq<(String, Shape)>,
    from: nat,
    input: Seq<u8>,
    pos: nat,
)
    requires
        from <= fields.len(),
    ensures
        struct_fields(fields, from, input, pos) matches Ok((entries, n)) ==> {
            &&& entries.len() == fields.len() - from
            &&& forall|i: int|
                0 <= i < entries.len() ==> {
                    &&& (#[trigger] entries[i]).0 == SpecValue::Str(fields[from + i].0@)
                    &&& encode_utf8(fields[from + i].0@).len() <= u64::MAX
                    &&& fields[from + i].1.admits(entries[i].1)
                    &&& unambiguous(fields[from + i].1, entries[i].1)
                }
            &&& n == entries_run(entries, from == 0).len() + 1
            &&& occurs_at(
                input,
                pos,
                entries_run(entries, from == 0) + token(Delimiter::MapEnd),
            )
        },
    decreases fields, 0nat, fields.len() - from, 0nat,
{
    let close = token(Delimiter::MapEnd);
    let first = from == 0;
    if let Ok((entries, n)) = struct_fields(fields, from, input, pos) {
        if from >= fields.len() {
            lemma_token_found(input, pos, Delimiter::MapEnd);
            assert(entries_run(entries, first) + close =~= close);
        } else {
            let name = fields[from as int].0@;
            let shape = fields[from as int].1;
            lemma_field_reads(name, shape, input, pos, first);
            let (entry, read) = field_at(name, shape, input, pos, first)->Ok_0;
            let at_rest = pos + read;
            lemma_struct_reads(fields, from + 1, input, at_rest);
            let (rest, m) = struct_fields(fields, from + 1, input, at_rest)->Ok_0;
            let head = separator(first, Delimiter::MapValue) + encoding_entry(entry);
            assert(entries =~= seq![entry] + rest);
            assert(entries.skip(1) =~= rest);
            assert(entries[0] == entry);
            let tail = entries_run(rest, false) + close;
            lemma_occurs_join(input, pos, head, tail);
            assert(entries_run(entries, first) + close =~= head + tail);
            assert forall|i: int| 0 <= i < entries.len() implies {
                &&& (#[trigger] entries[i]).0 == SpecValue::Str(fields[from + i].0@)
                &&& encode_utf8(fields[from + i].0@).len() <= u64::MAX
                &&& fields[from + i].1.admits(entries[i].1)
                &&& unambiguous(fields[from + i].1, entries[i].1)
            } by {
                if i > 0 {
                    assert(entries[i] == rest[i - 1]);
                }
            }
        }
    }
}

/// What is read is what stands there: if reading `input` as `shape` gives a
/// value, then `input` begins with the bytes of that value and no more than
/// those were read, `shape` admits the value, and the value is unambiguous.
pub proof fn theorem_reads_what_stands(shape: Shape, input: Seq<u8>)
    ensures
        decoding(shape, input, 0) matches Ok((value, n)) ==> {
            &&& shape.admits(value)
            &&& unambiguous(shape, value)
            &&& n == encoding(value).len()
            &&& n <= input.len()
            &&& input.take(n as int) == encoding(value)
        },
{
    lemma_decoding_reads(shape, input, 0);
    if let Ok((value, n)) = decoding(shape, input, 0) {
        assert(input.take(n as int) =~= input.subrange(0, 0 + n as int));
    }
}

/// The values that are read back from their own bytes are those that the
/// shape admits and that are unambiguous under it, and no others.
pub proof fn theorem_round_trip_exact(shape: Shape, value: SpecValue)
    ensures
        (shape.admits(value) && unambiguous(shape, value)) <==> decoding(
            shape,
            encoding(value),
            0,
        ) == Ok::<(SpecValue, nat), SpecError>((value, encoding(value).len())),
{
    if shape.admits(value) && unambiguous(shape, value) {
        theorem_round_trip(shape, value);
    }
    lemma_decoding_reads(shape, encoding(value), 0);
}

} // verus!
