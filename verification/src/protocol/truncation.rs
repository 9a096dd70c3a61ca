//! A shortened input is refused: however the bytes of a value are cut short,
//! reading them fails with the end of the input or a missing delimiter.

use vstd::prelude::*;
use vstd::utf8::encode_utf8;
use super::error::SpecError;
use super::format::decoding;
use super::format::dict_entries;
use super::format::encoding;
use super::format::encoding_entries;
use super::format::encoding_entry;
use super::format::encoding_items;
use super::format::expect;
use super::format::field_at;
use super::format::length_prefixed;
use super::format::list_items;
use super::format::run_at;
use super::format::separator;
use super::format::separator_at;
use super::format::struct_fields;
use super::format::text_at;
use super::format::token;
use super::format::token_at;
use super::format::tuple_items;
use super::theorems::entries_rest;
use super::theorems::items_rest;
use super::theorems::leading_byte;
use super::theorems::lemma_decoding_of_encoding;
use super::theorems::lemma_encoding_nonempty;
use super::theorems::lemma_entries_split;
use super::theorems::lemma_items_split;
use super::theorems::lemma_text_occurs;
use super::theorems::lemma_token_occurs;
use super::theorems::lemma_unsigned_occurs;
use super::theorems::occurs_at;
use super::theorems::theorem_nested_list_round_trip;
use super::theorems::unambiguous;
use super::token::Delimiter;
use super::value::Shape;
use super::value::SpecValue;
use super::wire::le_bytes;
use super::wire::lemma_le_bytes_len;
use super::wire::lemma_pow256_values;
use super::wire::twos_complement;

verus! {

/// Whether `input` ends inside `bytes` that begin at `pos`: what is left of
/// `input` from `pos` on is a beginning of `bytes`, and not all of them.
pub open spec fn cut_at(input: Seq<u8>, pos: nat, bytes: Seq<u8>) -> bool {
    &&& pos <= input.len() < pos + bytes.len()
    &&& input.subrange(pos as int, input.len() as int) == bytes.take(input.len() - pos)
}

/// Whether a read was refused because the input ended or a delimiter was
/// missing.
pub open spec fn refused<T>(result: Result<(T, nat), SpecError>) -> bool {
    result matches Err(e) && e.is_truncation()
}

/// Where the input ends inside two runs of bytes that stand one after the
/// other, it ends inside the first, or the first stands whole and the input
/// ends inside the second.
pub proof fn lemma_cut_split(input: Seq<u8>, pos: nat, head: Seq<u8>, tail: Seq<u8>)
    requires
        cut_at(input, pos, head + tail),
    ensures
        input.len() < pos + head.len() ==> cut_at(input, pos, head),
        input.len() >= pos + head.len() ==> occurs_at(input, pos, head) && cut_at(
            input,
            pos + head.len(),
            tail,
        ),
{
    let left = input.subrange(pos as int, input.len() as int);
    let kept = (input.len() - pos) as int;
    assert(left == (head + tail).take(kept));
    if input.len() < pos + head.len() {
        assert((head + tail).take(kept) =~= head.take(kept));
    } else {
        assert(input.subrange(pos as int, pos + head.len() as int) =~= left.subrange(
            0,
            head.len() as int,
        ));
        assert(left.subrange(0, head.len() as int) =~= head);
        assert(input.subrange(pos + head.len() as int, input.len() as int) =~= left.subrange(
            head.len() as int,
            kept,
        ));
        assert(left.subrange(head.len() as int, kept) =~= tail.take(kept - head.len()));
    }
}

/// The first byte of bytes inside which the input ends, if the input holds
/// it, is the byte at `pos`.
pub proof fn lemma_first_byte_cut(input: Seq<u8>, pos: nat, bytes: Seq<u8>)
    requires
        cut_at(input, pos, bytes),
        pos < input.len(),
    ensures
        input[pos as int] == bytes[0],
{
    assert(input.subrange(pos as int, input.len() as int)[0] == bytes.take(input.len() - pos)[0]);
}

/// A run of bytes behind its length, inside which the input ends, is refused
/// with `UnexpectedEOF`.
pub proof fn lemma_run_cut(input: Seq<u8>, pos: nat, bytes: Seq<u8>)
    requires
        bytes.len() <= u64::MAX,
        cut_at(input, pos, length_prefixed(bytes)),
    ensures
        run_at(input, pos) == Err::<(Seq<u8>, nat), SpecError>(SpecError::UnexpectedEOF),
{
    lemma_pow256_values();
    lemma_le_bytes_len(bytes.len(), 8);
    lemma_cut_split(input, pos, le_bytes(bytes.len(), 8), bytes);
    if input.len() >= pos + 8 {
        lemma_unsigned_occurs(input, pos, bytes.len(), 8);
    }
}

/// At the end of the input every read is refused.
pub proof fn lemma_decoding_at_end(shape: Shape, input: Seq<u8>, pos: nat)
    requires
        pos >= input.len(),
    ensures
        refused(decoding(shape, input, pos)),
    decreases shape,
{
    match shape {
        Shape::Opt(inner) => {
            lemma_decoding_at_end(*inner, input, pos);
        },
        _ => {},
    }
}

/// A shortened input is refused: where `input` ends inside the bytes of
/// `value`, which begin at `pos`, reading it there as `shape` fails with
/// `UnexpectedEOF` or `ExpectedDelimiter`.
pub proof fn lemma_decoding_of_cut(shape: Shape, value: SpecValue, input: Seq<u8>, pos: nat)
    requires
        shape.admits(value),
        unambiguous(shape, value),
        cut_at(input, pos, encoding(value)),
    ensures
        refused(decoding(shape, input, pos)),
    decreases value, 0nat, 0nat,
{
    lemma_pow256_values();
    let bytes = encoding(value);
    match (shape, value) {
        (Shape::Bool, SpecValue::Bool(b)) => {},
        (Shape::I8, SpecValue::I8(x)) => {
            lemma_le_bytes_len(twos_complement(x as int, 1), 1);
        },
        (Shape::I16, SpecValue::I16(x)) => {
            lemma_le_bytes_len(twos_complement(x as int, 2), 2);
        },
        (Shape::I32, SpecValue::I32(x)) => {
            lemma_le_bytes_len(twos_complement(x as int, 4), 4);
        },
        (Shape::I64, SpecValue::I64(x)) => {
            lemma_le_bytes_len(twos_complement(x as int, 8), 8);
        },
        (Shape::U8, SpecValue::U8(x)) => {
            lemma_le_bytes_len(x as nat, 1);
        },
        (Shape::U16, SpecValue::U16(x)) => {
            lemma_le_bytes_len(x as nat, 2);
        },
        (Shape::U32, SpecValue::U32(x)) => {
            lemma_le_bytes_len(x as nat, 4);
        },
        (Shape::U64, SpecValue::U64(x)) => {
            lemma_le_bytes_len(x as nat, 8);
        },
        (Shape::F32, SpecValue::F32(x)) => {
            lemma_le_bytes_len(x as nat, 4);
        },
        (Shape::F64, SpecValue::F64(x)) => {
            lemma_le_bytes_len(x as nat, 8);
        },
        (Shape::Char, SpecValue::Char(c)) => {
            lemma_le_bytes_len(c as u32 as nat, 4);
        },
        (Shape::Str, SpecValue::Str(text)) => {
            lemma_run_cut(input, pos, encode_utf8(text));
        },
        (Shape::Bytes, SpecValue::Bytes(run)) => {
            lemma_run_cut(input, pos, run);
        },
        (Shape::Unit, SpecValue::Unit) => {},
        (Shape::Opt(inner), SpecValue::Opt(None)) => {
            lemma_decoding_at_end(shape, input, pos);
        },
        (Shape::Opt(inner), SpecValue::Opt(Some(payload))) => {
            if pos >= input.len() {
                lemma_decoding_at_end(shape, input, pos);
            } else {
                lemma_first_byte_cut(input, pos, bytes);
                lemma_decoding_of_cut(*inner, *payload, input, pos);
            }
        },
        (Shape::List(element), SpecValue::List(items)) => {
            let open = token(Delimiter::SeqStart);
            let close = token(Delimiter::SeqEnd);
            let body = encoding_items(items);
            assert(bytes =~= open + (body + close));
            lemma_cut_split(input, pos, open, body + close);
            if input.len() >= pos + 1 {
                lemma_token_occurs(input, pos, Delimiter::SeqStart);
                lemma_items_split(items, 0);
                assert(items.take(0) =~= Seq::<SpecValue>::empty());
                assert(body =~= items_rest(items, 0));
                lemma_list_cut(*element, items, 0, input, pos + 1);
            }
        },
        (Shape::Tuple(shapes), SpecValue::List(items)) => {
            let open = token(Delimiter::SeqStart);
            let close = token(Delimiter::SeqEnd);
            let body = encoding_items(items);
            assert(bytes =~= open + (body + close));
            lemma_cut_split(input, pos, open, body + close);
            if input.len() >= pos + 1 {
                lemma_token_occurs(input, pos, Delimiter::SeqStart);
                lemma_items_split(items, 0);
                assert(items.take(0) =~= Seq::<SpecValue>::empty());
                assert(body =~= items_rest(items, 0));
                lemma_tuple_cut(shapes@, items, 0, input, pos + 1);
            }
        },
        (Shape::Dict(key, value_shape), SpecValue::Dict(entries)) => {
            let open = token(Delimiter::MapStart);
            let close = token(Delimiter::MapEnd);
            let body = encoding_entries(entries);
            assert(bytes =~= open + (body + close));
            lemma_cut_split(input, pos, open, body + close);
            if input.len() >= pos + 1 {
                lemma_token_occurs(input, pos, Delimiter::MapStart);
                lemma_entries_split(entries, 0);
                assert(entries.take(0) =~= Seq::<(SpecValue, SpecValue)>::empty());
                assert(body =~= entries_rest(entries, 0));
                lemma_dict_cut(*key, *value_shape, entries, 0, input, pos + 1);
            }
        },
        (Shape::Struct(fields), SpecValue::Dict(entries)) => {
            let open = token(Delimiter::MapStart);
            let close = token(Delimiter::MapEnd);
            let body = encoding_entries(entries);
            assert(bytes =~= open + (body + close));
            lemma_cut_split(input, pos, open, body + close);
            if input.len() >= pos + 1 {
                lemma_token_occurs(input, pos, Delimiter::MapStart);
                lemma_entries_split(entries, 0);
                assert(entries.take(0) =~= Seq::<(SpecValue, SpecValue)>::empty());
                assert(body =~= entries_rest(entries, 0));
                lemma_struct_cut(fields@, entries, 0, input, pos + 1);
            }
        },
        (Shape::Enum(variants), SpecValue::Variant(index, None)) => {
            let mark = token(Delimiter::Enum);
            let number = le_bytes(index as nat, 4);
            lemma_le_bytes_len(index as nat, 4);
            lemma_cut_split(input, pos, mark, number);
            if input.len() >= pos + 1 {
                lemma_token_occurs(input, pos, Delimiter::Enum);
            }
        },
        (Shape::Enum(variants), SpecValue::Variant(index, Some(payload))) => {
            let mark = token(Delimiter::Enum);
            let number = le_bytes(index as nat, 4);
            let inner = variants@[index as int]->Some_0;
            lemma_le_bytes_len(index as nat, 4);
            assert(bytes =~= mark + (number + encoding(*payload)));
            lemma_cut_split(input, pos, mark, number + encoding(*payload));
            if input.len() >= pos + 1 {
                lemma_token_occurs(input, pos, Delimiter::Enum);
                lemma_cut_split(input, pos + 1, number, encoding(*payload));
                if input.len() >= pos + 5 {
                    lemma_unsigned_occurs(input, pos + 1, index as nat, 4);
                    lemma_decoding_of_cut(inner, *payload, input, pos + 5);
                }
            }
        },
        _ => {},
    }
}

/// The elements of a list from index `from` on are refused where the input
/// ends inside them or before the closing delimiter.
pub proof fn lemma_list_cut(
    element: Shape,
    items: Seq<SpecValue>,
    from: nat,
    input: Seq<u8>,
    pos: nat,
)
    requires
        from <= items.len(),
        forall|i: int|
            0 <= i < items.len() ==> element.admits(#[trigger] items[i]) && unambiguous(
                element,
                items[i],
            ),
        items.len() > 0 ==> leading_byte(items[0]) != Delimiter::SeqEnd.pattern(),
        cut_at(input, pos, items_rest(items, from) + token(Delimiter::SeqEnd)),
    ensures
        refused(list_items(element, input, pos, from == 0)),
    decreases items, 1nat, items.len() - from,
{
    let close = token(Delimiter::SeqEnd);
    if from == items.len() {
        assert(items_rest(items, from) + close =~= close);
        if from == 0 {
            lemma_decoding_at_end(element, input, pos);
        }
    } else {
        let sep = separator(from == 0, Delimiter::SeqValue);
        let item = items[from as int];
        let rest = items_rest(items, from + 1);
        let at_item = pos + sep.len();
        lemma_encoding_nonempty(item);
        assert(items_rest(items, from) + close =~= sep + (encoding(item) + (rest + close)));
        lemma_cut_split(input, pos, sep, encoding(item) + (rest + close));
        if input.len() >= at_item {
            lemma_cut_split(input, at_item, encoding(item), rest + close);
            assert(!token_at(input, pos, Delimiter::SeqEnd)) by {
                if from != 0 {
                    lemma_token_occurs(input, pos, Delimiter::SeqValue);
                } else if pos < input.len() {
                    lemma_first_byte_cut(input, pos, encoding(item) + (rest + close));
                }
            }
            assert(separator_at(input, pos, from == 0, Delimiter::SeqValue) == Ok::<
                nat,
                SpecError,
            >(sep.len())) by {
                if from != 0 {
                    lemma_token_occurs(input, pos, Delimiter::SeqValue);
                }
            }
            if input.len() < at_item + encoding(item).len() {
                lemma_decoding_of_cut(element, item, input, at_item);
            } else {
                lemma_decoding_of_encoding(element, item, input, at_item);
                lemma_list_cut(element, items, from + 1, input, at_item + encoding(item).len());
            }
        }
    }
}

/// The elements of a tuple from index `from` on are refused where the input
/// ends inside them or before the closing delimiter.
pub proof fn lemma_tuple_cut(
    shapes: Seq<Shape>,
    items: Seq<SpecValue>,
    from: nat,
    input: Seq<u8>,
    pos: nat,
)
    requires
        from <= items.len() == shapes.len(),
        forall|i: int|
            0 <= i < items.len() ==> shapes[i].admits(#[trigger] items[i]) && unambiguous(
                shapes[i],
                items[i],
            ),
        cut_at(input, pos, items_rest(items, from) + token(Delimiter::SeqEnd)),
    ensures
        refused(tuple_items(shapes, from, input, pos)),
    decreases items, 1nat, items.len() - from,
{
    let close = token(Delimiter::SeqEnd);
    if from == items.len() {
        assert(items_rest(items, from) + close =~= close);
    } else {
        let sep = separator(from == 0, Delimiter::SeqValue);
        let item = items[from as int];
        let rest = items_rest(items, from + 1);
        let at_item = pos + sep.len();
        assert(items_rest(items, from) + close =~= sep + (encoding(item) + (rest + close)));
        lemma_cut_split(input, pos, sep, encoding(item) + (rest + close));
        if input.len() >= at_item {
            lemma_cut_split(input, at_item, encoding(item), rest + close);
            assert(separator_at(input, pos, from == 0, Delimiter::SeqValue) == Ok::<
                nat,
                SpecError,
            >(sep.len())) by {
                if from != 0 {
                    lemma_token_occurs(input, pos, Delimiter::SeqValue);
                }
            }
            if input.len() < at_item + encoding(item).len() {
                lemma_decoding_of_cut(shapes[from as int], item, input, at_item);
            } else {
                lemma_decoding_of_encoding(shapes[from as int], item, input, at_item);
                lemma_tuple_cut(shapes, items, from + 1, input, at_item + encoding(item).len());
            }
        }
    }
}

/// The entries of a dictionary from index `from` on are refused where the
/// input ends inside them or before the closing delimiter.
#[verifier::rlimit(30)]
pub proof fn lemma_dict_cut(
    key_shape: Shape,
    value_shape: Shape,
    entries: Seq<(SpecValue, SpecValue)>,
    from: nat,
    input: Seq<u8>,
    pos: nat,
)
    requires
        from <= entries.len(),
        forall|i: int|
            0 <= i < entries.len() ==> {
                &&& key_shape.admits((#[trigger] entries[i]).0)
                &&& unambiguous(key_shape, entries[i].0)
                &&& value_shape.admits(entries[i].1)
                &&& unambiguous(value_shape, entries[i].1)
            },
        entries.len() > 0 ==> leading_byte(entries[0].0) != Delimiter::MapEnd.pattern(),
        cut_at(input, pos, entries_rest(entries, from) + token(Delimiter::MapEnd)),
    ensures
        refused(dict_entries(key_shape, value_shape, input, pos, from == 0)),
    decreases entries, 1nat, entries.len() - from,
{
    let close = token(Delimiter::MapEnd);
    if from == entries.len() {
        assert(entries_rest(entries, from) + close =~= close);
        if from == 0 {
            lemma_decoding_at_end(key_shape, input, pos);
        }
    } else {
        let sep = separator(from == 0, Delimiter::MapValue);
        let entry = entries[from as int];
        let key = encoding(entry.0);
        let mid = token(Delimiter::MapKey);
        let value = encoding(entry.1);
        let rest = entries_rest(entries, from + 1);
        let at_key = pos + sep.len();
        let at_mid = at_key + key.len();
        let at_value = at_mid + 1;
        let at_rest = at_value + value.len();
        lemma_encoding_nonempty(entry.0);
        assert(entries_rest(entries, from) + close =~= sep + (key + (mid + (value + (rest
            + close)))));
        lemma_cut_split(input, pos, sep, key + (mid + (value + (rest + close))));
        if input.len() >= at_key {
            lemma_cut_split(input, at_key, key, mid + (value + (rest + close)));
            assert(!token_at(input, pos, Delimiter::MapEnd)) by {
                if from != 0 {
                    lemma_token_occurs(input, pos, Delimiter::MapValue);
                } else if pos < input.len() {
                    lemma_first_byte_cut(input, pos, key + (mid + (value + (rest + close))));
                }
            }
            assert(separator_at(input, pos, from == 0, Delimiter::MapValue) == Ok::<
                nat,
                SpecError,
            >(sep.len())) by {
                if from != 0 {
                    lemma_token_occurs(input, pos, Delimiter::MapValue);
                }
            }
            if input.len() < at_mid {
                lemma_decoding_of_cut(key_shape, entry.0, input, at_key);
            } else {
                assert(decoding(key_shape, input, at_key) == Ok::<(SpecValue, nat), SpecError>(
                    (entry.0, key.len()),
                )) by {
                    lemma_decoding_of_encoding(key_shape, entry.0, input, at_key);
                }
                lemma_cut_split(input, at_mid, mid, value + (rest + close));
                if input.len() >= at_value {
                    assert(expect(input, at_mid, Delimiter::MapKey) == Ok::<nat, SpecError>(1))
                        by {
                        lemma_token_occurs(input, at_mid, Delimiter::MapKey);
                    }
                    lemma_cut_split(input, at_value, value, rest + close);
                    if input.len() < at_rest {
                        lemma_decoding_of_cut(value_shape, entry.1, input, at_value);
                    } else {
                        assert(decoding(value_shape, input, at_value) == Ok::<
                            (SpecValue, nat),
                            SpecError,
                        >((entry.1, value.len()))) by {
                            lemma_decoding_of_encoding(value_shape, entry.1, input, at_value);
                        }
                        lemma_dict_cut(key_shape, value_shape, entries, from + 1, input, at_rest);
                    }
                }
            }
        }
    }
}

/// One field of a struct, with more bytes behind it, inside which the input
/// ends: if it ends inside the field the field is refused, else the field is
/// read whole and the input ends inside what follows.
#[verifier::rlimit(40)]
pub proof fn lemma_field_cut(
    name: Seq<char>,
    shape: Shape,
    entry: (SpecValue, SpecValue),
    input: Seq<u8>,
    pos: nat,
    first: bool,
    more: Seq<u8>,
)
    requires
        entry.0 == SpecValue::Str(name),
        encode_utf8(name).len() <= u64::MAX,
        shape.admits(entry.1),
        unambiguous(shape, entry.1),
        cut_at(input, pos, separator(first, Delimiter::MapValue) + encoding_entry(entry) + more),
    ensures
        input.len() < pos + (separator(first, Delimiter::MapValue) + encoding_entry(entry)).len()
            ==> refused(field_at(name, shape, input, pos, first)),
        input.len() >= pos + (separator(first, Delimiter::MapValue) + encoding_entry(
            entry,
        )).len() ==> {
            &&& field_at(name, shape, input, pos, first) == Ok::<
                ((SpecValue, SpecValue), nat),
                SpecError,
            >((entry, (separator(first, Delimiter::MapValue) + encoding_entry(entry)).len()))
            &&& cut_at(
                input,
                pos + (separator(first, Delimiter::MapValue) + encoding_entry(entry)).len(),
                more,
            )
        },
    decreases entry, 0nat, 0nat,
{
    let sep = separator(first, Delimiter::MapValue);
    let key = encoding(entry.0);
    let mid = token(Delimiter::MapKey);
    let value = encoding(entry.1);
    let at_key = pos + sep.len();
    let at_mid = at_key + key.len();
    let at_value = at_mid + 1;
    let at_rest = at_value + value.len();
    let step = field_at(name, shape, input, pos, first);
    assert(sep + encoding_entry(entry) + more =~= sep + (key + (mid + (value + more))));
    assert((sep + encoding_entry(entry)).len() == sep.len() + key.len() + 1 + value.len());
    lemma_cut_split(input, pos, sep, key + (mid + (value + more)));
    if input.len() < at_key {
        assert(refused(step));
    } else {
        lemma_cut_split(input, at_key, key, mid + (value + more));
        assert(separator_at(input, pos, first, Delimiter::MapValue) == Ok::<nat, SpecError>(
            sep.len(),
        )) by {
            if !first {
                lemma_token_occurs(input, pos, Delimiter::MapValue);
            }
        }
        if input.len() < at_mid {
            lemma_run_cut(input, at_key, encode_utf8(name));
            assert(refused(step));
        } else {
            assert(text_at(input, at_key) == Ok::<(Seq<char>, nat), SpecError>(
                (name, key.len()),
            )) by {
                lemma_le_bytes_len(encode_utf8(name).len(), 8);
                lemma_text_occurs(input, at_key, name);
            }
            lemma_cut_split(input, at_mid, mid, value + more);
            if input.len() < at_value {
                assert(refused(step));
            } else {
                assert(expect(input, at_mid, Delimiter::MapKey) == Ok::<nat, SpecError>(1)) by {
                    lemma_token_occurs(input, at_mid, Delimiter::MapKey);
                }
                lemma_cut_split(input, at_value, value, more);
                if input.len() < at_rest {
                    lemma_decoding_of_cut(shape, entry.1, input, at_value);
                    assert(refused(step));
                } else {
                    assert(decoding(shape, input, at_value) == Ok::<(SpecValue, nat), SpecError>(
                        (entry.1, value.len()),
                    )) by {
                        lemma_decoding_of_encoding(shape, entry.1, input, at_value);
                    }
                    assert(step == Ok::<((SpecValue, SpecValue), nat), SpecError>(
                        (entry, sep.len() + key.len() + 1 + value.len()),
                    ));
                }
            }
        }
    }
}

/// The fields of a struct from index `from` on are refused where the input
/// ends inside them or before the closing delimiter.
pub proof fn lemma_struct_cut(
    fields: Seq<(String, Shape)>,
    entries: Seq<(SpecValue, SpecValue)>,
    from: nat,
    input: Seq<u8>,
    pos: nat,
)
    requires
        from <= entries.len() == fields.len(),
        forall|i: int|
            0 <= i < entries.len() ==> {
                &&& (#[trigger] entries[i]).0 == SpecValue::Str(fields[i].0@)
                &&& encode_utf8(fields[i].0@).len() <= u64::MAX
                &&& fields[i].1.admits(entries[i].1)
                &&& unambiguous(fields[i].1, entries[i].1)
            },
        cut_at(input, pos, entries_rest(entries, from) + token(Delimiter::MapEnd)),
    ensures
        refused(struct_fields(fields, from, input, pos)),
    decreases entries, 1nat, entries.len() - from,
{
    let close = token(Delimiter::MapEnd);
    if from == entries.len() {
        assert(entries_rest(entries, from) + close =~= close);
    } else {
        let entry = entries[from as int];
        let name = fields[from as int].0@;
        let shape = fields[from as int].1;
        let head = separator(from == 0, Delimiter::MapValue) + encoding_entry(entry);
        let rest = entries_rest(entries, from + 1);
        assert(entries_rest(entries, from) + close =~= head + (rest + close));
        lemma_field_cut(name, shape, entry, input, pos, from == 0, rest + close);
        if input.len() >= pos + head.len() {
            lemma_struct_cut(fields, entries, from + 1, input, pos + head.len());
        }
    }
}

/// Truncated input: the bytes of a value, cut short anywhere, are refused
/// with `UnexpectedEOF` or `ExpectedDelimiter` when they are read as the
/// value's shape. No shortened input is taken for a value.
///
/// This holds of every value that `shape` admits and that is unambiguous
/// under `shape`.
pub proof fn theorem_truncated(shape: Shape, value: SpecValue, kept: nat)
    requires
        shape.admits(value),
        unambiguous(shape, value),
        kept < encoding(value).len(),
    ensures
        refused(decoding(shape, encoding(value).take(kept as int), 0)),
{
    let bytes = encoding(value);
    let input = bytes.take(kept as int);
    assert(input.subrange(0, input.len() as int) =~= bytes.take(input.len() - 0));
    lemma_decoding_of_cut(shape, value, input, 0);
}

/// Nested collections, cut short: the bytes of a list whose first element
/// is a list, a dictionary or an enum variant are refused wherever they are
/// cut, also where only the closing delimiter is missing.
pub proof fn theorem_nested_list_truncated(element: Shape, items: Seq<SpecValue>, kept: nat)
    requires
        Shape::List(Box::new(element)).admits(SpecValue::List(items)),
        forall|i: int| 0 <= i < items.len() ==> unambiguous(element, #[trigger] items[i]),
        items.len() > 0 ==> items[0] is List || items[0] is Dict || items[0] is Variant,
        kept < encoding(SpecValue::List(items)).len(),
    ensures
        refused(
            decoding(
                Shape::List(Box::new(element)),
                encoding(SpecValue::List(items)).take(kept as int),
                0,
            ),
        ),
{
    theorem_nested_list_round_trip(element, items);
    theorem_truncated(Shape::List(Box::new(element)), SpecValue::List(items), kept);
}

} // verus!
