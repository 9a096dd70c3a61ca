//! The encoder: it walks a value depth first and appends its bytes to one
//! growing buffer.

use vstd::prelude::*;
use vstd::slice::slice_subrange;
use super::error::Error;
use super::error::SpecError;
use super::format::encoding;
use super::format::encoding_entries;
use super::format::encoding_entry;
use super::format::encoding_items;
use super::format::lemma_encoding_entries_push;
use super::format::lemma_encoding_items_push;
use super::format::length_prefixed;
use super::format::separator;
use super::format::token;
use super::value::lemma_entry_models;
use super::value::lemma_models;
use super::value::SpecValue;
use super::value::Value;
use super::wire::lemma_pow256_values;
use super::wire::to_unsigned;
use super::wire::write_le;

pub use super::token::Delimiter;

verus! {

/// The encoder's state: the bytes written so far.
#[derive(Debug)]
pub struct MinimalSerializer {
    data: Vec<u8>,
}

impl View for MinimalSerializer {
    type V = Seq<u8>;

    /// The bytes written so far.
    closed spec fn view(&self) -> Seq<u8> {
        self.data@
    }
}

/// Writes `value` and returns its bytes.
///
/// Every value can be written, so the result is always `Ok`.
pub fn to_bytes(value: &Value) -> (result: Result<Vec<u8>, Error>)
    ensures
        result matches Ok(bytes) && bytes@ == encoding(value@),
{
    let mut serializer = MinimalSerializer::new();
    serializer.serialize(value);
    Ok(serializer.into_bytes())
}

impl MinimalSerializer {
    /// An encoder that has written nothing.
    pub fn new() -> (serializer: Self)
        ensures
            serializer@ == Seq::<u8>::empty(),
    {
        MinimalSerializer { data: Vec::new() }
    }

    /// Hands out the bytes written.
    pub fn into_bytes(self) -> (bytes: Vec<u8>)
        ensures
            bytes@ == self@,
    {
        self.data
    }

    /// The last byte written, or `NoByte` if nothing has been written.
    pub fn peek_byte(&self) -> (result: Result<&u8, Error>)
        ensures
            self@.len() == 0 ==> (result matches Err(e) && e@ == SpecError::NoByte),
            self@.len() > 0 ==> (result matches Ok(byte) && *byte == self@.last()),
    {
        let len = self.data.len();
        if len == 0 {
            Err(Error::NoByte)
        } else {
            Ok(&self.data[len - 1])
        }
    }

    /// The last `n` bytes written, or `NLargerThanLength` if there are fewer.
    pub fn peek_bytes(&self, n: usize) -> (result: Result<&[u8], Error>)
        ensures
            n > self@.len() ==> (result matches Err(e) && e@ == SpecError::NLargerThanLength(
                n,
                self@.len() as usize,
            )),
            n <= self@.len() ==> (result matches Ok(bytes) && bytes@ == self@.subrange(
                self@.len() - n,
                self@.len() as int,
            )),
    {
        let len = self.data.len();
        if len < n {
            return Err(Error::NLargerThanLength(n, len));
        }
        Ok(slice_subrange(self.data.as_slice(), len - n, len))
    }

    /// The byte that stands `n` places from the end, the last byte being at
    /// place 1. With fewer than `n` bytes the result is `NLargerThanLength`,
    /// and place 0 holds no byte.
    pub fn peek_nth_byte(&self, n: usize) -> (result: Result<&u8, Error>)
        ensures
            n > self@.len() ==> (result matches Err(e) && e@ == SpecError::NLargerThanLength(
                n,
                self@.len() as usize,
            )),
            n == 0 ==> (result matches Err(e) && e@ == SpecError::NoByte),
            0 < n <= self@.len() ==> (result matches Ok(byte) && *byte == self@[self@.len() - n]),
    {
        let nth_bytes = self.peek_bytes(n)?;
        if n == 0 {
            return Err(Error::NoByte);
        }
        Ok(&nth_bytes[0])
    }

    /// Whether the last byte written is the byte of `token`.
    pub fn peek_token(&self, token: Delimiter) -> (found: bool)
        ensures
            found == (self@.len() > 0 && self@.last() == token.pattern()),
    {
        let len = self.data.len();
        len > 0 && self.data[len - 1] == token.byte()
    }

    /// Appends the byte of `token`.
    pub fn serialize_token(&mut self, token: Delimiter)
        ensures
            final(self)@ == old(self)@ + self::token(token),
    {
        self.data.push(token.byte());
        assert(self.data@ =~= old(self).data@ + self::token(token));
    }

    /// Appends one byte: 1 for `true`, 0 for `false`.
    pub fn serialize_bool(&mut self, v: bool)
        ensures
            final(self)@ == old(self)@ + encoding(SpecValue::Bool(v)),
    {
        self.data.push(if v { 1 } else { 0 });
        assert(self.data@ =~= old(self).data@ + encoding(SpecValue::Bool(v)));
    }

    /// Appends a signed integer of one byte.
    pub fn serialize_i8(&mut self, v: i8)
        ensures
            final(self)@ == old(self)@ + encoding(SpecValue::I8(v)),
    {
        proof {
            lemma_pow256_values();
        }
        write_le(&mut self.data, to_unsigned(v as i64, 1), 1);
    }

    /// Appends a signed integer of two bytes in two's complement, least
    /// significant byte first.
    pub fn serialize_i16(&mut self, v: i16)
        ensures
            final(self)@ == old(self)@ + encoding(SpecValue::I16(v)),
    {
        proof {
            lemma_pow256_values();
        }
        write_le(&mut self.data, to_unsigned(v as i64, 2), 2);
    }

    /// Appends a signed integer of four bytes in two's complement, least
    /// significant byte first.
    pub fn serialize_i32(&mut self, v: i32)
        ensures
            final(self)@ == old(self)@ + encoding(SpecValue::I32(v)),
    {
        proof {
            lemma_pow256_values();
        }
        write_le(&mut self.data, to_unsigned(v as i64, 4), 4);
    }

    /// Appends a signed integer of eight bytes in two's complement, least
    /// significant byte first.
    pub fn serialize_i64(&mut self, v: i64)
        ensures
            final(self)@ == old(self)@ + encoding(SpecValue::I64(v)),
    {
        proof {
            lemma_pow256_values();
        }
        write_le(&mut self.data, to_unsigned(v, 8), 8);
    }

    /// Appends one byte.
    pub fn serialize_u8(&mut self, v: u8)
        ensures
            final(self)@ == old(self)@ + encoding(SpecValue::U8(v)),
    {
        write_le(&mut self.data, v as u64, 1);
    }

    /// Appends an unsigned integer of two bytes, least significant byte first.
    pub fn serialize_u16(&mut self, v: u16)
        ensures
            final(self)@ == old(self)@ + encoding(SpecValue::U16(v)),
    {
        write_le(&mut self.data, v as u64, 2);
    }

    /// Appends an unsigned integer of four bytes, least significant byte first.
    pub fn serialize_u32(&mut self, v: u32)
        ensures
            final(self)@ == old(self)@ + encoding(SpecValue::U32(v)),
    {
        write_le(&mut self.data, v as u64, 4);
    }

    /// Appends an unsigned integer of eight bytes, least significant byte
    /// first.
    pub fn serialize_u64(&mut self, v: u64)
        ensures
            final(self)@ == old(self)@ + encoding(SpecValue::U64(v)),
    {
        write_le(&mut self.data, v, 8);
    }

    /// Appends a 32-bit floating-point number, given as its bit pattern.
    pub fn serialize_f32(&mut self, bits: u32)
        ensures
            final(self)@ == old(self)@ + encoding(SpecValue::F32(bits)),
    {
        write_le(&mut self.data, bits as u64, 4);
    }

    /// Appends a 64-bit floating-point number, given as its bit pattern.
    pub fn serialize_f64(&mut self, bits: u64)
        ensures
            final(self)@ == old(self)@ + encoding(SpecValue::F64(bits)),
    {
        write_le(&mut self.data, bits, 8);
    }

    /// Appends a character as its scalar value in four bytes.
    pub fn serialize_char(&mut self, v: char)
        ensures
            final(self)@ == old(self)@ + encoding(SpecValue::Char(v)),
    {
        write_le(&mut self.data, v as u32 as u64, 4);
    }

    /// Appends the number of a string's UTF-8 bytes, then the bytes.
    pub fn serialize_str(&mut self, v: &str)
        ensures
            final(self)@ == old(self)@ + encoding(SpecValue::Str(v@)),
    {
        self.serialize_bytes(v.as_bytes());
    }

    /// Appends the number of the bytes, then the bytes.
    pub fn serialize_bytes(&mut self, v: &[u8])
        ensures
            final(self)@ == old(self)@ + encoding(SpecValue::Bytes(v@)),
    {
        write_le(&mut self.data, v.len() as u64, 8);
        self.data.extend_from_slice(v);
        assert(self.data@ =~= old(self).data@ + length_prefixed(v@));
    }

    /// Appends the unit delimiter.
    pub fn serialize_unit(&mut self)
        ensures
            final(self)@ == old(self)@ + encoding(SpecValue::Unit),
    {
        self.serialize_token(Delimiter::Unit);
    }

    /// Appends an absent optional value: the unit delimiter.
    pub fn serialize_none(&mut self)
        ensures
            final(self)@ == old(self)@ + encoding(SpecValue::Opt(None)),
    {
        self.serialize_token(Delimiter::Unit);
    }

    /// Appends a present optional value: the value itself.
    pub fn serialize_some(&mut self, value: &Value)
        ensures
            final(self)@ == old(self)@ + encoding(SpecValue::Opt(Some(Box::new(value@)))),
        decreases value, 1nat,
    {
        self.serialize(value);
    }

    /// Appends a variant without payload: the enum delimiter and the index.
    pub fn serialize_unit_variant(&mut self, variant_index: u32)
        ensures
            final(self)@ == old(self)@ + encoding(SpecValue::Variant(variant_index, None)),
    {
        self.serialize_token(Delimiter::Enum);
        self.serialize_u32(variant_index);
        assert(self@ =~= old(self)@ + encoding(SpecValue::Variant(variant_index, None)));
    }

    /// Appends a variant with its payload: the enum delimiter, the index and
    /// the payload.
    pub fn serialize_newtype_variant(&mut self, variant_index: u32, value: &Value)
        ensures
            final(self)@ == old(self)@ + encoding(
                SpecValue::Variant(variant_index, Some(Box::new(value@))),
            ),
        decreases value, 1nat,
    {
        self.serialize_token(Delimiter::Enum);
        self.serialize_u32(variant_index);
        self.serialize(value);
        assert(self@ =~= old(self)@ + encoding(
            SpecValue::Variant(variant_index, Some(Box::new(value@))),
        ));
    }

    /// Opens a sequence.
    pub fn serialize_seq(&mut self)
        ensures
            final(self)@ == old(self)@ + token(Delimiter::SeqStart),
    {
        self.serialize_token(Delimiter::SeqStart);
    }

    /// Appends one element of a sequence, behind a value delimiter unless it
    /// is the first.
    ///
    /// The caller says whether the element is the first. The last byte
    /// written cannot tell: the element before may itself end in the byte
    /// that opens a sequence.
    pub fn serialize_element(&mut self, first: bool, value: &Value)
        ensures
            final(self)@ == old(self)@ + separator(first, Delimiter::SeqValue) + encoding(value@),
        decreases value, 1nat,
    {
        if !first {
            self.serialize_token(Delimiter::SeqValue);
        }
        assert(self@ =~= old(self)@ + separator(first, Delimiter::SeqValue));
        self.serialize(value);
    }

    /// Closes a sequence.
    pub fn end_seq(&mut self)
        ensures
            final(self)@ == old(self)@ + token(Delimiter::SeqEnd),
    {
        self.serialize_token(Delimiter::SeqEnd);
    }

    /// Opens a map.
    pub fn serialize_map(&mut self)
        ensures
            final(self)@ == old(self)@ + token(Delimiter::MapStart),
    {
        self.serialize_token(Delimiter::MapStart);
    }

    /// Appends the key of one entry and the key delimiter, behind a value
    /// delimiter unless the entry is the first.
    pub fn serialize_key(&mut self, first: bool, key: &Value)
        ensures
            final(self)@ == old(self)@ + separator(first, Delimiter::MapValue) + encoding(key@)
                + token(Delimiter::MapKey),
        decreases key, 1nat,
    {
        if !first {
            self.serialize_token(Delimiter::MapValue);
        }
        assert(self@ =~= old(self)@ + separator(first, Delimiter::MapValue));
        self.serialize(key);
        self.serialize_token(Delimiter::MapKey);
    }

    /// Appends the value of one entry.
    pub fn serialize_value(&mut self, value: &Value)
        ensures
            final(self)@ == old(self)@ + encoding(value@),
        decreases value, 1nat,
    {
        self.serialize(value);
    }

    /// Appends one field of a struct: an entry whose key is the field's name.
    pub fn serialize_field(&mut self, first: bool, key: &str, value: &Value)
        ensures
            final(self)@ == old(self)@ + separator(first, Delimiter::MapValue) + encoding_entry(
                (SpecValue::Str(key@), value@),
            ),
        decreases value, 1nat,
    {
        if !first {
            self.serialize_token(Delimiter::MapValue);
        }
        assert(self@ =~= old(self)@ + separator(first, Delimiter::MapValue));
        self.serialize_str(key);
        self.serialize_token(Delimiter::MapKey);
        self.serialize(value);
        assert(self@ =~= old(self)@ + separator(first, Delimiter::MapValue) + encoding_entry(
            (SpecValue::Str(key@), value@),
        ));
    }

    /// Closes a map.
    pub fn end_map(&mut self)
        ensures
            final(self)@ == old(self)@ + token(Delimiter::MapEnd),
    {
        self.serialize_token(Delimiter::MapEnd);
    }

    /// Appends the bytes of `value`.
    pub fn serialize(&mut self, value: &Value)
        ensures
            final(self)@ == old(self)@ + encoding(value@),
        decreases value, 0nat,
    {
        match value {
            Value::Bool(v) => self.serialize_bool(*v),
            Value::I8(v) => self.serialize_i8(*v),
            Value::I16(v) => self.serialize_i16(*v),
            Value::I32(v) => self.serialize_i32(*v),
            Value::I64(v) => self.serialize_i64(*v),
            Value::U8(v) => self.serialize_u8(*v),
            Value::U16(v) => self.serialize_u16(*v),
            Value::U32(v) => self.serialize_u32(*v),
            Value::U64(v) => self.serialize_u64(*v),
            Value::F32(bits) => self.serialize_f32(*bits),
            Value::F64(bits) => self.serialize_f64(*bits),
            Value::Char(v) => self.serialize_char(*v),
            Value::Str(v) => self.serialize_str(v.as_str()),
            Value::Bytes(v) => self.serialize_bytes(v.as_slice()),
            Value::Unit => self.serialize_unit(),
            Value::Opt(None) => self.serialize_none(),
            Value::Opt(Some(inner)) => self.serialize_some(inner),
            Value::List(items) => {
                self.serialize_seq();
                let ghost opened = self@;
                let ghost models = Value::models(items@);
                let mut i: usize = 0;
                proof {
                    lemma_models(items@);
                    assert(models.take(0) =~= Seq::<SpecValue>::empty());
                    assert(self@ =~= opened + encoding_items(models.take(0)));
                }
                while i < items.len()
                    invariant
                        i <= items.len(),
                        *value matches Value::List(list) && list == *items,
                        models == Value::models(items@),
                        models.len() == items@.len(),
                        forall|k: int| 0 <= k < items@.len() ==> #[trigger] models[k] == items@[k]@,
                        self@ == opened + encoding_items(models.take(i as int)),
                    decreases items.len() - i,
                {
                    let ghost before = self@;
                    self.serialize_element(i == 0, &items[i]);
                    proof {
                        let done = models.take(i as int);
                        assert(models.take(i + 1) =~= done.push(models[i as int]));
                        lemma_encoding_items_push(done, models[i as int]);
                        assert(self@ =~= opened + encoding_items(models.take(i + 1)));
                    }
                    i += 1;
                }
                self.end_seq();
                proof {
                    assert(models.take(items@.len() as int) =~= models);
                    assert(self@ =~= old(self)@ + encoding(value@));
                }
            },
            Value::Dict(entries) => {
                self.serialize_map();
                let ghost opened = self@;
                let ghost models = Value::entry_models(entries@);
                let mut i: usize = 0;
                proof {
                    lemma_entry_models(entries@);
                    assert(models.take(0) =~= Seq::<(SpecValue, SpecValue)>::empty());
                    assert(self@ =~= opened + encoding_entries(models.take(0)));
                }
                while i < entries.len()
                    invariant
                        i <= entries.len(),
                        *value matches Value::Dict(dict) && dict == *entries,
                        models == Value::entry_models(entries@),
                        models.len() == entries@.len(),
                        forall|k: int|
                            0 <= k < entries@.len() ==> #[trigger] models[k] == (
                                entries@[k].0@,
                                entries@[k].1@,
                            ),
                        self@ == opened + encoding_entries(models.take(i as int)),
                    decreases entries.len() - i,
                {
                    self.serialize_key(i == 0, &entries[i].0);
                    self.serialize_value(&entries[i].1);
                    proof {
                        let done = models.take(i as int);
                        assert(models.take(i + 1) =~= done.push(models[i as int]));
                        lemma_encoding_entries_push(done, models[i as int]);
                        assert(self@ =~= opened + encoding_entries(models.take(i + 1)));
                    }
                    i += 1;
                }
                self.end_map();
                proof {
                    assert(models.take(entries@.len() as int) =~= models);
                    assert(self@ =~= old(self)@ + encoding(value@));
                }
            },
            Value::Variant(index, None) => self.serialize_unit_variant(*index),
            Value::Variant(index, Some(payload)) => self.serialize_newtype_variant(
                *index,
                payload,
            ),
        }
    }
}

} // verus!
