//! The decoder: a cursor over the caller's bytes. The bytes carry no type
//! tags, so every read names the shape that it expects.

use vstd::prelude::*;
use vstd::slice::slice_subrange;
use vstd::slice::slice_to_vec;
use vstd::utf8::decode_utf8;
use vstd::utf8::is_scalar;
use vstd::utf8::valid_utf8;
use super::error::Error;
use super::error::SpecError;
use super::format::bool_at;
use super::format::char_at;
use super::format::decoding;
use super::format::dict_entries;
use super::format::encoding;
use super::format::expect;
use super::format::field_at;
use super::format::list_items;
use super::format::next_item;
use super::format::next_key;
use super::format::prepend;
use super::format::remaining;
use super::format::run_at;
use super::format::separator_at;
use super::format::signed_at;
use super::format::step_at;
use super::format::struct_fields;
use super::format::token_at;
use super::format::tuple_items;
use super::format::unsigned_at;
use super::format::variant_at;
use super::soundness::theorem_reads_what_stands;
use super::format::valid_width;
use super::token::Delimiter;
use super::value::lemma_entry_models;
use super::value::lemma_entry_models_push;
use super::value::lemma_models;
use super::value::lemma_models_push;
use super::value::Shape;
use super::value::SpecValue;
use super::value::Value;
use super::wire::fits_signed;
use super::wire::lemma_le_value_bound;
use super::wire::lemma_pow256_values;
use super::wire::pow256;
use super::wire::read_le;
use super::wire::to_signed;

verus! {

/// The character with the given scalar value, if there is one.
///
/// Calls `char::from_u32` of the standard library, which gives a character
/// for every Unicode scalar value and `None` for every other number.
#[verifier::external_body]
fn char_from_u32(code: u32) -> (result: Option<char>)
    ensures
        result is Some <==> is_scalar(code),
        result is Some ==> result->Some_0 == code as char,
{
    char::from_u32(code)
}

/// The string that the bytes spell in UTF-8, if they are UTF-8.
///
/// Calls `String::from_utf8` of the standard library, which gives the string
/// of exactly these bytes if they are valid UTF-8, and an error otherwise.
#[verifier::external_body]
fn string_from_utf8(bytes: Vec<u8>) -> (result: Option<String>)
    ensures
        result is Some <==> valid_utf8(bytes@),
        result is Some ==> result->Some_0@ == decode_utf8(bytes@),
{
    match String::from_utf8(bytes) {
        Ok(text) => Some(text),
        Err(_) => None,
    }
}

/// The decoder's state: the input, which it borrows and never copies, and
/// the position of the next byte to read.
#[derive(Debug)]
pub struct CustomDeserializer<'de> {
    data: &'de [u8],
    pos: usize,
}

impl<'de> CustomDeserializer<'de> {
    #[verifier::type_invariant]
    spec fn in_bounds(self) -> bool {
        self.pos <= self.data@.len()
    }

    /// The whole input.
    pub closed spec fn buffer(&self) -> Seq<u8> {
        self.data@
    }

    /// The position of the next byte to read.
    pub closed spec fn cursor(&self) -> nat {
        self.pos as nat
    }

    /// The position of the next byte to read. It never passes the end of the
    /// input.
    pub fn position(&self) -> (pos: usize)
        ensures
            pos == self.cursor(),
            pos <= self.buffer().len(),
    {
        proof {
            use_type_invariant(self);
        }
        self.pos
    }

    /// Puts the cursor back to `to`, a position that it held before.
    fn rewind(&mut self, to: usize)
        requires
            to <= old(self).buffer().len(),
        ensures
            final(self).buffer() == old(self).buffer(),
            final(self).cursor() == to,
    {
        self.pos = to;
    }

    /// A decoder at the start of `bytes`.
    pub fn new(bytes: &'de [u8]) -> (deserializer: Self)
        ensures
            deserializer.buffer() == bytes@,
            deserializer.cursor() == 0,
    {
        CustomDeserializer { data: bytes, pos: 0 }
    }

    /// The next byte, which stays where it is.
    pub fn peek_byte(&self) -> (result: Result<u8, Error>)
        ensures
            self.cursor() < self.buffer().len() ==> result == Ok::<u8, Error>(
                self.buffer()[self.cursor() as int],
            ),
            self.cursor() >= self.buffer().len() ==> (result matches Err(e) && e@
                == SpecError::UnexpectedEOF),
    {
        if self.pos < self.data.len() {
            Ok(self.data[self.pos])
        } else {
            Err(Error::UnexpectedEOF)
        }
    }

    /// Whether the next byte is that of `token`. Nothing is read. At the end
    /// of the input the answer is no.
    pub fn peek_token(&self, token: Delimiter) -> (found: bool)
        ensures
            found == token_at(self.buffer(), self.cursor(), token),
    {
        self.pos < self.data.len() && self.data[self.pos] == token.byte()
    }

    /// Reads the next byte.
    pub fn eat_byte(&mut self) -> (result: Result<u8, Error>)
        ensures
            final(self).buffer() == old(self).buffer(),
            old(self).cursor() < old(self).buffer().len() ==> result == Ok::<u8, Error>(
                old(self).buffer()[old(self).cursor() as int],
            ) && final(self).cursor() == old(self).cursor() + 1,
            old(self).cursor() >= old(self).buffer().len() ==> (result matches Err(e) && e@
                == SpecError::UnexpectedEOF) && final(self).cursor() == old(self).cursor(),
    {
        if self.pos < self.data.len() {
            let byte = self.data[self.pos];
            self.pos = self.pos + 1;
            Ok(byte)
        } else {
            Err(Error::UnexpectedEOF)
        }
    }

    /// Reads the next `n` bytes.
    pub fn eat_bytes(&mut self, n: usize) -> (result: Result<Vec<u8>, Error>)
        ensures
            final(self).buffer() == old(self).buffer(),
            n <= remaining(old(self).buffer(), old(self).cursor()) ==> (result matches Ok(bytes)
                && bytes@ == old(self).buffer().subrange(
                old(self).cursor() as int,
                old(self).cursor() + n,
            )) && final(self).cursor() == old(self).cursor() + n,
            n > remaining(old(self).buffer(), old(self).cursor()) ==> (result matches Err(e) && e@
                == SpecError::UnexpectedEOF) && final(self).cursor() == old(self).cursor(),
    {
        proof {
            use_type_invariant(&*self);
        }
        if n > self.data.len() - self.pos {
            return Err(Error::UnexpectedEOF);
        }
        let bytes = slice_to_vec(slice_subrange(self.data, self.pos, self.pos + n));
        self.pos = self.pos + n;
        Ok(bytes)
    }

    /// Reads `token`, which must be the next byte.
    pub fn eat_token(&mut self, token: Delimiter) -> (result: Result<(), Error>)
        ensures
            final(self).buffer() == old(self).buffer(),
            match expect(old(self).buffer(), old(self).cursor(), token) {
                Ok(n) => result is Ok && final(self).cursor() == old(self).cursor() + n,
                Err(e) => {
                    &&& result matches Err(err)
                    &&& err@ == e
                    &&& final(self).cursor() == old(self).cursor()
                },
            },
    {
        if self.pos >= self.data.len() {
            Err(Error::UnexpectedEOF)
        } else if self.data[self.pos] != token.byte() {
            Err(Error::ExpectedDelimiter(token))
        } else {
            self.pos = self.pos + 1;
            Ok(())
        }
    }

    /// Reads a boolean: one byte, 0 or 1.
    pub fn parse_bool(&mut self) -> (result: Result<bool, Error>)
        ensures
            final(self).buffer() == old(self).buffer(),
            match bool_at(old(self).buffer(), old(self).cursor()) {
                Ok(b) => {
                    &&& result == Ok::<bool, Error>(b)
                    &&& final(self).cursor() == old(self).cursor() + 1
                },
                Err(e) => {
                    &&& result matches Err(err)
                    &&& err@ == e
                    &&& final(self).cursor() == old(self).cursor()
                },
            },
    {
        if self.pos >= self.data.len() {
            Err(Error::UnexpectedEOF)
        } else if self.data[self.pos] == 0 {
            self.pos = self.pos + 1;
            Ok(false)
        } else if self.data[self.pos] == 1 {
            self.pos = self.pos + 1;
            Ok(true)
        } else {
            Err(Error::ConversionError)
        }
    }

    /// Reads an unsigned integer of `width` bytes, least significant first.
    /// The width must be 1, 2, 4 or 8.
    pub fn parse_unsigned(&mut self, width: usize) -> (result: Result<u64, Error>)
        ensures
            final(self).buffer() == old(self).buffer(),
            match unsigned_at(old(self).buffer(), old(self).cursor(), width as nat) {
                Ok(n) => result == Ok::<u64, Error>(n as u64) && n < pow256(width as nat)
                    && valid_width(width as nat) && final(self).cursor() == old(self).cursor()
                    + width,
                Err(e) => {
                    &&& result matches Err(err)
                    &&& err@ == e
                    &&& final(self).cursor() == old(self).cursor()
                },
            },
    {
        proof {
            use_type_invariant(&*self);
        }
        if self.data.len() - self.pos < width {
            return Err(Error::UnexpectedEOF);
        }
        if width != 1 && width != 2 && width != 4 && width != 8 {
            return Err(Error::InvalidTypeSize);
        }
        let value = read_le(self.data, self.pos, width);
        proof {
            lemma_le_value_bound(self.data@.subrange(self.pos as int, self.pos + width));
            lemma_pow256_values();
        }
        self.pos = self.pos + width;
        Ok(value)
    }

    /// Reads a signed integer of `width` bytes in two's complement. The width
    /// must be 1, 2, 4 or 8.
    pub fn parse_signed(&mut self, width: usize) -> (result: Result<i64, Error>)
        ensures
            final(self).buffer() == old(self).buffer(),
            match signed_at(old(self).buffer(), old(self).cursor(), width as nat) {
                Ok(x) => result == Ok::<i64, Error>(x as i64) && fits_signed(x, width as nat)
                    && valid_width(width as nat) && final(self).cursor() == old(self).cursor()
                    + width,
                Err(e) => {
                    &&& result matches Err(err)
                    &&& err@ == e
                    &&& final(self).cursor() == old(self).cursor()
                },
            },
    {
        let ghost start = self.pos;
        match self.parse_unsigned(width) {
            Err(e) => Err(e),
            Ok(n) => {
                proof {
                    lemma_le_value_bound(self.data@.subrange(start as int, start + width));
                    lemma_pow256_values();
                }
                Ok(to_signed(n, width))
            },
        }
    }

    /// Reads a 32-bit floating-point number and returns its bit pattern.
    pub fn parse_f32(&mut self) -> (result: Result<u32, Error>)
        ensures
            final(self).buffer() == old(self).buffer(),
            match unsigned_at(old(self).buffer(), old(self).cursor(), 4) {
                Ok(n) => {
                    &&& result == Ok::<u32, Error>(n as u32)
                    &&& n <= u32::MAX
                    &&& final(self).cursor() == old(self).cursor() + 4
                },
                Err(e) => {
                    &&& result matches Err(err)
                    &&& err@ == e
                    &&& final(self).cursor() == old(self).cursor()
                },
            },
    {
        let ghost start = self.pos;
        match self.parse_unsigned(4) {
            Err(e) => Err(e),
            Ok(n) => {
                proof {
                    lemma_le_value_bound(self.data@.subrange(start as int, start + 4));
                    lemma_pow256_values();
                }
                Ok(n as u32)
            },
        }
    }

    /// Reads a 64-bit floating-point number and returns its bit pattern.
    pub fn parse_f64(&mut self) -> (result: Result<u64, Error>)
        ensures
            final(self).buffer() == old(self).buffer(),
            match unsigned_at(old(self).buffer(), old(self).cursor(), 8) {
                Ok(n) => {
                    &&& result == Ok::<u64, Error>(n as u64)
                    &&& n <= u64::MAX
                    &&& final(self).cursor() == old(self).cursor() + 8
                },
                Err(e) => {
                    &&& result matches Err(err)
                    &&& err@ == e
                    &&& final(self).cursor() == old(self).cursor()
                },
            },
    {
        proof {
            lemma_pow256_values();
        }
        self.parse_unsigned(8)
    }

    /// Reads a character: four bytes that hold a Unicode scalar value.
    pub fn parse_char(&mut self) -> (result: Result<char, Error>)
        ensures
            final(self).buffer() == old(self).buffer(),
            match char_at(old(self).buffer(), old(self).cursor()) {
                Ok(c) => {
                    &&& result == Ok::<char, Error>(c)
                    &&& final(self).cursor() == old(self).cursor() + 4
                },
                Err(e) => {
                    &&& result matches Err(err)
                    &&& err@ == e
                    &&& final(self).cursor() == old(self).cursor()
                },
            },
    {
        let start = self.position();
        match self.parse_f32() {
            Err(e) => Err(e),
            Ok(code) => match char_from_u32(code) {
                Some(c) => Ok(c),
                None => {
                    self.pos = start;
                    Err(Error::InvalidCharCode(code))
                },
            },
        }
    }

    /// Reads the head of an enum variant: the enum delimiter and the index,
    /// which must be below `count`, the number of variants that the enum has.
    pub fn parse_variant(&mut self, count: usize) -> (result: Result<u32, Error>)
        ensures
            final(self).buffer() == old(self).buffer(),
            match variant_at(old(self).buffer(), old(self).cursor(), count as nat) {
                Ok((index, n)) => {
                    &&& result == Ok::<u32, Error>(index)
                    &&& final(self).cursor() == old(self).cursor() + n
                },
                Err(e) => {
                    &&& result matches Err(err)
                    &&& err@ == e
                    &&& final(self).cursor() == old(self).cursor()
                },
            },
    {
        proof {
            lemma_pow256_values();
        }
        let start = self.position();
        match self.eat_token(Delimiter::Enum) {
            Err(e) => { return Err(e); },
            Ok(()) => {},
        }
        let index = match self.parse_unsigned(4) {
            Err(e) => {
                self.pos = start;
                return Err(e);
            },
            Ok(index) => index,
        };
        if index >= count as u64 {
            self.pos = start;
            return Err(Error::UnknownVariantIndex(index as u32));
        }
        Ok(index as u32)
    }

    /// Reads the separator before an element of a collection: nothing before
    /// the first, `token` before every other.
    pub fn eat_separator(&mut self, first: bool, token: Delimiter) -> (result: Result<(), Error>)
        ensures
            final(self).buffer() == old(self).buffer(),
            match separator_at(old(self).buffer(), old(self).cursor(), first, token) {
                Ok(n) => result is Ok && final(self).cursor() == old(self).cursor() + n,
                Err(e) => {
                    &&& result matches Err(err)
                    &&& err@ == e
                    &&& final(self).cursor() == old(self).cursor()
                },
            },
    {
        if first {
            Ok(())
        } else {
            self.eat_token(token)
        }
    }

    /// Looks for the next element of a sequence: `false` if the delimiter
    /// that closes a sequence comes next, which stays unread; else `true`, after the value
    /// delimiter has been read, which must stand before every element but
    /// the first.
    pub fn seq_step(&mut self, first: bool) -> (result: Result<bool, Error>)
        ensures
            final(self).buffer() == old(self).buffer(),
            match step_at(
                old(self).buffer(),
                old(self).cursor(),
                first,
                Delimiter::SeqEnd,
                Delimiter::SeqValue,
            ) {
                Ok(None) => {
                    &&& result == Ok::<bool, Error>(false)
                    &&& final(self).cursor() == old(self).cursor()
                },
                Ok(Some(n)) => {
                    &&& result == Ok::<bool, Error>(true)
                    &&& final(self).cursor() == old(self).cursor() + n
                },
                Err(e) => {
                    &&& result matches Err(err)
                    &&& err@ == e
                    &&& final(self).cursor() == old(self).cursor()
                },
            },
    {
        if self.peek_token(Delimiter::SeqEnd) {
            return Ok(false);
        }
        match self.eat_separator(first, Delimiter::SeqValue) {
            Err(e) => Err(e),
            Ok(()) => Ok(true),
        }
    }

    /// Looks for the next entry of a map: `false` if the delimiter that
    /// closes a map comes next, which stays unread; else `true`, after the value delimiter has
    /// been read, which must stand before every entry but the first.
    pub fn map_step(&mut self, first: bool) -> (result: Result<bool, Error>)
        ensures
            final(self).buffer() == old(self).buffer(),
            match step_at(
                old(self).buffer(),
                old(self).cursor(),
                first,
                Delimiter::MapEnd,
                Delimiter::MapValue,
            ) {
                Ok(None) => {
                    &&& result == Ok::<bool, Error>(false)
                    &&& final(self).cursor() == old(self).cursor()
                },
                Ok(Some(n)) => {
                    &&& result == Ok::<bool, Error>(true)
                    &&& final(self).cursor() == old(self).cursor() + n
                },
                Err(e) => {
                    &&& result matches Err(err)
                    &&& err@ == e
                    &&& final(self).cursor() == old(self).cursor()
                },
            },
    {
        if self.peek_token(Delimiter::MapEnd) {
            return Ok(false);
        }
        match self.eat_separator(first, Delimiter::MapValue) {
            Err(e) => Err(e),
            Ok(()) => Ok(true),
        }
    }

    /// Reads a run of bytes behind its length and appends it to `bytes`.
    /// Where the read fails nothing is read and nothing is appended.
    pub fn parse_bytes(&mut self, bytes: &mut Vec<u8>) -> (result: Result<(), Error>)
        ensures
            final(self).buffer() == old(self).buffer(),
            match run_at(old(self).buffer(), old(self).cursor()) {
                Ok((run, n)) => {
                    &&& result is Ok
                    &&& final(bytes)@ == old(bytes)@ + run
                    &&& final(self).cursor() == old(self).cursor() + n
                },
                Err(e) => {
                    &&& result matches Err(err)
                    &&& err@ == e
                    &&& final(bytes)@ == old(bytes)@
                    &&& final(self).cursor() == old(self).cursor()
                },
            },
    {
        let start = self.position();
        let len = match self.parse_unsigned(8) {
            Err(e) => { return Err(e); },
            Ok(len) => len,
        };
        proof {
            use_type_invariant(&*self);
            lemma_pow256_values();
        }
        if len > (self.data.len() - self.pos) as u64 {
            self.rewind(start);
            return Err(Error::UnexpectedEOF);
        }
        let end = self.pos + len as usize;
        bytes.extend_from_slice(slice_subrange(self.data, self.pos, end));
        self.pos = end;
        Ok(())
    }

    /// Reads a string: a run of bytes behind its length, appended to `bytes`,
    /// all of which must then be UTF-8. The decoder itself calls this with an
    /// empty `bytes`. Where the read fails nothing is read and nothing is
    /// appended.
    pub fn parse_str(&mut self, bytes: &mut Vec<u8>) -> (result: Result<String, Error>)
        ensures
            final(self).buffer() == old(self).buffer(),
            match run_at(old(self).buffer(), old(self).cursor()) {
                Ok((run, n)) => if valid_utf8(old(bytes)@ + run) {
                    &&& result matches Ok(text)
                    &&& text@ == decode_utf8(old(bytes)@ + run)
                    &&& final(bytes)@ == old(bytes)@ + run
                    &&& final(self).cursor() == old(self).cursor() + n
                } else {
                    &&& result matches Err(err)
                    &&& err@ == SpecError::InvalidUtf8
                    &&& final(bytes)@ == old(bytes)@
                    &&& final(self).cursor() == old(self).cursor()
                },
                Err(e) => {
                    &&& result matches Err(err)
                    &&& err@ == e
                    &&& final(bytes)@ == old(bytes)@
                    &&& final(self).cursor() == old(self).cursor()
                },
            },
    {
        let start = self.position();
        let kept = bytes.len();
        match self.parse_bytes(bytes) {
            Err(e) => Err(e),
            Ok(()) => match string_from_utf8(slice_to_vec(bytes.as_slice())) {
                Some(text) => Ok(text),
                None => {
                    bytes.truncate(kept);
                    self.rewind(start);
                    proof {
                        assert(bytes@ =~= old(bytes)@);
                    }
                    Err(Error::InvalidUtf8)
                },
            },
        }
    }
}

/// Reads `bytes` from their start as a value of the given shape.
///
/// The shape drives the read, since the bytes carry no type tags. Bytes that
/// follow the value are left unread. A value that is read is of the shape
/// that was asked for, and `bytes` begin with the bytes of that value.
pub fn from_bytes(bytes: &[u8], shape: &Shape) -> (result: Result<Value, Error>)
    ensures
        match decoding(*shape, bytes@, 0) {
            Ok((value, n)) => result matches Ok(read) && read@ == value,
            Err(e) => result matches Err(err) && err@ == e,
        },
        result matches Ok(read) ==> {
            &&& shape.admits(read@)
            &&& encoding(read@).len() <= bytes@.len()
            &&& bytes@.take(encoding(read@).len() as int) == encoding(read@)
        },
{
    proof {
        theorem_reads_what_stands(*shape, bytes@);
    }
    let mut deserializer = CustomDeserializer::new(bytes);
    deserializer.deserialize(shape)
}

impl<'de> CustomDeserializer<'de> {
    /// Refuses: a value of unknown shape cannot be read from a stream that
    /// does not describe itself.
    pub fn deserialize_any(&mut self) -> (result: Result<Value, Error>)
        ensures
            *final(self) == *old(self),
            result matches Err(e) && e@ == SpecError::UnsupportedCall("deserialize_any"@),
    {
        Err(Error::UnsupportedCall("deserialize_any".to_owned()))
    }

    /// Refuses: a value of unknown shape cannot be skipped either.
    pub fn deserialize_ignored_any(&mut self) -> (result: Result<Value, Error>)
        ensures
            *final(self) == *old(self),
            result matches Err(e) && e@ == SpecError::UnsupportedCall("deserialize_ignored_any"@),
    {
        Err(Error::UnsupportedCall("deserialize_ignored_any".to_owned()))
    }

    /// Reads the unit value: the unit delimiter.
    pub fn deserialize_unit(&mut self) -> (result: Result<(), Error>)
        ensures
            final(self).buffer() == old(self).buffer(),
            match expect(old(self).buffer(), old(self).cursor(), Delimiter::Unit) {
                Ok(n) => result is Ok && final(self).cursor() == old(self).cursor() + n,
                Err(e) => {
                    &&& result matches Err(err)
                    &&& err@ == e
                    &&& final(self).cursor() == old(self).cursor()
                },
            },
    {
        self.eat_token(Delimiter::Unit)
    }

    /// Reads an optional value: absent if the unit delimiter comes next, else
    /// present and of the inner shape. Where the read fails nothing is read.
    pub fn deserialize_option(&mut self, inner: &Shape) -> (result: Result<Option<Value>, Error>)
        ensures
            final(self).buffer() == old(self).buffer(),
            match decoding(Shape::Opt(Box::new(*inner)), old(self).buffer(), old(self).cursor()) {
                Ok((value, n)) => {
                    &&& result matches Ok(read)
                    &&& Value::optional(read) == value
                    &&& final(self).cursor() == old(self).cursor() + n
                },
                Err(e) => {
                    &&& result matches Err(err)
                    &&& err@ == e
                    &&& final(self).cursor() == old(self).cursor()
                },
            },
        decreases inner, 9nat,
    {
        if self.peek_token(Delimiter::Unit) {
            match self.eat_token(Delimiter::Unit) {
                Err(e) => Err(e),
                Ok(()) => Ok(None),
            }
        } else {
            match self.deserialize(inner) {
                Err(e) => Err(e),
                Ok(value) => Ok(Some(value)),
            }
        }
    }

    /// Reads a list: the elements between the delimiter that opens a sequence
    /// and the one that closes it. Where the read fails nothing is read.
    pub fn deserialize_seq(&mut self, element: &Shape) -> (result: Result<Vec<Value>, Error>)
        ensures
            final(self).buffer() == old(self).buffer(),
            match decoding(
                Shape::List(Box::new(*element)),
                old(self).buffer(),
                old(self).cursor(),
            ) {
                Ok((value, n)) => {
                    &&& result matches Ok(items)
                    &&& SpecValue::List(Value::models(items@)) == value
                    &&& final(self).cursor() == old(self).cursor() + n
                },
                Err(e) => {
                    &&& result matches Err(err)
                    &&& err@ == e
                    &&& final(self).cursor() == old(self).cursor()
                },
            },
        decreases element, 9nat,
    {
        let start = self.position();
        match self.eat_token(Delimiter::SeqStart) {
            Err(e) => { return Err(e); },
            Ok(()) => {},
        }
        let mut access = SequenceDeserializer::new(self);
        let items = match access.collect(element) {
            Err(e) => {
                self.rewind(start);
                return Err(e);
            },
            Ok(items) => items,
        };
        match self.eat_token(Delimiter::SeqEnd) {
            Err(e) => {
                self.rewind(start);
                Err(e)
            },
            Ok(()) => Ok(items),
        }
    }

    /// Reads a tuple: one element for each of `shapes`, between the delimiter
    /// that opens a sequence and the one that closes it. Where the read fails
    /// nothing is read.
    #[verifier::loop_isolation(false)]
    pub fn deserialize_tuple(&mut self, shapes: &Vec<Shape>) -> (result: Result<Vec<Value>, Error>)
        ensures
            final(self).buffer() == old(self).buffer(),
            match decoding(Shape::Tuple(*shapes), old(self).buffer(), old(self).cursor()) {
                Ok((value, n)) => {
                    &&& result matches Ok(items)
                    &&& SpecValue::List(Value::models(items@)) == value
                    &&& final(self).cursor() == old(self).cursor() + n
                },
                Err(e) => {
                    &&& result matches Err(err)
                    &&& err@ == e
                    &&& final(self).cursor() == old(self).cursor()
                },
            },
        decreases shapes, 9nat,
    {
        let ghost input = self.buffer();
        let opened = self.position();
        match self.eat_token(Delimiter::SeqStart) {
            Err(e) => { return Err(e); },
            Ok(()) => {},
        }
        let ghost start = self.cursor();
        let ghost whole = tuple_items(shapes@, 0, input, start);
        let mut items: Vec<Value> = Vec::new();
        let mut i: usize = 0;
        proof {
            assert(Value::models(items@) =~= Seq::<SpecValue>::empty());
            if let Ok((rest, n)) = whole {
                assert(Value::models(items@) + rest =~= rest);
            }
        }
        while i < shapes.len()
            invariant
                i <= shapes.len(),
                self.buffer() == input,
                self.cursor() >= start,
                whole == prepend(
                    Value::models(items@),
                    (self.cursor() - start) as nat,
                    tuple_items(shapes@, i as nat, input, self.cursor()),
                ),
            decreases shapes.len() - i,
        {
            let ghost done = Value::models(items@);
            match self.eat_separator(i == 0, Delimiter::SeqValue) {
                Err(e) => {
                    self.rewind(opened);
                    return Err(e);
                },
                Ok(()) => {},
            }
            match self.deserialize(&shapes[i]) {
                Err(e) => {
                    self.rewind(opened);
                    return Err(e);
                },
                Ok(value) => {
                    proof {
                        lemma_models_push(items@, value);
                        let then = tuple_items(shapes@, (i + 1) as nat, input, self.cursor());
                        if let Ok((rest, m)) = then {
                            assert((done + (seq![value@] + rest)) =~= (done.push(value@) + rest));
                        }
                    }
                    items.push(value);
                },
            }
            i += 1;
        }
        match self.eat_token(Delimiter::SeqEnd) {
            Err(e) => {
                self.rewind(opened);
                Err(e)
            },
            Ok(()) => {
                proof {
                    assert(Value::models(items@) + Seq::<SpecValue>::empty() =~= Value::models(
                        items@,
                    ));
                }
                Ok(items)
            },
        }
    }

    /// Reads a dictionary: the entries between the delimiter that opens a map
    /// and the one that closes it. Where the read fails nothing is read.
    pub fn deserialize_map(&mut self, key: &Shape, value: &Shape) -> (result: Result<
        Vec<(Value, Value)>,
        Error,
    >)
        ensures
            final(self).buffer() == old(self).buffer(),
            match decoding(
                Shape::Dict(Box::new(*key), Box::new(*value)),
                old(self).buffer(),
                old(self).cursor(),
            ) {
                Ok((dict, n)) => {
                    &&& result matches Ok(entries)
                    &&& SpecValue::Dict(Value::entry_models(entries@)) == dict
                    &&& final(self).cursor() == old(self).cursor() + n
                },
                Err(e) => {
                    &&& result matches Err(err)
                    &&& err@ == e
                    &&& final(self).cursor() == old(self).cursor()
                },
            },
        decreases Shape::Dict(Box::new(*key), Box::new(*value)), 4nat,
    {
        let start = self.position();
        match self.eat_token(Delimiter::MapStart) {
            Err(e) => { return Err(e); },
            Ok(()) => {},
        }
        let mut access = MapDeserializer::new(self);
        let entries = match access.collect(key, value) {
            Err(e) => {
                self.rewind(start);
                return Err(e);
            },
            Ok(entries) => entries,
        };
        match self.eat_token(Delimiter::MapEnd) {
            Err(e) => {
                self.rewind(start);
                Err(e)
            },
            Ok(()) => Ok(entries),
        }
    }

    /// Reads one field of a struct: the separator, unless the field is the
    /// first, the key, which must be `name`, the key delimiter and the value.
    /// Where the read fails nothing is read.
    pub fn deserialize_field(&mut self, first: bool, name: &String, shape: &Shape) -> (result:
        Result<(Value, Value), Error>)
        ensures
            final(self).buffer() == old(self).buffer(),
            match field_at(name@, *shape, old(self).buffer(), old(self).cursor(), first) {
                Ok((entry, n)) => {
                    &&& result matches Ok(read)
                    &&& (read.0@, read.1@) == entry
                    &&& final(self).cursor() == old(self).cursor() + n
                },
                Err(e) => {
                    &&& result matches Err(err)
                    &&& err@ == e
                    &&& final(self).cursor() == old(self).cursor()
                },
            },
        decreases shape, 8nat,
    {
        let start = self.position();
        match self.eat_separator(first, Delimiter::MapValue) {
            Err(e) => { return Err(e); },
            Ok(()) => {},
        }
        let mut scratch: Vec<u8> = Vec::new();
        let key = match self.parse_str(&mut scratch) {
            Err(e) => {
                self.rewind(start);
                return Err(e);
            },
            Ok(key) => key,
        };
        if key != *name {
            self.rewind(start);
            return Err(Error::DeserializationError(name.clone()));
        }
        match self.eat_token(Delimiter::MapKey) {
            Err(e) => {
                self.rewind(start);
                return Err(e);
            },
            Ok(()) => {},
        }
        match self.deserialize(shape) {
            Err(e) => {
                self.rewind(start);
                Err(e)
            },
            Ok(value) => Ok((Value::Str(key), value)),
        }
    }

    /// Reads a struct: one entry for each of `fields`, keyed by the field's
    /// name, between the delimiter that opens a map and the one that closes
    /// it. Where the read fails nothing is read.
    pub fn deserialize_struct(&mut self, fields: &Vec<(String, Shape)>) -> (result: Result<
        Vec<(Value, Value)>,
        Error,
    >)
        ensures
            final(self).buffer() == old(self).buffer(),
            match decoding(Shape::Struct(*fields), old(self).buffer(), old(self).cursor()) {
                Ok((dict, n)) => {
                    &&& result matches Ok(entries)
                    &&& SpecValue::Dict(Value::entry_models(entries@)) == dict
                    &&& final(self).cursor() == old(self).cursor() + n
                },
                Err(e) => {
                    &&& result matches Err(err)
                    &&& err@ == e
                    &&& final(self).cursor() == old(self).cursor()
                },
            },
        decreases fields, 9nat,
    {
        let ghost input = self.buffer();
        let opened = self.position();
        match self.eat_token(Delimiter::MapStart) {
            Err(e) => { return Err(e); },
            Ok(()) => {},
        }
        let ghost start = self.cursor();
        let ghost whole = struct_fields(fields@, 0, input, start);
        let mut entries: Vec<(Value, Value)> = Vec::new();
        let mut i: usize = 0;
        proof {
            assert(Value::entry_models(entries@) =~= Seq::<(SpecValue, SpecValue)>::empty());
            if let Ok((rest, n)) = whole {
                assert(Value::entry_models(entries@) + rest =~= rest);
            }
        }
        while i < fields.len()
            invariant
                i <= fields.len(),
                input == old(self).buffer(),
                opened == old(self).cursor(),
                opened <= input.len(),
                expect(input, old(self).cursor(), Delimiter::MapStart) == Ok::<nat, SpecError>(1),
                start == old(self).cursor() + 1,
                whole == struct_fields(fields@, 0, input, start),
                self.buffer() == input,
                self.cursor() >= start,
                whole == prepend(
                    Value::entry_models(entries@),
                    (self.cursor() - start) as nat,
                    struct_fields(fields@, i as nat, input, self.cursor()),
                ),
            decreases fields.len() - i,
        {
            let ghost done = Value::entry_models(entries@);
            match self.deserialize_field(i == 0, &fields[i].0, &fields[i].1) {
                Err(e) => {
                    self.rewind(opened);
                    return Err(e);
                },
                Ok(entry) => {
                    proof {
                        lemma_entry_models_push(entries@, entry);
                        let then = struct_fields(fields@, (i + 1) as nat, input, self.cursor());
                        let model = (entry.0@, entry.1@);
                        if let Ok((rest, m)) = then {
                            assert((done + (seq![model] + rest)) =~= (done.push(model) + rest));
                        }
                    }
                    entries.push(entry);
                },
            }
            i += 1;
        }
        match self.eat_token(Delimiter::MapEnd) {
            Err(e) => {
                self.rewind(opened);
                Err(e)
            },
            Ok(()) => {
                proof {
                    assert(Value::entry_models(entries@) + Seq::<(SpecValue, SpecValue)>::empty()
                        =~= Value::entry_models(entries@));
                }
                Ok(entries)
            },
        }
    }

    /// Reads an enum variant: the enum delimiter, the index, which must be
    /// that of one of `variants`, and the payload that this variant has.
    /// Where the read fails nothing is read.
    pub fn deserialize_enum(&mut self, variants: &Vec<Option<Shape>>) -> (result: Result<
        Value,
        Error,
    >)
        ensures
            final(self).buffer() == old(self).buffer(),
            match decoding(Shape::Enum(*variants), old(self).buffer(), old(self).cursor()) {
                Ok((value, n)) => {
                    &&& result matches Ok(read)
                    &&& read@ == value
                    &&& final(self).cursor() == old(self).cursor() + n
                },
                Err(e) => {
                    &&& result matches Err(err)
                    &&& err@ == e
                    &&& final(self).cursor() == old(self).cursor()
                },
            },
        decreases variants, 9nat,
    {
        let start = self.position();
        let index = match self.parse_variant(variants.len()) {
            Err(e) => { return Err(e); },
            Ok(index) => index,
        };
        match &variants[index as usize] {
            None => Ok(Value::Variant(index, None)),
            Some(payload) => match self.deserialize(payload) {
                Err(e) => {
                    self.rewind(start);
                    Err(e)
                },
                Ok(value) => Ok(Value::Variant(index, Some(Box::new(value)))),
            },
        }
    }

    /// Reads a value of the given shape. Where the read fails nothing is
    /// read: the cursor stands where it stood.
    pub fn deserialize(&mut self, shape: &Shape) -> (result: Result<Value, Error>)
        ensures
            final(self).buffer() == old(self).buffer(),
            match decoding(*shape, old(self).buffer(), old(self).cursor()) {
                Ok((value, n)) => {
                    &&& result matches Ok(read)
                    &&& read@ == value
                    &&& final(self).cursor() == old(self).cursor() + n
                },
                Err(e) => {
                    &&& result matches Err(err)
                    &&& err@ == e
                    &&& final(self).cursor() == old(self).cursor()
                },
            },
        decreases shape, 5nat,
    {
        proof {
            lemma_pow256_values();
        }
        match shape {
            Shape::Bool => match self.parse_bool() {
                Err(e) => Err(e),
                Ok(v) => Ok(Value::Bool(v)),
            },
            Shape::I8 => match self.parse_signed(1) {
                Err(e) => Err(e),
                Ok(v) => Ok(Value::I8(v as i8)),
            },
            Shape::I16 => match self.parse_signed(2) {
                Err(e) => Err(e),
                Ok(v) => Ok(Value::I16(v as i16)),
            },
            Shape::I32 => match self.parse_signed(4) {
                Err(e) => Err(e),
                Ok(v) => Ok(Value::I32(v as i32)),
            },
            Shape::I64 => match self.parse_signed(8) {
                Err(e) => Err(e),
                Ok(v) => Ok(Value::I64(v)),
            },
            Shape::U8 => match self.parse_unsigned(1) {
                Err(e) => Err(e),
                Ok(v) => Ok(Value::U8(v as u8)),
            },
            Shape::U16 => match self.parse_unsigned(2) {
                Err(e) => Err(e),
                Ok(v) => Ok(Value::U16(v as u16)),
            },
            Shape::U32 => match self.parse_unsigned(4) {
                Err(e) => Err(e),
                Ok(v) => Ok(Value::U32(v as u32)),
            },
            Shape::U64 => match self.parse_unsigned(8) {
                Err(e) => Err(e),
                Ok(v) => Ok(Value::U64(v)),
            },
            Shape::F32 => match self.parse_f32() {
                Err(e) => Err(e),
                Ok(bits) => Ok(Value::F32(bits)),
            },
            Shape::F64 => match self.parse_f64() {
                Err(e) => Err(e),
                Ok(bits) => Ok(Value::F64(bits)),
            },
            Shape::Char => match self.parse_char() {
                Err(e) => Err(e),
                Ok(c) => Ok(Value::Char(c)),
            },
            Shape::Str => {
                let mut bytes: Vec<u8> = Vec::new();
                match self.parse_str(&mut bytes) {
                    Err(e) => Err(e),
                    Ok(text) => Ok(Value::Str(text)),
                }
            },
            Shape::Bytes => {
                let mut bytes: Vec<u8> = Vec::new();
                match self.parse_bytes(&mut bytes) {
                    Err(e) => Err(e),
                    Ok(()) => Ok(Value::Bytes(bytes)),
                }
            },
            Shape::Unit => match self.deserialize_unit() {
                Err(e) => Err(e),
                Ok(()) => Ok(Value::Unit),
            },
            Shape::Opt(inner) => match self.deserialize_option(inner) {
                Err(e) => Err(e),
                Ok(None) => Ok(Value::Opt(None)),
                Ok(Some(value)) => Ok(Value::Opt(Some(Box::new(value)))),
            },
            Shape::List(element) => match self.deserialize_seq(element) {
                Err(e) => Err(e),
                Ok(items) => Ok(Value::List(items)),
            },
            Shape::Tuple(shapes) => match self.deserialize_tuple(shapes) {
                Err(e) => Err(e),
                Ok(items) => Ok(Value::List(items)),
            },
            Shape::Dict(key, value) => match self.deserialize_map(key, value) {
                Err(e) => Err(e),
                Ok(entries) => Ok(Value::Dict(entries)),
            },
            Shape::Struct(fields) => match self.deserialize_struct(fields) {
                Err(e) => Err(e),
                Ok(entries) => Ok(Value::Dict(entries)),
            },
            Shape::Enum(variants) => self.deserialize_enum(variants),
        }
    }
}

/// The pull at a list: it hands out one element at a time until the list
/// ends.
pub struct SequenceDeserializer<'a, 'de: 'a> {
    /// The decoder that the elements are read from.
    pub deserializer: &'a mut CustomDeserializer<'de>,
    /// Whether no element has been asked for yet.
    pub first: bool,
}

impl<'a, 'de> SequenceDeserializer<'a, 'de> {
    /// A pull at the list whose opening delimiter `deserializer` has just
    /// read.
    pub fn new(deserializer: &'a mut CustomDeserializer<'de>) -> (access: Self)
        ensures
            access.first,
            *access.deserializer == *old(deserializer),
            *final(access.deserializer) == *final(deserializer),
    {
        SequenceDeserializer { deserializer, first: true }
    }

    /// Reads the next element, or finds that the list ends here. The closing
    /// delimiter is left unread.
    ///
    /// Where the read fails nothing is read. Once an element has been asked
    /// for, whether it was read or not, the pull is no longer at the first.
    pub fn next_element(&mut self, element: &Shape) -> (result: Result<Option<Value>, Error>)
        ensures
            final(self).deserializer.buffer() == old(self).deserializer.buffer(),
            *final(final(self).deserializer) == *final(old(self).deserializer),
            match next_item(
                *element,
                old(self).deserializer.buffer(),
                old(self).deserializer.cursor(),
                old(self).first,
            ) {
                Ok(None) => {
                    &&& result matches Ok(None)
                    &&& final(self).deserializer.cursor() == old(self).deserializer.cursor()
                    &&& final(self).first == old(self).first
                },
                Ok(Some((value, n))) => {
                    &&& result matches Ok(Some(read))
                    &&& read@ == value
                    &&& final(self).deserializer.cursor() == old(self).deserializer.cursor() + n
                    &&& !final(self).first
                },
                Err(e) => {
                    &&& result matches Err(err)
                    &&& err@ == e
                    &&& final(self).deserializer.cursor() == old(self).deserializer.cursor()
                    &&& !final(self).first
                },
            },
        decreases element, 6nat,
    {
        let start = self.deserializer.position();
        match self.deserializer.seq_step(self.first) {
            Err(e) => { return Err(e); },
            Ok(false) => { return Ok(None); },
            Ok(true) => {},
        }
        self.first = false;
        match self.deserializer.deserialize(element) {
            Err(e) => {
                self.deserializer.rewind(start);
                Err(e)
            },
            Ok(value) => Ok(Some(value)),
        }
    }

    /// Reads the elements that are left, up to the closing delimiter, which
    /// is left unread. Where the read fails nothing is read.
    pub fn collect(&mut self, element: &Shape) -> (result: Result<Vec<Value>, Error>)
        ensures
            final(self).deserializer.buffer() == old(self).deserializer.buffer(),
            *final(final(self).deserializer) == *final(old(self).deserializer),
            match list_items(
                *element,
                old(self).deserializer.buffer(),
                old(self).deserializer.cursor(),
                old(self).first,
            ) {
                Ok((items, n)) => {
                    &&& result matches Ok(read)
                    &&& Value::models(read@) == items
                    &&& final(self).deserializer.cursor() + 1 == old(self).deserializer.cursor() + n
                    &&& token_at(
                        final(self).deserializer.buffer(),
                        final(self).deserializer.cursor(),
                        Delimiter::SeqEnd,
                    )
                    &&& final(self).first == (old(self).first && items.len() == 0)
                },
                Err(e) => {
                    &&& result matches Err(err)
                    &&& err@ == e
                    &&& final(self).deserializer.cursor() == old(self).deserializer.cursor()
                    &&& !final(self).first
                },
            },
        decreases element, 7nat,
    {
        let ghost input = self.deserializer.buffer();
        let ghost start = self.deserializer.cursor();
        let ghost whole = list_items(*element, input, start, self.first);
        let began = self.deserializer.position();
        let mut items: Vec<Value> = Vec::new();
        proof {
            assert(Value::models(items@) =~= Seq::<SpecValue>::empty());
            let then = list_items(*element, input, start, self.first);
            assert(prepend(Value::models(items@), 0, then) == whole) by {
                if let Ok((rest, n)) = then {
                    assert(Value::models(items@) + rest =~= rest);
                }
            }
        }
        loop
            invariant
                input == old(self).deserializer.buffer(),
                start == old(self).deserializer.cursor(),
                began == start,
                began <= input.len(),
                self.deserializer.buffer() == input,
                *final(self.deserializer) == *final(old(self).deserializer),
                self.deserializer.cursor() >= start,
                self.first == (old(self).first && items@.len() == 0),
                whole == list_items(*element, input, start, old(self).first),
                whole == prepend(
                    Value::models(items@),
                    (self.deserializer.cursor() - start) as nat,
                    list_items(*element, input, self.deserializer.cursor(), self.first),
                ),
            decreases
                remaining(input, self.deserializer.cursor()),
                if self.first { 1nat } else { 0nat },
        {
            let ghost done = Value::models(items@);
            proof {
                use_type_invariant(&*self.deserializer);
            }
            match self.next_element(element) {
                Err(e) => {
                    self.deserializer.rewind(began);
                    return Err(e);
                },
                Ok(None) => {
                    proof {
                        lemma_models(items@);
                        assert(Value::models(items@) + Seq::<SpecValue>::empty()
                            =~= Value::models(items@));
                    }
                    return Ok(items);
                },
                Ok(Some(value)) => {
                    proof {
                        use_type_invariant(&*self.deserializer);
                        lemma_models_push(items@, value);
                        let after = self.deserializer.cursor();
                        let then = list_items(*element, input, after, false);
                        if let Ok((rest, m)) = then {
                            assert((done + (seq![value@] + rest)) =~= (done.push(value@) + rest));
                        }
                    }
                    items.push(value);
                },
            }
        }
    }
}

/// The pull at a dictionary: it hands out one key, then its value, until the
/// dictionary ends.
pub struct MapDeserializer<'a, 'de: 'a> {
    /// The decoder that the entries are read from.
    pub deserializer: &'a mut CustomDeserializer<'de>,
    /// Whether no key has been asked for yet.
    pub first: bool,
}

impl<'a, 'de> MapDeserializer<'a, 'de> {
    /// A pull at the dictionary whose opening delimiter `deserializer` has
    /// just read.
    pub fn new(deserializer: &'a mut CustomDeserializer<'de>) -> (access: Self)
        ensures
            access.first,
            *access.deserializer == *old(deserializer),
            *final(access.deserializer) == *final(deserializer),
    {
        MapDeserializer { deserializer, first: true }
    }

    /// Reads the next key and the key delimiter behind it, or finds that the
    /// dictionary ends here. The closing delimiter is left unread.
    ///
    /// Where the read fails nothing is read. Once a key has been asked for,
    /// whether it was read or not, the pull is no longer at the first.
    pub fn next_key(&mut self, key: &Shape) -> (result: Result<Option<Value>, Error>)
        ensures
            final(self).deserializer.buffer() == old(self).deserializer.buffer(),
            *final(final(self).deserializer) == *final(old(self).deserializer),
            match self::next_key(
                *key,
                old(self).deserializer.buffer(),
                old(self).deserializer.cursor(),
                old(self).first,
            ) {
                Ok(None) => {
                    &&& result matches Ok(None)
                    &&& final(self).deserializer.cursor() == old(self).deserializer.cursor()
                    &&& final(self).first == old(self).first
                },
                Ok(Some((value, n))) => {
                    &&& result matches Ok(Some(read))
                    &&& read@ == value
                    &&& final(self).deserializer.cursor() == old(self).deserializer.cursor() + n
                    &&& !final(self).first
                },
                Err(e) => {
                    &&& result matches Err(err)
                    &&& err@ == e
                    &&& final(self).deserializer.cursor() == old(self).deserializer.cursor()
                    &&& !final(self).first
                },
            },
        decreases key, 6nat,
    {
        let start = self.deserializer.position();
        match self.deserializer.map_step(self.first) {
            Err(e) => { return Err(e); },
            Ok(false) => { return Ok(None); },
            Ok(true) => {},
        }
        self.first = false;
        let key = match self.deserializer.deserialize(key) {
            Err(e) => {
                self.deserializer.rewind(start);
                return Err(e);
            },
            Ok(key) => key,
        };
        match self.deserializer.eat_token(Delimiter::MapKey) {
            Err(e) => {
                self.deserializer.rewind(start);
                Err(e)
            },
            Ok(()) => Ok(Some(key)),
        }
    }

    /// Reads the value of the entry whose key has just been read. Where the
    /// read fails nothing is read.
    pub fn next_value(&mut self, value: &Shape) -> (result: Result<Value, Error>)
        ensures
            final(self).deserializer.buffer() == old(self).deserializer.buffer(),
            *final(final(self).deserializer) == *final(old(self).deserializer),
            final(self).first == old(self).first,
            match decoding(
                *value,
                old(self).deserializer.buffer(),
                old(self).deserializer.cursor(),
            ) {
                Ok((model, n)) => {
                    &&& result matches Ok(read)
                    &&& read@ == model
                    &&& final(self).deserializer.cursor() == old(self).deserializer.cursor() + n
                },
                Err(e) => {
                    &&& result matches Err(err)
                    &&& err@ == e
                    &&& final(self).deserializer.cursor() == old(self).deserializer.cursor()
                },
            },
        decreases value, 6nat,
    {
        self.deserializer.deserialize(value)
    }

    /// Reads the entries that are left, up to the closing delimiter, which is
    /// left unread. Where the read fails nothing is read.
    pub fn collect(&mut self, key: &Shape, value: &Shape) -> (result: Result<
        Vec<(Value, Value)>,
        Error,
    >)
        ensures
            final(self).deserializer.buffer() == old(self).deserializer.buffer(),
            *final(final(self).deserializer) == *final(old(self).deserializer),
            match dict_entries(
                *key,
                *value,
                old(self).deserializer.buffer(),
                old(self).deserializer.cursor(),
                old(self).first,
            ) {
                Ok((entries, n)) => {
                    &&& result matches Ok(read)
                    &&& Value::entry_models(read@) == entries
                    &&& final(self).deserializer.cursor() + 1 == old(self).deserializer.cursor() + n
                    &&& token_at(
                        final(self).deserializer.buffer(),
                        final(self).deserializer.cursor(),
                        Delimiter::MapEnd,
                    )
                    &&& final(self).first == (old(self).first && entries.len() == 0)
                },
                Err(e) => {
                    &&& result matches Err(err)
                    &&& err@ == e
                    &&& final(self).deserializer.cursor() == old(self).deserializer.cursor()
                    &&& !final(self).first
                },
            },
        decreases Shape::Dict(Box::new(*key), Box::new(*value)), 3nat,
    {
        let ghost input = self.deserializer.buffer();
        let ghost start = self.deserializer.cursor();
        let ghost whole = dict_entries(*key, *value, input, start, self.first);
        let began = self.deserializer.position();
        let mut entries: Vec<(Value, Value)> = Vec::new();
        proof {
            assert(Value::entry_models(entries@) =~= Seq::<(SpecValue, SpecValue)>::empty());
            if let Ok((rest, n)) = whole {
                assert(Value::entry_models(entries@) + rest =~= rest);
            }
            let shape = Shape::Dict(Box::new(*key), Box::new(*value));
            assert(decreases_to!(shape => *shape->Dict_0));
            assert(decreases_to!(shape => *shape->Dict_1));
        }
        loop
            invariant
                input == old(self).deserializer.buffer(),
                start == old(self).deserializer.cursor(),
                began == start,
                began <= input.len(),
                self.deserializer.buffer() == input,
                *final(self.deserializer) == *final(old(self).deserializer),
                self.deserializer.cursor() >= start,
                self.first == (old(self).first && entries@.len() == 0),
                whole == dict_entries(*key, *value, input, start, old(self).first),
                whole == prepend(
                    Value::entry_models(entries@),
                    (self.deserializer.cursor() - start) as nat,
                    dict_entries(*key, *value, input, self.deserializer.cursor(), self.first),
                ),
                decreases_to!(Shape::Dict(Box::new(*key), Box::new(*value)) => *key),
                decreases_to!(Shape::Dict(Box::new(*key), Box::new(*value)) => *value),
            decreases
                remaining(input, self.deserializer.cursor()),
                if self.first { 1nat } else { 0nat },
        {
            let ghost done = Value::entry_models(entries@);
            let ghost here = self.deserializer.cursor();
            let ghost was_first = self.first;
            proof {
                use_type_invariant(&*self.deserializer);
            }
            let entry_key = match self.next_key(key) {
                Err(e) => {
                    self.deserializer.rewind(began);
                    return Err(e);
                },
                Ok(None) => {
                    proof {
                        lemma_entry_models(entries@);
                        assert(Value::entry_models(entries@) + Seq::<
                            (SpecValue, SpecValue),
                        >::empty() =~= Value::entry_models(entries@));
                    }
                    return Ok(entries);
                },
                Ok(Some(entry_key)) => entry_key,
            };
            let entry_value = match self.next_value(value) {
                Err(e) => {
                    self.deserializer.rewind(began);
                    return Err(e);
                },
                Ok(entry_value) => entry_value,
            };
            let entry = (entry_key, entry_value);
            proof {
                use_type_invariant(&*self.deserializer);
                lemma_entry_models_push(entries@, entry);
                let model = (entry.0@, entry.1@);
                let then = dict_entries(*key, *value, input, self.deserializer.cursor(), false);
                assert(dict_entries(*key, *value, input, here, was_first) == prepend(
                    seq![model],
                    (self.deserializer.cursor() - here) as nat,
                    then,
                ));
                if let Ok((rest, m)) = then {
                    assert((done + (seq![model] + rest)) =~= (done.push(model) + rest));
                }
            }
            entries.push(entry);
        }
    }
}

} // verus!
