//! The value model: what can be written, and the shapes that tell the
//! decoder what to read.

use vstd::prelude::*;
use vstd::slice::slice_to_vec;
use vstd::utf8::encode_utf8;

verus! {

/// A value that the codec can write and read back.
///
/// A floating-point number is held as its IEEE-754 bit pattern. A struct is a
/// [`Value::Dict`] whose keys are the field names, a tuple is a
/// [`Value::List`], and an enum variant is its index with, for every kind but
/// the unit variant, one payload: the value of a newtype variant, the list of
/// a tuple variant, the dictionary of a struct variant.
#[derive(Debug, PartialEq, Eq)]
pub enum Value {
    Bool(bool),
    I8(i8),
    I16(i16),
    I32(i32),
    I64(i64),
    U8(u8),
    U16(u16),
    U32(u32),
    U64(u64),
    F32(u32),
    F64(u64),
    Char(char),
    Str(String),
    Bytes(Vec<u8>),
    Unit,
    Opt(Option<Box<Value>>),
    List(Vec<Value>),
    Dict(Vec<(Value, Value)>),
    Variant(u32, Option<Box<Value>>),
}

/// The mathematical model of a [`Value`].
pub enum SpecValue {
    Bool(bool),
    I8(i8),
    I16(i16),
    I32(i32),
    I64(i64),
    U8(u8),
    U16(u16),
    U32(u32),
    U64(u64),
    F32(u32),
    F64(u64),
    Char(char),
    Str(Seq<char>),
    Bytes(Seq<u8>),
    Unit,
    Opt(Option<Box<SpecValue>>),
    List(Seq<SpecValue>),
    Dict(Seq<(SpecValue, SpecValue)>),
    Variant(u32, Option<Box<SpecValue>>),
}

/// What the decoder is asked to read. The stream carries no type tags, so
/// every read names its shape.
#[derive(Debug, PartialEq, Eq)]
pub enum Shape {
    Bool,
    I8,
    I16,
    I32,
    I64,
    U8,
    U16,
    U32,
    U64,
    F32,
    F64,
    Char,
    Str,
    Bytes,
    Unit,
    /// An optional value of the given shape.
    Opt(Box<Shape>),
    /// A sequence of any length whose elements share one shape.
    List(Box<Shape>),
    /// A sequence of fixed length, one shape for each position.
    Tuple(Vec<Shape>),
    /// A map of any length: the shape of the keys, then that of the values.
    Dict(Box<Shape>, Box<Shape>),
    /// Named fields in their order, each with the shape of its value.
    Struct(Vec<(String, Shape)>),
    /// The variants of an enum in their order: `None` for a unit variant,
    /// else the shape of the payload.
    Enum(Vec<Option<Shape>>),
}

impl Value {
    /// The model of this value.
    pub open spec fn model(&self) -> SpecValue
        decreases self,
    {
        match self {
            Value::Bool(b) => SpecValue::Bool(*b),
            Value::I8(x) => SpecValue::I8(*x),
            Value::I16(x) => SpecValue::I16(*x),
            Value::I32(x) => SpecValue::I32(*x),
            Value::I64(x) => SpecValue::I64(*x),
            Value::U8(x) => SpecValue::U8(*x),
            Value::U16(x) => SpecValue::U16(*x),
            Value::U32(x) => SpecValue::U32(*x),
            Value::U64(x) => SpecValue::U64(*x),
            Value::F32(bits) => SpecValue::F32(*bits),
            Value::F64(bits) => SpecValue::F64(*bits),
            Value::Char(c) => SpecValue::Char(*c),
            Value::Str(s) => SpecValue::Str(s@),
            Value::Bytes(b) => SpecValue::Bytes(b@),
            Value::Unit => SpecValue::Unit,
            Value::Opt(None) => SpecValue::Opt(None),
            Value::Opt(Some(inner)) => SpecValue::Opt(Some(Box::new(inner.model()))),
            Value::List(items) => SpecValue::List(Value::models(items@)),
            Value::Dict(entries) => SpecValue::Dict(Value::entry_models(entries@)),
            Value::Variant(index, None) => SpecValue::Variant(*index, None),
            Value::Variant(index, Some(payload)) => SpecValue::Variant(
                *index,
                Some(Box::new(payload.model())),
            ),
        }
    }

    /// The model of an optional value that has been taken out of its box.
    pub open spec fn optional(value: Option<Value>) -> SpecValue {
        match value {
            None => SpecValue::Opt(None),
            Some(inner) => SpecValue::Opt(Some(Box::new(inner@))),
        }
    }

    /// The models of the values in `items`, in their order.
    pub open spec fn models(items: Seq<Value>) -> Seq<SpecValue>
        decreases items,
    {
        if items.len() == 0 {
            Seq::empty()
        } else {
            Value::models(items.drop_last()).push(items.last().model())
        }
    }

    /// The models of the entries in `entries`, in their order.
    pub open spec fn entry_models(entries: Seq<(Value, Value)>) -> Seq<(SpecValue, SpecValue)>
        decreases entries,
    {
        if entries.len() == 0 {
            Seq::empty()
        } else {
            Value::entry_models(entries.drop_last()).push(
                (entries.last().0.model(), entries.last().1.model()),
            )
        }
    }
}

impl Clone for Value {
    /// A copy of this value, with the same model.
    fn clone(&self) -> (copy: Self)
        ensures
            copy@ == self@,
        decreases self,
    {
        match self {
            Value::Bool(v) => Value::Bool(*v),
            Value::I8(v) => Value::I8(*v),
            Value::I16(v) => Value::I16(*v),
            Value::I32(v) => Value::I32(*v),
            Value::I64(v) => Value::I64(*v),
            Value::U8(v) => Value::U8(*v),
            Value::U16(v) => Value::U16(*v),
            Value::U32(v) => Value::U32(*v),
            Value::U64(v) => Value::U64(*v),
            Value::F32(bits) => Value::F32(*bits),
            Value::F64(bits) => Value::F64(*bits),
            Value::Char(c) => Value::Char(*c),
            Value::Str(text) => Value::Str(text.clone()),
            Value::Bytes(bytes) => Value::Bytes(slice_to_vec(bytes.as_slice())),
            Value::Unit => Value::Unit,
            Value::Opt(None) => Value::Opt(None),
            Value::Opt(Some(inner)) => Value::Opt(Some(Box::new((**inner).clone()))),
            Value::List(items) => {
                let mut copies: Vec<Value> = Vec::new();
                let mut i: usize = 0;
                while i < items.len()
                    invariant
                        i <= items.len(),
                        *self matches Value::List(list) && list == *items,
                        Value::models(copies@) == Value::models(items@.take(i as int)),
                    decreases items.len() - i,
                {
                    let copy = items[i].clone();
                    proof {
                        lemma_models_push(copies@, copy);
                        lemma_models_push(items@.take(i as int), items@[i as int]);
                        assert(items@.take(i + 1) =~= items@.take(i as int).push(items@[i as int]));
                    }
                    copies.push(copy);
                    i += 1;
                }
                proof {
                    assert(items@.take(items@.len() as int) =~= items@);
                }
                Value::List(copies)
            },
            Value::Dict(entries) => {
                let mut copies: Vec<(Value, Value)> = Vec::new();
                let mut i: usize = 0;
                while i < entries.len()
                    invariant
                        i <= entries.len(),
                        *self matches Value::Dict(dict) && dict == *entries,
                        Value::entry_models(copies@) == Value::entry_models(
                            entries@.take(i as int),
                        ),
                    decreases entries.len() - i,
                {
                    let copy = (entries[i].0.clone(), entries[i].1.clone());
                    proof {
                        lemma_entry_models_push(copies@, copy);
                        lemma_entry_models_push(entries@.take(i as int), entries@[i as int]);
                        assert(entries@.take(i + 1) =~= entries@.take(i as int).push(
                            entries@[i as int],
                        ));
                    }
                    copies.push(copy);
                    i += 1;
                }
                proof {
                    assert(entries@.take(entries@.len() as int) =~= entries@);
                }
                Value::Dict(copies)
            },
            Value::Variant(index, None) => Value::Variant(*index, None),
            Value::Variant(index, Some(payload)) => Value::Variant(
                *index,
                Some(Box::new((**payload).clone())),
            ),
        }
    }
}

impl View for Value {
    type V = SpecValue;

    open spec fn view(&self) -> SpecValue {
        self.model()
    }
}

/// `models` keeps the length and maps position by position.
pub proof fn lemma_models(items: Seq<Value>)
    ensures
        Value::models(items).len() == items.len(),
        forall|i: int| 0 <= i < items.len() ==> #[trigger] Value::models(items)[i] == items[i]@,
    decreases items.len(),
{
    if items.len() > 0 {
        lemma_models(items.drop_last());
    }
}

/// `entry_models` keeps the length and maps position by position.
pub proof fn lemma_entry_models(entries: Seq<(Value, Value)>)
    ensures
        Value::entry_models(entries).len() == entries.len(),
        forall|i: int|
            0 <= i < entries.len() ==> #[trigger] Value::entry_models(entries)[i] == (
                entries[i].0@,
                entries[i].1@,
            ),
    decreases entries.len(),
{
    if entries.len() > 0 {
        lemma_entry_models(entries.drop_last());
    }
}

/// The models of a list that grew by one value.
pub proof fn lemma_models_push(items: Seq<Value>, item: Value)
    ensures
        Value::models(items.push(item)) == Value::models(items).push(item@),
{
    assert(items.push(item).drop_last() =~= items);
}

/// The models of a dictionary that grew by one entry.
pub proof fn lemma_entry_models_push(entries: Seq<(Value, Value)>, entry: (Value, Value))
    ensures
        Value::entry_models(entries.push(entry)) == Value::entry_models(entries).push(
            (entry.0@, entry.1@),
        ),
{
    assert(entries.push(entry).drop_last() =~= entries);
}

impl Shape {
    /// Whether `value` is of this shape, and small enough to be written: the
    /// bytes of a string or a buffer are counted in 64 bits.
    pub open spec fn admits(self, value: SpecValue) -> bool
        decreases value,
    {
        match (self, value) {
            (Shape::Bool, SpecValue::Bool(_)) => true,
            (Shape::I8, SpecValue::I8(_)) => true,
            (Shape::I16, SpecValue::I16(_)) => true,
            (Shape::I32, SpecValue::I32(_)) => true,
            (Shape::I64, SpecValue::I64(_)) => true,
            (Shape::U8, SpecValue::U8(_)) => true,
            (Shape::U16, SpecValue::U16(_)) => true,
            (Shape::U32, SpecValue::U32(_)) => true,
            (Shape::U64, SpecValue::U64(_)) => true,
            (Shape::F32, SpecValue::F32(_)) => true,
            (Shape::F64, SpecValue::F64(_)) => true,
            (Shape::Char, SpecValue::Char(_)) => true,
            (Shape::Str, SpecValue::Str(text)) => encode_utf8(text).len() <= u64::MAX,
            (Shape::Bytes, SpecValue::Bytes(bytes)) => bytes.len() <= u64::MAX,
            (Shape::Unit, SpecValue::Unit) => true,
            (Shape::Opt(_), SpecValue::Opt(None)) => true,
            (Shape::Opt(inner), SpecValue::Opt(Some(payload))) => inner.admits(*payload),
            (Shape::List(element), SpecValue::List(items)) => forall|i: int|
                0 <= i < items.len() ==> element.admits(#[trigger] items[i]),
            (Shape::Tuple(shapes), SpecValue::List(items)) => {
                &&& items.len() == shapes@.len()
                &&& forall|i: int|
                    0 <= i < items.len() ==> shapes@[i].admits(#[trigger] items[i])
            },
            (Shape::Dict(key, value), SpecValue::Dict(entries)) => forall|i: int|
                0 <= i < entries.len() ==> key.admits((#[trigger] entries[i]).0) && value.admits(
                    entries[i].1,
                ),
            (Shape::Struct(fields), SpecValue::Dict(entries)) => {
                &&& entries.len() == fields@.len()
                &&& forall|i: int|
                    0 <= i < entries.len() ==> {
                        &&& (#[trigger] entries[i]).0 == SpecValue::Str(fields@[i].0@)
                        &&& encode_utf8(fields@[i].0@).len() <= u64::MAX
                        &&& fields@[i].1.admits(entries[i].1)
                    }
            },
            (Shape::Enum(variants), SpecValue::Variant(index, payload)) => {
                &&& index < variants@.len()
                &&& match (variants@[index as int], payload) {
                    (None, None) => true,
                    (Some(shape), Some(inner)) => shape.admits(*inner),
                    _ => false,
                }
            },
            _ => false,
        }
    }
}

} // verus!
