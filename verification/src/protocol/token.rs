//! The delimiter vocabulary: the bytes that mark structure in the stream.

use vstd::prelude::*;

verus! {

/// Marks a string: `"`. The codec writes a string behind its length and
/// needs no mark for it; the delimiter is part of the vocabulary for callers
/// that frame text themselves.
pub const STRING_DELIMITER: u8 = 0x22;

/// Marks a byte buffer: `#`. The codec writes a byte buffer behind its
/// length and needs no mark for it.
pub const BYTE_DELIMITER: u8 = 0x23;

/// Stands for the unit value and for an absent optional value.
pub const UNIT: u8 = 0x05;

/// Announces an enum variant; its index follows.
pub const ENUM_DELIMITER: u8 = 0x95;

/// Opens a sequence: `&`.
pub const SEQ_DELIMITER: u8 = 0x26;

/// Closes a sequence: `)`.
pub const SEQ_END_DELIMITER: u8 = 0x29;

/// Stands between two elements of a sequence: `.`.
pub const SEQ_VALUE_DELIMITER: u8 = 0x2E;

/// Opens a map: `:`.
pub const MAP_DELIMITER: u8 = 0x3A;

/// Closes a map: `>`.
pub const MAP_END_DELIMITER: u8 = 0x3E;

/// Stands between a key and its value: `;`.
pub const MAP_KEY_DELIMITER: u8 = 0x3B;

/// Stands between two entries of a map: `<`.
pub const MAP_VALUE_DELIMITER: u8 = 0x3C;

/// The closed set of delimiters. Each one is a single byte on the wire.
///
/// A sequence and a map close with a byte of their own, so that a collection
/// that stands first in another is not taken for the end of the outer one.
#[derive(Debug, Clone, Copy, PartialEq, Eq, Structural)]
pub enum Delimiter {
    String,
    Byte,
    Unit,
    Enum,
    SeqStart,
    SeqEnd,
    SeqValue,
    MapStart,
    MapEnd,
    MapKey,
    MapValue,
}

impl Delimiter {
    /// The byte that stands for this delimiter.
    pub open spec fn pattern(self) -> u8 {
        match self {
            Delimiter::String => STRING_DELIMITER,
            Delimiter::Byte => BYTE_DELIMITER,
            Delimiter::Unit => UNIT,
            Delimiter::Enum => ENUM_DELIMITER,
            Delimiter::SeqStart => SEQ_DELIMITER,
            Delimiter::SeqEnd => SEQ_END_DELIMITER,
            Delimiter::SeqValue => SEQ_VALUE_DELIMITER,
            Delimiter::MapStart => MAP_DELIMITER,
            Delimiter::MapEnd => MAP_END_DELIMITER,
            Delimiter::MapKey => MAP_KEY_DELIMITER,
            Delimiter::MapValue => MAP_VALUE_DELIMITER,
        }
    }

    /// The delimiter's name, as it is shown in messages.
    pub open spec fn label(self) -> Seq<char> {
        match self {
            Delimiter::String => "String"@,
            Delimiter::Byte => "Byte"@,
            Delimiter::Unit => "Unit"@,
            Delimiter::Enum => "Enum"@,
            Delimiter::SeqStart => "SeqStart"@,
            Delimiter::SeqEnd => "SeqEnd"@,
            Delimiter::SeqValue => "SeqValue"@,
            Delimiter::MapStart => "MapStart"@,
            Delimiter::MapEnd => "MapEnd"@,
            Delimiter::MapKey => "MapKey"@,
            Delimiter::MapValue => "MapValue"@,
        }
    }

    /// Returns the byte that stands for this delimiter.
    pub fn byte(&self) -> (b: u8)
        ensures
            b == self.pattern(),
    {
        match self {
            Delimiter::String => STRING_DELIMITER,
            Delimiter::Byte => BYTE_DELIMITER,
            Delimiter::Unit => UNIT,
            Delimiter::Enum => ENUM_DELIMITER,
            Delimiter::SeqStart => SEQ_DELIMITER,
            Delimiter::SeqEnd => SEQ_END_DELIMITER,
            Delimiter::SeqValue => SEQ_VALUE_DELIMITER,
            Delimiter::MapStart => MAP_DELIMITER,
            Delimiter::MapEnd => MAP_END_DELIMITER,
            Delimiter::MapKey => MAP_KEY_DELIMITER,
            Delimiter::MapValue => MAP_VALUE_DELIMITER,
        }
    }

    /// Returns the delimiter's name.
    pub fn name(&self) -> (s: &'static str)
        ensures
            s@ == self.label(),
    {
        match self {
            Delimiter::String => "String",
            Delimiter::Byte => "Byte",
            Delimiter::Unit => "Unit",
            Delimiter::Enum => "Enum",
            Delimiter::SeqStart => "SeqStart",
            Delimiter::SeqEnd => "SeqEnd",
            Delimiter::SeqValue => "SeqValue",
            Delimiter::MapStart => "MapStart",
            Delimiter::MapEnd => "MapEnd",
            Delimiter::MapKey => "MapKey",
            Delimiter::MapValue => "MapValue",
        }
    }
}

/// No two delimiters share a byte.
pub proof fn theorem_patterns_distinct(a: Delimiter, b: Delimiter)
    ensures
        a.pattern() == b.pattern() <==> a == b,
{
}

} // verus!
