//! The errors of the codec, and their mathematical model.

use vstd::prelude::*;
use super::token::Delimiter;

verus! {

/// What can go wrong while bytes are written or read.
#[derive(Debug)]
pub enum Error {
    /// The buffer holds no byte to look at.
    NoByte,
    /// More bytes were asked for (first number) than the buffer holds (second).
    NLargerThanLength(usize, usize),
    /// The bytes do not fit the shape that was asked for. Where a struct is
    /// read, the text is the name of the field that was expected.
    DeserializationError(String),
    /// The named operation needs a stream that describes itself, which this
    /// format is not.
    UnsupportedCall(String),
    /// The input ends before the bytes that a read needs.
    UnexpectedEOF,
    /// An integer was asked for in a width other than 1, 2, 4 or 8 bytes.
    InvalidTypeSize,
    /// A byte that should hold a boolean is neither 0 nor 1.
    ConversionError,
    /// The given delimiter was required at the cursor and another byte stands
    /// there.
    ExpectedDelimiter(Delimiter),
    /// The bytes of a string are not UTF-8.
    InvalidUtf8,
    /// The number is not a Unicode scalar value.
    InvalidCharCode(u32),
    /// The enum that was asked for has no variant of this index.
    UnknownVariantIndex(u32),
}

/// The model of an [`Error`]: texts are sequences of characters.
pub enum SpecError {
    NoByte,
    NLargerThanLength(usize, usize),
    DeserializationError(Seq<char>),
    UnsupportedCall(Seq<char>),
    UnexpectedEOF,
    InvalidTypeSize,
    ConversionError,
    ExpectedDelimiter(Delimiter),
    InvalidUtf8,
    InvalidCharCode(u32),
    UnknownVariantIndex(u32),
}

impl View for Error {
    type V = SpecError;

    open spec fn view(&self) -> SpecError {
        match self {
            Error::NoByte => SpecError::NoByte,
            Error::NLargerThanLength(n, len) => SpecError::NLargerThanLength(*n, *len),
            Error::DeserializationError(text) => SpecError::DeserializationError(text@),
            Error::UnsupportedCall(text) => SpecError::UnsupportedCall(text@),
            Error::UnexpectedEOF => SpecError::UnexpectedEOF,
            Error::InvalidTypeSize => SpecError::InvalidTypeSize,
            Error::ConversionError => SpecError::ConversionError,
            Error::ExpectedDelimiter(token) => SpecError::ExpectedDelimiter(*token),
            Error::InvalidUtf8 => SpecError::InvalidUtf8,
            Error::InvalidCharCode(code) => SpecError::InvalidCharCode(*code),
            Error::UnknownVariantIndex(index) => SpecError::UnknownVariantIndex(*index),
        }
    }
}

impl SpecError {
    /// The two errors that a shortened input may give: the input ended, or a
    /// delimiter was missing.
    pub open spec fn is_truncation(self) -> bool {
        self is UnexpectedEOF || self is ExpectedDelimiter
    }
}

} // verus!
