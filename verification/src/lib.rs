//! A compact binary encoding for structured values.
//!
//! A value is written depth first as a stream of bytes: fixed-width
//! little-endian primitives, length-prefixed strings and byte buffers, and
//! single-byte delimiters around sequences, maps and enum variants. The stream
//! carries no type tags, so decoding is driven by the shape that the caller
//! asks for.

pub mod protocol;
