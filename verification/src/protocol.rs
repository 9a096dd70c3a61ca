//! The codec: the delimiter vocabulary, the fixed-width primitives, the value
//! model, the grammar of the stream and the two walks over it.

pub mod deserializer;
pub mod error;
pub mod format;
pub mod serializer;
pub mod soundness;
pub mod theorems;
pub mod token;
pub mod truncation;
pub mod value;
pub mod wire;
