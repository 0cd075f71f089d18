//! A cursor-based codec for a binary wire protocol: fixed-width integers in
//! both endiannesses, a sign-aware variable-length integer, length-prefixed
//! and zlib-compressed strings, and the `LogicLong` identifier with its
//! base-14 textual tag, together with the contract by which composite
//! message types derive their byte layout from their declared shape.

pub mod bytestream;
pub mod reader;
pub mod varint;
pub mod logiclong;
pub mod message;
pub mod text;
pub mod zlib;
pub mod wire;
pub mod writer;

pub use bytestream::ByteStream;
pub use bytestream::ByteStreamError;
pub use logiclong::LogicLong;
pub use logiclong::LogicLongError;
