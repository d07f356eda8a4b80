//! A binary object-persistence engine: a little-endian byte codec, a schema
//! model with a compatibility diff, version-gated fields, a layout optimizer
//! that decides when an aggregate may be copied as one byte range, and a
//! method-dispatch protocol for calls between separately built binaries.
pub mod error;
pub mod wire;
pub mod schema;
pub mod value;
pub mod schema_codec;
pub mod versions;
pub mod persist;
pub mod layout;
pub mod abi;
pub mod traits;
pub mod bitvec;
