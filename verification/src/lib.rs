//! Core of a schema compiler for a compact, self-describing binary
//! serialization format.
//!
//! Given a verified schema node — one of a closed set of composable kinds
//! (byte atom, option, union, fixed array, struct, vector of fixed-size
//! items, vector of variable-size items, and a table of named fields) —
//! this library derives the exact byte layout, the encode algorithm, the
//! decode/validate algorithm over untrusted byte slices, and the
//! constant-time accessor ranges over validated buffers.

pub mod access;
pub mod decode;
pub mod encode;
pub mod header;
pub mod laws;
pub mod layout;
pub mod schema;

pub use header::HEADER_UNIT;
