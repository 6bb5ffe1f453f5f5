//! Chunk-level editing of PNG byte streams.
//!
//! A PNG file is an eight-byte signature followed by a sequence of
//! checksummed records. This crate models the three layers of that
//! format — the four-byte chunk tag, the single chunk record, and the
//! whole-file container — and proves that parsing and serialization
//! are exact inverses of one another.

pub mod chunk;
pub mod chunk_type;
pub mod error;
pub mod png;
pub mod text;
