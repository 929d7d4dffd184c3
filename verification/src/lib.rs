//! Sorted-table layer of a log-structured merge tree: a builder that packs an
//! ascending stream of key-value pairs into blocks, the immutable table that
//! results, and a seekable forward cursor over it.

pub mod block;
pub mod builder;
pub mod codec;
pub mod iterator;
pub mod keys;
pub mod laws;
pub mod meta;
pub mod table;
