//! A table of superfiles: manifest, commits, caches and queries.

pub mod b64;
pub mod bytes;
pub mod chunks;
pub mod column_map;
pub mod error;
pub mod handle;
pub mod idgen;
pub mod ids;
pub mod ieee;
pub mod lazy_source;
pub mod lex;
pub mod manifest;
pub mod options;
pub mod order;
pub mod outcome;
pub mod packing;
pub mod query;
pub mod reader_cache;
pub mod scalar;
pub mod share;
pub mod stats;
pub mod text;
pub mod wal;
pub mod writer;
