//! Deterministic set encoding for configuration cells: length-prefixed
//! records, null-separated lists, hash-bucket sharding and a Bloom filter.

pub mod bloom;
pub mod combiner;
pub mod emitter;
pub mod error;
pub mod generators;
pub mod hashing;
pub mod length_prefix;
pub mod list_codec;
pub mod order;
pub mod permutation;
pub mod price;
pub mod profile;
pub mod record;
pub mod sharder;
pub mod text;
pub mod timestamp;
