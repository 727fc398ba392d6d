//! An immutable key-value blob store: a static cuckoo-hash index, the binary
//! file that holds it together with the (optionally compressed) values, and
//! lookup by key over any source of bytes that can be read by range.

pub mod bytes;
pub mod compression;
pub mod construction;
pub mod cuckoo;
pub mod cuckoo_laws;
pub mod error;
pub mod fileformat_read;
pub mod fileformat_write_laws;
pub mod fileformat_write;
pub mod index;
pub mod lookup_laws;
pub mod memory_view;
pub mod metadata;
pub mod multihash;
pub mod parametrized_hasher;
pub mod reorder;
pub mod utils;
