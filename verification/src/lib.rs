//! Codec for a size-prefixed, recursive tagged-value format, the checksummed
//! envelope that frames it, and the single-entry archive that carries it.

pub mod archive;
pub mod career;
pub mod checksum;
pub mod codec;
pub mod endian;
pub mod envelope;
pub mod error;
pub mod reader;
pub mod value;
