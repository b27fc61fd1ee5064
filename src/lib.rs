//! Read-only lookups in MaxMind DB (`.mmdb`) images: a binary search trie
//! keyed by the bits of an IP address, a data section of self-describing
//! typed values, and a trailing metadata map.
//!
//! `format` holds the mathematical model of the encoding that the contracts
//! speak of; `decoder` reads it; `metadata` finds and reads the metadata
//! block; `reader` walks the trie and resolves dotted field paths.
pub mod decoder;
pub mod format;
pub mod metadata;
pub mod path;
pub mod reader;
pub mod record;
pub mod value;

pub use decoder::Decoder;
pub use format::Type;
pub use metadata::Metadata;
pub use reader::{IpAddress, Reader};
pub use record::Record;
pub use value::{Error, ResultValue};
