//! The byte-level codec: primitives, reference indexing and record layouts.

pub mod index;
pub mod read;
pub mod roundtrip;
pub mod table;
pub mod types;
pub mod utils;
pub mod version;
pub mod write;
