//! The core of a search and storage engine: codecs, compressed sets, indexes
//! and the rules that decide what a store may commit.
//!
//! Every decoder reports an error on bytes it cannot read and never panics.
use vstd::prelude::*;

pub mod analysis;
pub mod bitmap;
pub mod bitpack;
pub mod bits;
pub mod bound;
pub mod checksum;
pub mod codec;
pub mod compact;
pub mod count;
pub mod durability;
pub mod error;
pub mod explain;
pub mod file;
pub mod filter;
pub mod index;
pub mod ingest;
pub mod keeper;
pub mod keymap;
pub mod keys;
pub mod length;
pub mod manifest;
pub mod order;
pub mod segment;

pub use error::{Error, Result};

verus! {

/// The internal identifier of a document inside one segment.
///
/// It is a segment local ordinal rather than a global identifier, which is what
/// keeps posting lists dense and delta encoding worthwhile.
pub type DocId = u32;

/// The version of the on disk format this build reads and writes.
pub const FORMAT_VERSION: u16 = 2;

/// The oldest format version this build can still make sense of.
pub const OLDEST_VERSION: u16 = 1;

/// The magic bytes at the start of every file written by this engine.
pub const MAGIC: [u8; 8] = [75, 85, 82, 65, 0, 0, 0, 1];

} // verus!
