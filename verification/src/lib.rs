//! Columnar storage for aligned sequencing records and per-base read depth.
//!
//! Records with the byte layout of BAM alignments are split into their
//! fields; every field is gathered into blocks of bounded size, and the
//! blocks are described by a metadata footer. The depth engine selects,
//! through the block statistics, the records of one reference and sweeps
//! them into a coverage vector.

pub mod block;
pub mod bytes;
pub mod fields;
pub mod meta;
pub mod query;
pub mod reader;
pub mod record;
pub mod roundtrip;
pub mod writer;

pub use crate::fields::Fields;
pub use crate::record::RawRecord;

use vstd::prelude::*;

verus! {

/// Width in bytes of a one byte integer.
pub const U8_SIZE: usize = 1;

/// Width in bytes of a two byte integer.
pub const U16_SIZE: usize = 2;

/// Width in bytes of a four byte integer.
pub const U32_SIZE: usize = 4;

/// Soft limit on the size of a block before compression. A block is closed
/// before a value that would take it past the limit, unless it is empty.
pub const SIZE_LIMIT: usize = 65536;

} // verus!
