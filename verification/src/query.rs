//! Queries over a written file.

pub mod cigar;
pub mod coverage;
pub mod depth;
pub mod printer;
pub mod regions;
pub mod ring;
