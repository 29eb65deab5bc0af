//! Canonical k-mer counting over streams of nucleotide reads.
//!
//! Reads are normalized, cut into overlapping windows of a fixed length,
//! each window is reduced to the smaller of itself and its reverse
//! complement, and the canonical forms are tallied in a count table.

pub mod error;
pub mod nucleotide;
pub mod canonical;
pub mod window;
pub mod table;
pub mod counting;
