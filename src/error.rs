use vstd::prelude::*;

verus! {

/// What can go wrong while counting k-mers.
#[derive(Debug, PartialEq, Eq)]
pub enum KmerError {
    /// The raw bytes of a sequence are not well-formed UTF-8 text.
    InvalidEncoding,
    /// The k-mer size is zero.
    InvalidKmerSize,
    /// A record of the stream could not be processed; holds its identifier.
    InvalidRecord(Vec<u8>),
}

} // verus!
