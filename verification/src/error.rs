//! The ways in which stored bytes can fail to be what the formats say.
use vstd::prelude::*;

verus! {

/// A format error: stored bytes that the engine cannot read.
#[derive(Debug, Clone, Copy, PartialEq, Eq, Structural)]
pub enum FormatError {
    /// A Bloom filter payload shorter than its eight header bytes.
    BloomFilter,
    /// A log record whose first byte names no operation.
    Operation,
    /// A log record that ends before its key or its value does.
    Record,
    /// A table file with a length field that reaches past the end of the
    /// file.
    Table,
}

impl FormatError {
    /// A short description of the error.
    pub fn message(&self) -> (text: &'static str)
        ensures
            text@ == (match *self {
                FormatError::BloomFilter => "Invalid Bloom filter data"@,
                FormatError::Operation => "Invalid operation type"@,
                FormatError::Record => "Truncated log record"@,
                FormatError::Table => "Truncated table file"@,
            }),
    {
        match self {
            FormatError::BloomFilter => "Invalid Bloom filter data",
            FormatError::Operation => "Invalid operation type",
            FormatError::Record => "Truncated log record",
            FormatError::Table => "Truncated table file",
        }
    }
}

} // verus!
