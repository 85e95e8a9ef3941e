//! The reasons for which a split is refused.

use vstd::prelude::*;

verus! {

/// Why a split was refused. Every variant but the last names an argument
/// that is out of range or malformed; all are found before any output is
/// produced.
#[derive(Clone, Copy, Debug, PartialEq, Eq, Structural)]
pub enum SplitError {
    /// A byte size is not a decimal magnitude followed by one of `k`, `m`,
    /// `g`, or the size it denotes does not fit in 64 bits.
    InvalidByteSize,
    /// The suffix length lies outside the range that is offered.
    InvalidSuffixLength,
    /// The number of chunks is zero or beyond what is offered.
    InvalidChunkCount,
    /// The number of bytes per file is zero.
    InvalidByteCount,
    /// The number of lines per file is zero.
    InvalidLineCount,
    /// The pattern is not a regular expression that can be compiled.
    InvalidPattern,
    /// More than one way of splitting was chosen.
    ConflictingMethods,
    /// The split needs more files than the suffix can number.
    SuffixExhausted,
}

} // verus!
