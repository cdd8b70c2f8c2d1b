use vstd::prelude::*;

verus! {

/// Why a verification call refused a document.
#[derive(Debug, Clone, Copy, PartialEq, Eq, Structural)]
pub enum VerificationFailure {
    /// The document carries no signature at all.
    Unsigned,
    /// The caller asked for a threshold of zero.
    ZeroThreshold,
    /// Fewer than `required` distinct authorized keys signed validly.
    ThresholdNotMet { satisfied: u32, required: u32 },
}

/// The errors of this library.
#[derive(Debug, Clone, PartialEq, Eq)]
pub enum Error {
    /// A malformed path, malformed bytes, or a document that does not decode.
    Encoding(String),
    /// Inputs that cannot be combined, such as merging different payloads.
    IllegalArgument(String),
    /// A document that failed signature verification.
    VerificationFailure(VerificationFailure),
}

} // verus!
