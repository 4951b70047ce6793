//! The error type of the library.

use vstd::prelude::*;

verus! {

/// Errors that can occur when working with stroopwafels.
#[derive(Debug, Clone, PartialEq, Eq)]
pub enum StroopwafelError {
    /// The signature chain of a token or of a discharge does not match.
    InvalidSignature,
    /// A caveat condition was violated, or a discharge is missing.
    CaveatViolation(String),
    /// One of the encodings could not be decoded.
    DeserializationError(String),
    /// A predicate or a third-party caveat is malformed.
    InvalidFormat(String),
    /// A failure inside the cryptographic primitive.
    CryptoError(String),
    /// A key of an unusable length.
    InvalidKeyLength,
}

} // verus!
