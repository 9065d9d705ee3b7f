//! Errors that can occur when producing or checking a ring signature.

use vstd::prelude::*;

verus! {

/// An error connected with ring signatures.
#[derive(Clone, Copy, Debug, Eq, Hash, Ord, PartialEq, PartialOrd)]
pub enum Error {
    /// Incorrect length for an array copy: the length provided and the length
    /// required.
    LengthMismatch(usize, usize),
    /// Real index out of bounds.
    IndexOutOfBounds,
    /// Inputs is empty.
    NoInputs,
    /// Invalid ring size.
    InvalidRingSize(usize),
    /// Invalid input-secrets size.
    InvalidInputSecretsSize(usize),
    /// Invalid curve point.
    InvalidCurvePoint,
    /// Invalid curve scalar.
    InvalidCurveScalar,
    /// The signature was not able to be validated.
    InvalidSignature,
    /// Failed to compress or decompress a key image.
    InvalidKeyImage,
    /// Duplicate key image.
    DuplicateKeyImage,
    /// There was an opaque error returned by another crate or library.
    InternalError,
    /// Public keys must be valid Ristretto points.
    KeyError,
    /// Signing failed because the value of inputs did not equal the value of
    /// outputs.
    ValueNotConserved,
    /// Invalid range proof.
    RangeProofError,
    /// Serialization failed.
    SerializationFailed,
}

} // verus!
