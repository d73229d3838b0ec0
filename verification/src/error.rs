use vstd::prelude::*;

verus! {

/// Failure kinds of the artifact and proof-structuring layer.
///
/// Every failure here reflects a structural or cryptographic inconsistency,
/// never a transient condition, so no operation retries.
#[derive(Clone, Copy, Debug, PartialEq, Eq, Structural)]
pub enum CircuitError {
    /// Decoding: a read ran past the end of a stream or buffer.
    ShortRead,
    /// Decoding: the serialized artifact carried an unrecognized io tag.
    UnknownIoTag,
    /// Geometry: protocol parameters are malformed (the LDE bit-length is
    /// below the cap height, or a scheduled arity exceeds the remaining
    /// Merkle-proof depth).
    Geometry,
    /// The supplied input disagrees with the proof's embedded public values.
    InputMismatch,
    /// The supplied output disagrees with the proof's embedded public values.
    OutputMismatch,
    /// The cryptographic verifier rejected the proof.
    ProofRejected,
}

} // verus!
