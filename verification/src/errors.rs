//! The error taxonomy of the index.

use vstd::prelude::*;

verus! {

/// Everything that can go wrong while building, searching or persisting
/// an index.
#[derive(Clone, Copy, Debug, PartialEq, Eq, Structural)]
pub enum IndexError {
    /// Network or transport failure, or a non-success response, from
    /// the embedding provider.
    ProviderError,
    /// The provider's response does not match the expected shape.
    MalformedResponse,
    /// Two vectors of different flattened lengths were compared.
    DimensionMismatch,
    /// A compared vector has zero magnitude, so its cosine similarity
    /// is undefined.
    ZeroMagnitude,
    /// A stored embedding references a document or node that does not
    /// exist.
    InconsistentIndex,
    /// A file could not be written or read.
    PersistenceError,
    /// A loaded file does not satisfy the index schema.
    CorruptIndex,
}

} // verus!
