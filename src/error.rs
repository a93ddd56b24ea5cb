//! The failures that the mirror, the codec and the proof sources report.
use vstd::prelude::*;

verus! {

/// Every failure that this library surfaces to its caller.
#[derive(Debug, Clone, Copy, PartialEq, Eq, Structural)]
pub enum MirrorError {
    /// A leaf set whose size is not two to the power of the depth.
    InvalidLeafCount,
    /// A leaf index at or beyond the tree's capacity.
    IndexOutOfRange,
    /// A state blob that cannot be decoded or does not have the expected layout.
    MalformedBlob,
    /// A state blob whose leaves do not reproduce the root it carries.
    RootMismatch,
    /// The remote indexer could not be reached.
    IndexerUnavailable,
    /// The remote indexer answered with something that is not a valid response.
    MalformedIndexerResponse,
    /// The remote indexer's response lacks a field, or a hash is not 32 bytes long.
    MissingField,
}

} // verus!
