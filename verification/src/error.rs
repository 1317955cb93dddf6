//! What can go wrong while ballots are checked, applied, counted and sent.

use vstd::prelude::*;

verus! {

/// The failures of the engine. All but `TransientIO` and `BroadcastFailed` are
/// protocol violations: they end the run in progress and nothing of the ballot
/// at hand is kept.
#[derive(Clone, Debug, PartialEq, Eq)]
pub enum VoteError {
    /// The ballot's version is not the one this engine supports.
    UnsupportedVersion,
    /// The ballot's commitment anchor is not a root that the tree has had.
    StaleOrInvalidAnchor,
    /// The ballot's nullifier anchor is not the one fixed by the election.
    InvalidNullifierRoot,
    /// A nullifier of the ballot has been recorded before.
    DuplicateNullifier,
    /// The ballot's proof or signature does not verify.
    ProofOrSignatureInvalid,
    /// A note received by a candidate has been spent.
    CandidateNoteSpent,
    /// A frontier checkpoint is missing or does not fit its position.
    FrontierCorrupt,
    /// The published address of the candidate with this index is not the one
    /// derived for that index.
    InvalidCandidateAddress(usize),
    /// The commitment tree has no room for the ballot's commitments.
    TreeFull,
    /// A total does not fit in 64 bits.
    AmountOverflow,
    /// Every mirror rejected the ballot; the text is the last rejection.
    BroadcastFailed(String),
    /// The network or the storage failed; the caller may try again.
    TransientIO(String),
}

} // verus!
