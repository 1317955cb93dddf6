//! The checks that a ballot must pass before anything of it is kept.

use crate::ballot::{Ballot, BallotView};
use crate::element::FieldElement;
use crate::element_set::ElementSet;
use crate::error::VoteError;
use crate::ledger::{NullifierLedger, RootSet};
use vstd::prelude::*;

verus! {

/// The one protocol version that this engine accepts.
pub const PROTOCOL_VERSION: u32 = 1;

/// Whether some nullifier of the ballot has been recorded before, in the ledger
/// or by an earlier action of the same ballot.
pub open spec fn reuses_nullifier(nullifiers: Seq<Seq<u8>>, recorded: Set<Seq<u8>>) -> bool {
    ||| !nullifiers.no_duplicates()
    ||| exists|i: int| 0 <= i < nullifiers.len() && recorded.contains(#[trigger] nullifiers[i])
}

/// What the validator says of a ballot: the first check that fails, in the
/// order version, commitment anchor, nullifier anchor, nullifiers, proof; or
/// `Ok` when none does. `verified` is what the proof system said of the ballot
/// under the election's signature rule.
pub open spec fn verdict(
    ballot: BallotView,
    roots: Set<Seq<u8>>,
    recorded: Set<Seq<u8>>,
    nullifier_root: Seq<u8>,
    verified: bool,
) -> Result<(), VoteError> {
    if ballot.version != PROTOCOL_VERSION {
        Err(VoteError::UnsupportedVersion)
    } else if !roots.contains(ballot.commitment_root) {
        Err(VoteError::StaleOrInvalidAnchor)
    } else if ballot.nullifier_root != nullifier_root {
        Err(VoteError::InvalidNullifierRoot)
    } else if reuses_nullifier(ballot.nullifiers, recorded) {
        Err(VoteError::DuplicateNullifier)
    } else if !verified {
        Err(VoteError::ProofOrSignatureInvalid)
    } else {
        Ok(())
    }
}

/// Whether some nullifier of the ballot has been recorded before.
pub fn has_reused_nullifier(ballot: &Ballot, ledger: &NullifierLedger) -> (r: bool)
    ensures
        r == reuses_nullifier(ballot@.nullifiers, ledger@),
{
    let ghost nullifiers = ballot@.nullifiers;
    let mut seen = ElementSet::new();
    let mut i: usize = 0;
    while i < ballot.actions.len()
        invariant
            i <= ballot.actions.len(),
            nullifiers == ballot@.nullifiers,
            forall|e: Seq<u8>|
                seen@.contains(e) <==> exists|k: int| 0 <= k < i && #[trigger] nullifiers[k] == e,
            forall|j: int, k: int| 0 <= j < k < i ==> nullifiers[j] != nullifiers[k],
            forall|k: int| 0 <= k < i ==> !ledger@.contains(#[trigger] nullifiers[k]),
        decreases ballot.actions.len() - i,
    {
        let nullifier = ballot.actions[i].nullifier;
        assert(nullifier@ == nullifiers[i as int]);
        if ledger.contains(&nullifier) {
            return true;
        }
        let ghost before = seen@;
        if !seen.insert(nullifier) {
            proof {
                let k = choose|k: int| 0 <= k < i && #[trigger] nullifiers[k] == nullifier@;
                assert(nullifiers[k] == nullifiers[i as int] && k != i);
            }
            return true;
        }
        proof {
            assert forall|e: Seq<u8>| seen@.contains(e) implies exists|k: int|
                0 <= k < i + 1 && #[trigger] nullifiers[k] == e by {
                if e == nullifier@ {
                    assert(nullifiers[i as int] == e);
                } else {
                    assert(before.contains(e));
                    let k = choose|k: int| 0 <= k < i && #[trigger] nullifiers[k] == e;
                    assert(0 <= k < i + 1 && nullifiers[k] == e);
                }
            }
        }
        i = i + 1;
    }
    false
}

/// Checks a ballot against the roots, the ledger and the election's nullifier
/// root. Nothing is changed.
pub fn validate_ballot(
    ballot: &Ballot,
    roots: &RootSet,
    ledger: &NullifierLedger,
    nullifier_root: &FieldElement,
    verified: bool,
) -> (r: Result<(), VoteError>)
    ensures
        r == verdict(ballot@, roots@, ledger@, nullifier_root@, verified),
{
    if ballot.version != PROTOCOL_VERSION {
        return Err(VoteError::UnsupportedVersion);
    }
    if !roots.contains(&ballot.anchor.commitment_root) {
        return Err(VoteError::StaleOrInvalidAnchor);
    }
    if !ballot.anchor.nullifier_root.same(nullifier_root) {
        return Err(VoteError::InvalidNullifierRoot);
    }
    if has_reused_nullifier(ballot, ledger) {
        return Err(VoteError::DuplicateNullifier);
    }
    if !verified {
        return Err(VoteError::ProofOrSignatureInvalid);
    }
    Ok(())
}

} // verus!
