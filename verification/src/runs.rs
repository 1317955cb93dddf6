//! What holds of whole audits: of every run of ballots that pass the
//! validator, as long as the tree has room for their commitments and the
//! candidates' totals fit in 64 bits.

use crate::audit::{
    audited, lemma_audit_stays_failed, lemma_audited_candidate_note_spent, lemma_audited_root,
    lemma_audited_run, opened_nullifiers, received, AuditView,
};
use crate::ballot::{BallotView, NoteView};
use crate::error::VoteError;
use crate::merkle::{capacity, tree_root};
use crate::pool::{
    all_commitments, lemma_commitments_step, lemma_repeated_nullifier_rejected,
    lemma_reused_nullifier_rejected, lemma_run_position, lemma_run_records, lemma_run_step,
    lemma_unknown_anchor_rejected, PoolView,
};
use crate::validate::{verdict, PROTOCOL_VERSION};
use vstd::prelude::*;

verus! {

/// Whether each of the first `upto` ballots passes the validator, in the state
/// that the ballots before it leave; `verified[i]` is what the proof system
/// said of `ballots[i]`.
pub open spec fn all_valid(
    pool: PoolView,
    ballots: Seq<BallotView>,
    verified: Seq<bool>,
    upto: int,
) -> bool
    decreases upto,
{
    if upto <= 0 {
        true
    } else {
        &&& all_valid(pool, ballots, verified, upto - 1)
        &&& verdict(
            ballots[upto - 1],
            pool.run(ballots.take(upto - 1)).roots,
            pool.run(ballots.take(upto - 1)).nullifiers,
            pool.nullifier_root,
            verified[upto - 1],
        ) is Ok
    }
}

/// What candidate `candidate` found in the first `upto` ballots, added up. An
/// action in which the candidate's key found nothing adds nothing.
pub open spec fn total_received(
    opened: Seq<Seq<Seq<Option<NoteView>>>>,
    candidate: int,
    upto: int,
) -> nat
    decreases upto,
{
    if upto <= 0 {
        0
    } else {
        total_received(opened, candidate, upto - 1) + received(
            opened[upto - 1],
            candidate,
            opened[upto - 1].len() as int,
        )
    }
}

/// Whether the first `upto` ballots stay within what the engine can hold: the
/// tree has room for the commitments that they bring, and no candidate's total
/// leaves 64 bits.
pub open spec fn within_limits(
    state: AuditView,
    ballots: Seq<BallotView>,
    opened: Seq<Seq<Seq<Option<NoteView>>>>,
    upto: int,
) -> bool {
    &&& state.pool.frontier.position + all_commitments(ballots.take(upto)).len() < capacity()
    &&& forall|k: int|
        0 <= k < state.totals.len() ==> state.totals[k] + #[trigger] total_received(
            opened,
            k,
            upto,
        ) <= u64::MAX
}

/// The pool of an audit goes through a run of ballots as a pool alone does, and
/// the candidates stay who they are.
pub proof fn lemma_run_pool(
    state: AuditView,
    ballots: Seq<BallotView>,
    opened: Seq<Seq<Seq<Option<NoteView>>>>,
)
    ensures
        state.run(ballots, opened).pool == state.pool.run(ballots),
        state.run(ballots, opened).choices == state.choices,
        state.run(ballots, opened).totals.len() == state.totals.len(),
    decreases ballots.len(),
{
    if ballots.len() > 0 {
        lemma_run_pool(state, ballots.drop_last(), opened.drop_last());
    }
}

/// After a run of ballots each candidate's total has grown by what the
/// candidate found in the ballots of the run.
pub proof fn lemma_run_totals(
    state: AuditView,
    ballots: Seq<BallotView>,
    opened: Seq<Seq<Seq<Option<NoteView>>>>,
    upto: int,
)
    requires
        0 <= upto <= ballots.len(),
        ballots.len() == opened.len(),
    ensures
        state.run(ballots.take(upto), opened.take(upto)).totals.len() == state.totals.len(),
        forall|k: int|
            0 <= k < state.totals.len() ==> state.run(
                ballots.take(upto),
                opened.take(upto),
            ).totals[k] == state.totals[k] + #[trigger] total_received(opened, k, upto),
    decreases upto,
{
    if upto > 0 {
        lemma_run_totals(state, ballots, opened, upto - 1);
        assert(ballots.take(upto).drop_last() =~= ballots.take(upto - 1));
        assert(opened.take(upto).drop_last() =~= opened.take(upto - 1));
        assert(opened.take(upto).last() == opened[upto - 1]);
        let earlier = state.run(ballots.take(upto - 1), opened.take(upto - 1));
        assert forall|k: int| 0 <= k < state.totals.len() implies state.run(
            ballots.take(upto),
            opened.take(upto),
        ).totals[k] == state.totals[k] + #[trigger] total_received(opened, k, upto) by {
            assert(earlier.totals[k] == state.totals[k] + total_received(opened, k, upto - 1));
        }
    } else {
        assert(ballots.take(0) =~= Seq::<BallotView>::empty());
    }
}

/// An action in which a candidate's key found nothing adds nothing to the
/// candidate's total.
pub proof fn lemma_unopened_adds_nothing(
    opened: Seq<Seq<Option<NoteView>>>,
    candidate: int,
    action: int,
)
    requires
        0 <= action,
        opened[action][candidate] is None,
    ensures
        received(opened, candidate, action + 1) == received(opened, candidate, action),
{
}

/// Ballots that stay within the limits up to some ballot stay within them up to
/// the ballot before.
proof fn lemma_limits_before(
    state: AuditView,
    ballots: Seq<BallotView>,
    opened: Seq<Seq<Seq<Option<NoteView>>>>,
    upto: int,
)
    requires
        0 < upto <= ballots.len(),
        within_limits(state, ballots, opened, upto),
    ensures
        within_limits(state, ballots, opened, upto - 1),
{
    lemma_commitments_step(ballots, upto);
    assert forall|k: int| 0 <= k < state.totals.len() implies state.totals[k]
        + #[trigger] total_received(opened, k, upto - 1) <= u64::MAX by {
        assert(state.totals[k] + total_received(opened, k, upto) <= u64::MAX);
    }
}

/// Every run of ballots that pass the validator passes the audit, as long as it
/// stays within the limits: no ballot is rejected, the state at the end is the
/// state after the ballots have been applied in turn, and each candidate's
/// total is what it was before plus what the candidate found in the ballots.
pub proof fn lemma_valid_run(
    state: AuditView,
    ballots: Seq<BallotView>,
    opened: Seq<Seq<Seq<Option<NoteView>>>>,
    verified: Seq<bool>,
    upto: int,
)
    requires
        0 <= upto <= ballots.len(),
        ballots.len() == opened.len(),
        all_valid(state.pool, ballots, verified, upto),
        within_limits(state, ballots, opened, upto),
    ensures
        audited(state, ballots, opened, verified, upto) == Ok::<AuditView, VoteError>(
            state.run(ballots.take(upto), opened.take(upto)),
        ),
        state.run(ballots.take(upto), opened.take(upto)).choices == state.choices,
        state.run(ballots.take(upto), opened.take(upto)).totals.len() == state.totals.len(),
        forall|k: int|
            0 <= k < state.totals.len() ==> state.run(
                ballots.take(upto),
                opened.take(upto),
            ).totals[k] == state.totals[k] + #[trigger] total_received(opened, k, upto),
    decreases upto,
{
    lemma_run_totals(state, ballots, opened, upto);
    lemma_run_pool(state, ballots.take(upto), opened.take(upto));
    if upto > 0 {
        lemma_limits_before(state, ballots, opened, upto);
        lemma_valid_run(state, ballots, opened, verified, upto - 1);
        let earlier = state.run(ballots.take(upto - 1), opened.take(upto - 1));
        lemma_run_pool(state, ballots.take(upto - 1), opened.take(upto - 1));
        lemma_run_position(state.pool, ballots.take(upto - 1));
        lemma_commitments_step(ballots, upto);
        assert(earlier.pool.check(ballots[upto - 1], verified[upto - 1]) is Ok);
        assert(!earlier.overflows(opened[upto - 1])) by {
            assert forall|k: int| 0 <= k < earlier.totals.len() implies earlier.totals[k]
                + #[trigger] received(opened[upto - 1], k, opened[upto - 1].len() as int)
                <= u64::MAX by {
                assert(earlier.totals[k] == state.totals[k] + total_received(
                    opened,
                    k,
                    upto - 1,
                ));
                assert(state.totals[k] + total_received(opened, k, upto) <= u64::MAX);
            }
        }
        assert(audited(state, ballots, opened, verified, upto) is Ok);
        lemma_audited_run(state, ballots, opened, verified, upto);
    } else {
        assert(ballots.take(0) =~= Seq::<BallotView>::empty());
    }
}

/// After any run of ballots that pass the validator, within the limits, the
/// commitment root is the root of the tree built from nothing over the leaves
/// that were there and the commitments of all the ballots, in order; and once a
/// ballot has been applied, a later ballot may be anchored to that root.
pub proof fn lemma_valid_run_root(
    state: AuditView,
    leaves: Seq<Seq<u8>>,
    ballots: Seq<BallotView>,
    opened: Seq<Seq<Seq<Option<NoteView>>>>,
    verified: Seq<bool>,
    upto: int,
)
    requires
        state.pool.frontier.represents(leaves),
        0 <= upto <= ballots.len(),
        ballots.len() == opened.len(),
        all_valid(state.pool, ballots, verified, upto),
        within_limits(state, ballots, opened, upto),
    ensures
        state.pool.run(ballots.take(upto)).frontier.root() == tree_root(
            leaves + all_commitments(ballots.take(upto)),
        ),
        upto > 0 ==> state.pool.run(ballots.take(upto)).roots.contains(
            tree_root(leaves + all_commitments(ballots.take(upto))),
        ),
{
    lemma_valid_run(state, ballots, opened, verified, upto);
    lemma_run_pool(state, ballots.take(upto), opened.take(upto));
    lemma_audited_root(state, leaves, ballots, opened, verified, upto);
    if upto > 0 {
        lemma_run_step(state.pool, ballots, upto);
    }
}

/// After a run of ballots that pass the validator, within the limits, a ballot
/// of the supported version whose commitment anchor is not a root that the tree
/// has had ends the audit with `StaleOrInvalidAnchor`, whatever else holds of
/// it and whatever follows it.
pub proof fn lemma_valid_run_unknown_anchor(
    state: AuditView,
    ballots: Seq<BallotView>,
    opened: Seq<Seq<Seq<Option<NoteView>>>>,
    verified: Seq<bool>,
    at: int,
)
    requires
        0 <= at < ballots.len(),
        ballots.len() == opened.len(),
        all_valid(state.pool, ballots, verified, at),
        within_limits(state, ballots, opened, at),
        ballots[at].version == PROTOCOL_VERSION,
        !state.pool.run(ballots.take(at)).roots.contains(ballots[at].commitment_root),
    ensures
        audited(state, ballots, opened, verified, ballots.len() as int) == Err::<
            AuditView,
            VoteError,
        >(VoteError::StaleOrInvalidAnchor),
{
    lemma_valid_run(state, ballots, opened, verified, at);
    lemma_run_pool(state, ballots.take(at), opened.take(at));
    let earlier = state.run(ballots.take(at), opened.take(at));
    lemma_unknown_anchor_rejected(earlier.pool, ballots[at], verified[at]);
    assert(audited(state, ballots, opened, verified, at + 1) == Err::<AuditView, VoteError>(
        VoteError::StaleOrInvalidAnchor,
    ));
    lemma_audit_stays_failed(state, ballots, opened, verified, at + 1, ballots.len() as int);
}

/// After a run of ballots that pass the validator, within the limits, a ballot
/// that spends a nullifier of a ballot of the run ends the audit with
/// `DuplicateNullifier`, whatever the proof system said of it and whatever
/// follows it, provided that it gets as far as the nullifier check.
pub proof fn lemma_valid_run_reused_nullifier(
    state: AuditView,
    ballots: Seq<BallotView>,
    opened: Seq<Seq<Seq<Option<NoteView>>>>,
    verified: Seq<bool>,
    at: int,
    action: int,
    before: int,
    spent: int,
)
    requires
        0 <= before < at < ballots.len(),
        ballots.len() == opened.len(),
        all_valid(state.pool, ballots, verified, at),
        within_limits(state, ballots, opened, at),
        ballots[at].version == PROTOCOL_VERSION,
        state.pool.run(ballots.take(at)).roots.contains(ballots[at].commitment_root),
        ballots[at].nullifier_root == state.pool.nullifier_root,
        0 <= action < ballots[at].nullifiers.len(),
        0 <= spent < ballots[before].nullifiers.len(),
        ballots[at].nullifiers[action] == ballots[before].nullifiers[spent],
    ensures
        audited(state, ballots, opened, verified, ballots.len() as int) == Err::<
            AuditView,
            VoteError,
        >(VoteError::DuplicateNullifier),
{
    lemma_valid_run(state, ballots, opened, verified, at);
    lemma_run_pool(state, ballots.take(at), opened.take(at));
    lemma_run_position(state.pool, ballots.take(at));
    assert(ballots.take(at)[before] == ballots[before]);
    lemma_run_records(state.pool, ballots.take(at), before, spent);
    let earlier = state.run(ballots.take(at), opened.take(at));
    lemma_reused_nullifier_rejected(earlier.pool, ballots[at], verified[at], action);
    assert(audited(state, ballots, opened, verified, at + 1) == Err::<AuditView, VoteError>(
        VoteError::DuplicateNullifier,
    ));
    lemma_audit_stays_failed(state, ballots, opened, verified, at + 1, ballots.len() as int);
}

/// After a run of ballots that pass the validator, within the limits, a ballot
/// that spends the same nullifier in two of its actions ends the audit with
/// `DuplicateNullifier` under the same proviso.
pub proof fn lemma_valid_run_repeated_nullifier(
    state: AuditView,
    ballots: Seq<BallotView>,
    opened: Seq<Seq<Seq<Option<NoteView>>>>,
    verified: Seq<bool>,
    at: int,
    first: int,
    second: int,
)
    requires
        0 <= at < ballots.len(),
        ballots.len() == opened.len(),
        all_valid(state.pool, ballots, verified, at),
        within_limits(state, ballots, opened, at),
        ballots[at].version == PROTOCOL_VERSION,
        state.pool.run(ballots.take(at)).roots.contains(ballots[at].commitment_root),
        ballots[at].nullifier_root == state.pool.nullifier_root,
        0 <= first < second < ballots[at].nullifiers.len(),
        ballots[at].nullifiers[first] == ballots[at].nullifiers[second],
    ensures
        audited(state, ballots, opened, verified, ballots.len() as int) == Err::<
            AuditView,
            VoteError,
        >(VoteError::DuplicateNullifier),
{
    lemma_valid_run(state, ballots, opened, verified, at);
    lemma_run_pool(state, ballots.take(at), opened.take(at));
    lemma_run_position(state.pool, ballots.take(at));
    let earlier = state.run(ballots.take(at), opened.take(at));
    lemma_repeated_nullifier_rejected(earlier.pool, ballots[at], verified[at], first, second);
    assert(audited(state, ballots, opened, verified, at + 1) == Err::<AuditView, VoteError>(
        VoteError::DuplicateNullifier,
    ));
    lemma_audit_stays_failed(state, ballots, opened, verified, at + 1, ballots.len() as int);
}

/// If every ballot of an audit passes the validator, within the limits, and a
/// candidate finds a note in one ballot whose nullifier a later ballot spends,
/// then every ballot is applied and at the end a candidate note counts as
/// spent: the audit ends with `CandidateNoteSpent` and reports no totals.
pub proof fn lemma_valid_run_candidate_note_spent(
    state: AuditView,
    ballots: Seq<BallotView>,
    opened: Seq<Seq<Seq<Option<NoteView>>>>,
    verified: Seq<bool>,
    earlier: int,
    later: int,
    action: int,
)
    requires
        ballots.len() == opened.len(),
        all_valid(state.pool, ballots, verified, ballots.len() as int),
        within_limits(state, ballots, opened, ballots.len() as int),
        0 <= earlier < later < ballots.len(),
        0 <= action < ballots[later].nullifiers.len(),
        opened_nullifiers(opened[earlier]).contains(ballots[later].nullifiers[action]),
    ensures
        audited(state, ballots, opened, verified, ballots.len() as int) is Ok,
        audited(
            state,
            ballots,
            opened,
            verified,
            ballots.len() as int,
        )->Ok_0.candidate_note_spent(),
{
    lemma_valid_run(state, ballots, opened, verified, ballots.len() as int);
    lemma_audited_candidate_note_spent(state, ballots, opened, verified, earlier, later, action);
}

} // verus!
