//! The state that ballots are checked against and applied to: the frontier of
//! the commitment tree, the roots that the tree has had, and the nullifiers
//! recorded so far. One ballot is checked and applied at a time, in the order of
//! the ballots' heights.

use crate::ballot::{Ballot, BallotView};
use crate::element::FieldElement;
use crate::error::VoteError;
use crate::frontier::{
    lemma_append_all_position, lemma_incremental_root, Frontier, FrontierView,
};
use crate::ledger::{NullifierLedger, RootSet};
use crate::merkle::{capacity, tree_root};
use crate::validate::{validate_ballot, verdict, PROTOCOL_VERSION};
use vstd::prelude::*;

verus! {

/// The state of the pool as plain values.
pub struct PoolView {
    /// The nullifier root that every ballot must be anchored to.
    pub nullifier_root: Seq<u8>,
    /// The right edge of the commitment tree.
    pub frontier: FrontierView,
    /// The commitment roots that a ballot may be anchored to.
    pub roots: Set<Seq<u8>>,
    /// The nullifiers of the ballots accepted so far.
    pub nullifiers: Set<Seq<u8>>,
}

impl PoolView {
    /// The state before the first ballot: one root, no nullifier.
    pub open spec fn start(
        nullifier_root: Seq<u8>,
        commitment_root: Seq<u8>,
        frontier: FrontierView,
    ) -> PoolView {
        PoolView {
            nullifier_root,
            frontier,
            roots: Set::empty().insert(commitment_root),
            nullifiers: Set::empty(),
        }
    }

    /// What is said of the next ballot: the validator's verdict and then, for a
    /// ballot that passes, whether the tree has room for its commitments.
    pub open spec fn check(self, ballot: BallotView, verified: bool) -> Result<(), VoteError> {
        match verdict(ballot, self.roots, self.nullifiers, self.nullifier_root, verified) {
            Err(e) => Err(e),
            Ok(_) => if self.frontier.position + ballot.commitments.len() >= capacity() {
                Err(VoteError::TreeFull)
            } else {
                Ok(())
            },
        }
    }

    /// The state after an accepted ballot: its nullifiers are recorded, its
    /// commitments appended, and the root that results is one more root that a
    /// ballot may be anchored to.
    pub open spec fn applied(self, ballot: BallotView) -> PoolView {
        let frontier = self.frontier.append_all(ballot.commitments);
        PoolView {
            nullifier_root: self.nullifier_root,
            frontier,
            roots: self.roots.insert(frontier.root()),
            nullifiers: self.nullifiers.union(ballot.nullifiers.to_set()),
        }
    }

    /// What comes of checking and applying the first `upto` ballots in turn,
    /// each taken as verified by the proof system: the state after the last of
    /// them, or the error of the first that fails a check.
    pub open spec fn replayed(self, ballots: Seq<BallotView>, upto: int) -> Result<
        PoolView,
        VoteError,
    >
        decreases upto,
    {
        if upto <= 0 {
            Ok(self)
        } else {
            match self.replayed(ballots, upto - 1) {
                Err(e) => Err(e),
                Ok(earlier) => match earlier.check(ballots[upto - 1], true) {
                    Err(e) => Err(e),
                    Ok(_) => Ok(earlier.applied(ballots[upto - 1])),
                },
            }
        }
    }

    /// The state after each of `ballots` has been accepted in turn.
    pub open spec fn run(self, ballots: Seq<BallotView>) -> PoolView
        decreases ballots.len(),
    {
        if ballots.len() == 0 {
            self
        } else {
            self.run(ballots.drop_last()).applied(ballots.last())
        }
    }
}

/// The pool as ballots are applied to it.
#[derive(Clone, Debug)]
pub struct Pool {
    nullifier_root: FieldElement,
    frontier: Frontier,
    roots: RootSet,
    nullifiers: NullifierLedger,
}

impl View for Pool {
    type V = PoolView;

    closed spec fn view(&self) -> PoolView {
        PoolView {
            nullifier_root: self.nullifier_root@,
            frontier: self.frontier@,
            roots: self.roots@,
            nullifiers: self.nullifiers@,
        }
    }
}

/// One more string in a list is one more string in the set of its members.
pub proof fn lemma_push_to_set(held: Seq<Seq<u8>>, one: Seq<u8>)
    ensures
        held.push(one).to_set() == held.to_set().insert(one),
{
    let longer = held.push(one);
    assert forall|e: Seq<u8>| longer.to_set().contains(e) == held.to_set().insert(one).contains(
        e,
    ) by {
        if longer.contains(e) {
            let i = choose|i: int| 0 <= i < longer.len() && longer[i] == e;
            if i < held.len() {
                assert(held[i] == e);
            }
        }
        if held.contains(e) {
            let i = choose|i: int| 0 <= i < held.len() && held[i] == e;
            assert(longer[i] == e);
        }
        if e == one {
            assert(longer[held.len() as int] == e);
        }
    }
    assert(longer.to_set() =~= held.to_set().insert(one));
}

impl Pool {
    /// The pool of an election before the first ballot: the tree stands where
    /// `frontier` says, and `commitment_root` is the one root that a ballot may
    /// be anchored to.
    pub fn new(nullifier_root: FieldElement, commitment_root: FieldElement, frontier: Frontier) -> (r:
        Pool)
        ensures
            r@ == PoolView::start(nullifier_root@, commitment_root@, frontier@),
    {
        Pool {
            nullifier_root,
            frontier,
            roots: RootSet::new(commitment_root),
            nullifiers: NullifierLedger::new(),
        }
    }

    /// The root of the commitment tree as it stands.
    pub fn root(&self) -> (r: FieldElement)
        ensures
            r@ == self@.frontier.root(),
    {
        self.frontier.root()
    }

    /// The position of the last commitment.
    pub fn position(&self) -> (r: u32)
        ensures
            r == self@.frontier.position,
    {
        self.frontier.position()
    }

    /// Whether a ballot may be anchored to `root`.
    pub fn is_anchor(&self, root: &FieldElement) -> (r: bool)
        ensures
            r == self@.roots.contains(root@),
    {
        self.roots.contains(root)
    }

    /// Whether `nullifier` has shown in an accepted ballot.
    pub fn is_spent(&self, nullifier: &FieldElement) -> (r: bool)
        ensures
            r == self@.nullifiers.contains(nullifier@),
    {
        self.nullifiers.contains(nullifier)
    }

    /// Checks the next ballot. Nothing is changed.
    pub fn check(&self, ballot: &Ballot, verified: bool) -> (r: Result<(), VoteError>)
        ensures
            r == self@.check(ballot@, verified),
    {
        let checked = validate_ballot(
            ballot,
            &self.roots,
            &self.nullifiers,
            &self.nullifier_root,
            verified,
        );
        if let Err(e) = checked {
            return Err(e);
        }
        if ballot.actions.len() > self.frontier.room() as usize {
            return Err(VoteError::TreeFull);
        }
        Ok(())
    }

    /// Applies a ballot that the tree has room for: action by action, the
    /// nullifier is recorded and the commitment appended; then the new root is
    /// added to the roots.
    pub(crate) fn append_ballot(&mut self, ballot: &Ballot)
        requires
            old(self)@.frontier.position + ballot.actions.len() < capacity(),
        ensures
            final(self)@ == old(self)@.applied(ballot@),
    {
        let ghost before = self@;
        let ghost commitments = ballot@.commitments;
        let ghost nullifiers = ballot@.nullifiers;
        let n = ballot.actions.len();
        let mut a: usize = 0;
        proof {
            assert(commitments.take(0) =~= Seq::<Seq<u8>>::empty());
            assert(before.nullifiers.union(nullifiers.take(0).to_set()) =~= before.nullifiers);
        }
        while a < n
            invariant
                a <= n,
                n == ballot.actions.len(),
                commitments == ballot@.commitments,
                nullifiers == ballot@.nullifiers,
                before.frontier.position + n < capacity(),
                self.nullifier_root == old(self).nullifier_root,
                self.roots == old(self).roots,
                self.frontier@ == before.frontier.append_all(commitments.take(a as int)),
                self.frontier@.position == before.frontier.position + a,
                self.nullifiers@ == before.nullifiers.union(nullifiers.take(a as int).to_set()),
            decreases n - a,
        {
            let action = ballot.actions[a];
            let _ = self.nullifiers.record(action.nullifier);
            self.frontier.push(action.commitment);
            proof {
                assert(commitments.take(a + 1).drop_last() =~= commitments.take(a as int));
                assert(commitments.take(a + 1).last() == action.commitment@);
                assert(nullifiers.take(a + 1) =~= nullifiers.take(a as int).push(
                    action.nullifier@,
                ));
                lemma_push_to_set(nullifiers.take(a as int), action.nullifier@);
                assert(self.nullifiers@ =~= before.nullifiers.union(
                    nullifiers.take(a + 1).to_set(),
                ));
            }
            a = a + 1;
        }
        proof {
            assert(commitments.take(n as int) =~= commitments);
            assert(nullifiers.take(n as int) =~= nullifiers);
        }
        let root = self.frontier.root();
        self.roots.insert(root);
    }

    /// Checks the next ballot and, if nothing is wrong with it, applies it. A
    /// ballot that fails a check changes nothing.
    pub fn apply(&mut self, ballot: &Ballot, verified: bool) -> (r: Result<(), VoteError>)
        ensures
            r == old(self)@.check(ballot@, verified),
            r is Ok ==> final(self)@ == old(self)@.applied(ballot@),
            r is Err ==> final(self)@ == old(self)@,
    {
        if let Err(e) = self.check(ballot, verified) {
            return Err(e);
        }
        self.append_ballot(ballot);
        Ok(())
    }
}

/// The commitments of a run of ballots, in the order in which they are appended.
pub open spec fn all_commitments(ballots: Seq<BallotView>) -> Seq<Seq<u8>>
    decreases ballots.len(),
{
    if ballots.len() == 0 {
        Seq::empty()
    } else {
        all_commitments(ballots.drop_last()) + ballots.last().commitments
    }
}

/// Once a ballot has failed its check, the replay has failed, whatever follows.
pub proof fn lemma_replay_stays_failed(
    state: PoolView,
    ballots: Seq<BallotView>,
    fewer: int,
    more: int,
)
    requires
        fewer <= more,
        state.replayed(ballots, fewer) is Err,
    ensures
        state.replayed(ballots, more) == state.replayed(ballots, fewer),
    decreases more - fewer,
{
    if fewer < more {
        lemma_replay_stays_failed(state, ballots, fewer, more - 1);
    }
}

/// After a ballot has been applied, the commitment root is the root of the tree
/// built from nothing over the leaves that were there and the ballot's
/// commitments, and a later ballot may be anchored to it.
pub proof fn lemma_applied_root(state: PoolView, leaves: Seq<Seq<u8>>, ballot: BallotView)
    requires
        state.frontier.represents(leaves),
        leaves.len() + ballot.commitments.len() <= capacity(),
    ensures
        state.applied(ballot).frontier.represents(leaves + ballot.commitments),
        state.applied(ballot).frontier.root() == tree_root(leaves + ballot.commitments),
        state.applied(ballot).roots.contains(tree_root(leaves + ballot.commitments)),
{
    lemma_incremental_root(state.frontier, leaves, ballot.commitments);
}

/// After any run of accepted ballots, applied in order, the commitment root is
/// the root of the tree built from nothing over the same sequence of
/// commitments.
pub proof fn lemma_run_root(state: PoolView, leaves: Seq<Seq<u8>>, ballots: Seq<BallotView>)
    requires
        state.frontier.represents(leaves),
        leaves.len() + all_commitments(ballots).len() <= capacity(),
    ensures
        state.run(ballots).frontier.represents(leaves + all_commitments(ballots)),
        state.run(ballots).frontier.root() == tree_root(leaves + all_commitments(ballots)),
    decreases ballots.len(),
{
    if ballots.len() == 0 {
        assert(leaves + all_commitments(ballots) =~= leaves);
        lemma_incremental_root(state.frontier, leaves, Seq::empty());
    } else {
        let earlier = ballots.drop_last();
        lemma_run_root(state, leaves, earlier);
        lemma_applied_root(state.run(earlier), leaves + all_commitments(earlier), ballots.last());
        assert((leaves + all_commitments(earlier)) + ballots.last().commitments =~= leaves
            + all_commitments(ballots));
    }
}

/// A ballot that spends a nullifier recorded before is answered with
/// `DuplicateNullifier`, whatever the proof system said of it, provided that it
/// gets as far as the nullifier check: its version is the supported one and its
/// anchors are the ones expected.
pub proof fn lemma_reused_nullifier_rejected(
    state: PoolView,
    ballot: BallotView,
    verified: bool,
    action: int,
)
    requires
        ballot.version == PROTOCOL_VERSION,
        state.roots.contains(ballot.commitment_root),
        ballot.nullifier_root == state.nullifier_root,
        0 <= action < ballot.nullifiers.len(),
        state.nullifiers.contains(ballot.nullifiers[action]),
    ensures
        state.check(ballot, verified) == Err::<(), VoteError>(VoteError::DuplicateNullifier),
{
}

/// A ballot that spends the same nullifier in two of its actions is answered
/// with `DuplicateNullifier` under the same proviso.
pub proof fn lemma_repeated_nullifier_rejected(
    state: PoolView,
    ballot: BallotView,
    verified: bool,
    first: int,
    second: int,
)
    requires
        ballot.version == PROTOCOL_VERSION,
        state.roots.contains(ballot.commitment_root),
        ballot.nullifier_root == state.nullifier_root,
        0 <= first < second < ballot.nullifiers.len(),
        ballot.nullifiers[first] == ballot.nullifiers[second],
    ensures
        state.check(ballot, verified) == Err::<(), VoteError>(VoteError::DuplicateNullifier),
{
}

/// Applying a ballot records each of its nullifiers, and takes away no
/// nullifier and no root.
pub proof fn lemma_applied_records(state: PoolView, ballot: BallotView, action: int)
    requires
        0 <= action < ballot.nullifiers.len(),
    ensures
        state.applied(ballot).nullifiers.contains(ballot.nullifiers[action]),
        state.nullifiers.subset_of(state.applied(ballot).nullifiers),
        state.roots.subset_of(state.applied(ballot).roots),
{
    assert(ballot.nullifiers.contains(ballot.nullifiers[action]));
}

/// Once a ballot has been applied, a ballot that spends one of its nullifiers
/// again is a double vote.
pub proof fn lemma_double_vote_rejected(
    state: PoolView,
    first: BallotView,
    second: BallotView,
    verified: bool,
    spent: int,
    again: int,
)
    requires
        second.version == PROTOCOL_VERSION,
        state.applied(first).roots.contains(second.commitment_root),
        second.nullifier_root == state.nullifier_root,
        0 <= spent < first.nullifiers.len(),
        0 <= again < second.nullifiers.len(),
        first.nullifiers[spent] == second.nullifiers[again],
    ensures
        state.applied(first).check(second, verified) == Err::<(), VoteError>(
            VoteError::DuplicateNullifier,
        ),
{
    lemma_applied_records(state, first, spent);
    lemma_reused_nullifier_rejected(state.applied(first), second, verified, again);
}

/// A ballot of the supported version whose commitment anchor is not a root that
/// the tree has had is answered with `StaleOrInvalidAnchor`, whatever else
/// holds of it.
pub proof fn lemma_unknown_anchor_rejected(state: PoolView, ballot: BallotView, verified: bool)
    requires
        ballot.version == PROTOCOL_VERSION,
        !state.roots.contains(ballot.commitment_root),
    ensures
        state.check(ballot, verified) == Err::<(), VoteError>(VoteError::StaleOrInvalidAnchor),
{
}

/// The commitments of the first ballots of a list are those of one ballot
/// fewer, followed by the commitments of the last of them.
pub proof fn lemma_commitments_step(ballots: Seq<BallotView>, upto: int)
    requires
        0 < upto <= ballots.len(),
    ensures
        all_commitments(ballots.take(upto)) == all_commitments(ballots.take(upto - 1))
            + ballots[upto - 1].commitments,
{
    assert(ballots.take(upto).drop_last() =~= ballots.take(upto - 1));
    assert(ballots.take(upto).last() == ballots[upto - 1]);
}

/// The state after the first ballots of a list is the state after one ballot
/// fewer with the last of them applied.
pub proof fn lemma_run_step(state: PoolView, ballots: Seq<BallotView>, upto: int)
    requires
        0 < upto <= ballots.len(),
    ensures
        state.run(ballots.take(upto)) == state.run(ballots.take(upto - 1)).applied(
            ballots[upto - 1],
        ),
{
    assert(ballots.take(upto).drop_last() =~= ballots.take(upto - 1));
    assert(ballots.take(upto).last() == ballots[upto - 1]);
}

/// A run of ballots moves the position by the number of commitments that the
/// ballots bring, and leaves the nullifier root as it is.
pub proof fn lemma_run_position(state: PoolView, ballots: Seq<BallotView>)
    ensures
        state.run(ballots).frontier.position == state.frontier.position + all_commitments(
            ballots,
        ).len(),
        state.run(ballots).nullifier_root == state.nullifier_root,
    decreases ballots.len(),
{
    if ballots.len() > 0 {
        lemma_run_position(state, ballots.drop_last());
        lemma_append_all_position(
            state.run(ballots.drop_last()).frontier,
            ballots.last().commitments,
        );
    }
}

/// After a run of ballots, every nullifier of every ballot of the run is
/// recorded, and what was recorded before still is.
pub proof fn lemma_run_records(state: PoolView, ballots: Seq<BallotView>, at: int, action: int)
    requires
        0 <= at < ballots.len(),
        0 <= action < ballots[at].nullifiers.len(),
    ensures
        state.run(ballots).nullifiers.contains(ballots[at].nullifiers[action]),
        state.nullifiers.subset_of(state.run(ballots).nullifiers),
    decreases ballots.len(),
{
    lemma_run_grows(state, ballots);
    let earlier = state.run(ballots.drop_last());
    if at == ballots.len() - 1 {
        lemma_applied_records(earlier, ballots.last(), action);
    } else {
        assert(ballots.drop_last()[at] == ballots[at]);
        lemma_run_records(state, ballots.drop_last(), at, action);
    }
}

/// A run of ballots takes away no nullifier and no root.
pub proof fn lemma_run_grows(state: PoolView, ballots: Seq<BallotView>)
    ensures
        state.nullifiers.subset_of(state.run(ballots).nullifiers),
        state.roots.subset_of(state.run(ballots).roots),
    decreases ballots.len(),
{
    if ballots.len() > 0 {
        lemma_run_grows(state, ballots.drop_last());
    }
}

/// The roots that a ballot may be anchored to after a run of ballots are those
/// that it could be anchored to before, and the root of the tree as it stood
/// after each ballot of the run; there is no other.
pub proof fn lemma_run_roots(state: PoolView, ballots: Seq<BallotView>, root: Seq<u8>)
    ensures
        state.run(ballots).roots.contains(root) <==> state.roots.contains(root) || exists|j: int|
            0 < j <= ballots.len() && #[trigger] state.run(ballots.take(j)).frontier.root()
                == root,
    decreases ballots.len(),
{
    if ballots.len() > 0 {
        let fewer = ballots.drop_last();
        lemma_run_roots(state, fewer, root);
        assert(ballots.take(ballots.len() as int) =~= ballots);
        assert forall|j: int| 0 < j <= fewer.len() implies fewer.take(j) == ballots.take(j) by {
            assert(fewer.take(j) =~= ballots.take(j));
        }
        if state.run(ballots).roots.contains(root) && !state.roots.contains(root) {
            if state.run(ballots).frontier.root() == root {
                assert(state.run(ballots.take(ballots.len() as int)).frontier.root() == root);
            } else {
                assert(state.run(fewer).roots.contains(root));
                let j = choose|j: int|
                    0 < j <= fewer.len() && #[trigger] state.run(fewer.take(j)).frontier.root()
                        == root;
                assert(state.run(ballots.take(j)).frontier.root() == root);
            }
        }
        if exists|j: int|
            0 < j <= ballots.len() && #[trigger] state.run(ballots.take(j)).frontier.root()
                == root {
            let j = choose|j: int|
                0 < j <= ballots.len() && #[trigger] state.run(ballots.take(j)).frontier.root()
                    == root;
            if j < ballots.len() {
                assert(state.run(fewer.take(j)).frontier.root() == root);
            }
        }
    }
}

} // verus!
