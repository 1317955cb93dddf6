//! The audit: every ballot of an election is checked again, in order, against
//! the state that the ballots before it left, and what each candidate received
//! is added up. Nothing is taken on trust from whoever ran the election.

use crate::ballot::{Ballot, BallotView, Note, NoteView};
use crate::election::Election;
use crate::element::{encodings, FieldElement};
use crate::error::VoteError;
use crate::frontier::lemma_root_of_tree;
use crate::merkle::{capacity, tree_root};
use crate::pool::{all_commitments, lemma_applied_records, lemma_applied_root, Pool, PoolView};
use vstd::prelude::*;

verus! {

/// A candidate's running total.
#[derive(Clone, Debug)]
pub struct Count {
    pub choice: String,
    pub amount: u64,
}

/// What a candidate received in the whole election.
#[derive(Clone, Debug, PartialEq, Eq)]
pub struct CountResult {
    pub choice: String,
    pub amount: u64,
}

/// The value that candidate `candidate` found in action `action`, or nothing.
pub open spec fn opened_value(opened: Seq<Seq<Option<NoteView>>>, action: int, candidate: int) -> nat {
    match opened[action][candidate] {
        Some(note) => note.value,
        None => 0,
    }
}

/// What candidate `candidate` found in the first `actions` actions, added up.
pub open spec fn received(opened: Seq<Seq<Option<NoteView>>>, candidate: int, actions: int) -> nat
    decreases actions,
{
    if actions <= 0 {
        0
    } else {
        received(opened, candidate, actions - 1) + opened_value(opened, actions - 1, candidate)
    }
}

/// Whether the note that candidate `candidate` found in action `action` has the
/// nullifier `nullifier`.
pub open spec fn opens(
    opened: Seq<Seq<Option<NoteView>>>,
    action: int,
    candidate: int,
    nullifier: Seq<u8>,
) -> bool {
    &&& 0 <= action < opened.len()
    &&& 0 <= candidate < opened[action].len()
    &&& opened[action][candidate] matches Some(note)
    &&& note.nullifier == nullifier
}

/// The nullifiers of the notes found in the actions before `action`, and in
/// action `action` by the candidates before `candidate`.
pub open spec fn opened_before(
    opened: Seq<Seq<Option<NoteView>>>,
    action: int,
    candidate: int,
) -> Set<Seq<u8>> {
    Set::new(
        |e: Seq<u8>|
            exists|a: int, k: int|
                #[trigger] opens(opened, a, k, e) && (a < action || (a == action && k
                    < candidate)),
    )
}

/// The nullifiers of all the notes found.
pub open spec fn opened_nullifiers(opened: Seq<Seq<Option<NoteView>>>) -> Set<Seq<u8>> {
    opened_before(opened, opened.len() as int, 0)
}

/// There is one answer for each action and, in it, one for each candidate.
pub open spec fn fits(opened: Seq<Seq<Option<NoteView>>>, actions: nat, candidates: nat) -> bool {
    &&& opened.len() == actions
    &&& forall|a: int| 0 <= a < actions ==> (#[trigger] opened[a]).len() == candidates
}

/// What the candidates' keys found in a ballot, as plain values: for each
/// action, what each candidate's key found in it.
pub open spec fn opened_view(opened: Seq<Vec<Option<Note>>>) -> Seq<Seq<Option<NoteView>>> {
    Seq::new(
        opened.len(),
        |a: int|
            Seq::new(
                opened[a]@.len(),
                |k: int|
                    match opened[a]@[k] {
                        Some(note) => Some(note@),
                        None => None,
                    },
            ),
    )
}

/// The state of an audit as plain values.
pub struct AuditView {
    /// The pool that the ballots are checked against.
    pub pool: PoolView,
    /// The candidates' labels.
    pub choices: Seq<Seq<char>>,
    /// What each candidate has received so far.
    pub totals: Seq<nat>,
    /// The nullifiers of the notes that candidates have received.
    pub candidate_nullifiers: Set<Seq<u8>>,
}

impl AuditView {
    /// The state before the first ballot.
    pub open spec fn start(pool: PoolView, choices: Seq<Seq<char>>) -> AuditView {
        AuditView {
            pool,
            choices,
            totals: Seq::new(choices.len(), |k: int| 0nat),
            candidate_nullifiers: Set::empty(),
        }
    }

    /// Whether some candidate's total would leave 64 bits.
    pub open spec fn overflows(self, opened: Seq<Seq<Option<NoteView>>>) -> bool {
        exists|k: int|
            0 <= k < self.totals.len() && self.totals[k] + #[trigger] received(
                opened,
                k,
                opened.len() as int,
            ) > u64::MAX
    }

    /// What the audit says of the next ballot: what the pool says of it, and
    /// then whether the totals still fit.
    pub open spec fn check(
        self,
        ballot: BallotView,
        opened: Seq<Seq<Option<NoteView>>>,
        verified: bool,
    ) -> Result<(), VoteError> {
        match self.pool.check(ballot, verified) {
            Err(e) => Err(e),
            Ok(_) => if self.overflows(opened) {
                Err(VoteError::AmountOverflow)
            } else {
                Ok(())
            },
        }
    }

    /// The state after an accepted ballot: the pool has taken it in, each
    /// candidate's total has grown by what that candidate found in it, and the
    /// nullifiers of the notes found are remembered.
    pub open spec fn applied(self, ballot: BallotView, opened: Seq<Seq<Option<NoteView>>>) -> AuditView {
        AuditView {
            pool: self.pool.applied(ballot),
            choices: self.choices,
            totals: Seq::new(
                self.totals.len(),
                |k: int| self.totals[k] + received(opened, k, opened.len() as int),
            ),
            candidate_nullifiers: self.candidate_nullifiers.union(opened_nullifiers(opened)),
        }
    }

    /// The state after each of `ballots` has been accepted in turn, where
    /// `opened[i]` is what the candidates found in `ballots[i]`.
    pub open spec fn run(
        self,
        ballots: Seq<BallotView>,
        opened: Seq<Seq<Seq<Option<NoteView>>>>,
    ) -> AuditView
        decreases ballots.len(),
    {
        if ballots.len() == 0 {
            self
        } else {
            self.run(ballots.drop_last(), opened.drop_last()).applied(
                ballots.last(),
                opened.last(),
            )
        }
    }

    /// Whether a note received by a candidate has been spent.
    pub open spec fn candidate_note_spent(self) -> bool {
        exists|e: Seq<u8>|
            self.candidate_nullifiers.contains(e) && self.pool.nullifiers.contains(e)
    }

    /// Whether `results` are the candidates' labels and totals, in order.
    pub open spec fn reported(self, results: Seq<CountResult>) -> bool {
        &&& results.len() == self.choices.len()
        &&& forall|k: int|
            0 <= k < results.len() ==> (#[trigger] results[k]).choice@ == self.choices[k]
                && results[k].amount == self.totals[k]
    }
}

/// An audit in progress.
#[derive(Debug)]
pub struct Audit {
    pool: Pool,
    counts: Vec<Count>,
    candidate_nullifiers: Vec<FieldElement>,
}

impl View for Audit {
    type V = AuditView;

    closed spec fn view(&self) -> AuditView {
        AuditView {
            pool: self.pool@,
            choices: Seq::new(self.counts.len() as nat, |k: int| self.counts[k].choice@),
            totals: Seq::new(self.counts.len() as nat, |k: int| self.counts[k].amount as nat),
            candidate_nullifiers: encodings(self.candidate_nullifiers@).to_set(),
        }
    }
}

/// The candidates' totals with what each found in the ballot added, or nothing
/// if a total would leave 64 bits.
fn updated_counts(counts: &Vec<Count>, opened: &Vec<Vec<Option<Note>>>) -> (r: Option<Vec<Count>>)
    requires
        forall|a: int| 0 <= a < opened.len() ==> (#[trigger] opened[a])@.len() == counts.len(),
    ensures
        r is None <==> exists|k: int|
            0 <= k < counts.len() && counts[k].amount + #[trigger] received(
                opened_view(opened@),
                k,
                opened.len() as int,
            ) > u64::MAX,
        r matches Some(updated) ==> updated.len() == counts.len() && forall|k: int|
            0 <= k < counts.len() ==> (#[trigger] updated[k]).choice@ == counts[k].choice@
                && updated[k].amount == counts[k].amount + received(
                opened_view(opened@),
                k,
                opened.len() as int,
            ),
{
    let mut updated: Vec<Count> = Vec::new();
    let mut k: usize = 0;
    while k < counts.len()
        invariant
            k <= counts.len(),
            updated.len() == k,
            forall|a: int| 0 <= a < opened.len() ==> (#[trigger] opened[a])@.len() == counts.len(),
            forall|j: int|
                0 <= j < k ==> (#[trigger] updated[j]).choice@ == counts[j].choice@
                    && updated[j].amount == counts[j].amount + received(
                    opened_view(opened@),
                    j,
                    opened.len() as int,
                ),
        decreases counts.len() - k,
    {
        let mut amount: u64 = counts[k].amount;
        let mut a: usize = 0;
        while a < opened.len()
            invariant
                a <= opened.len(),
                k < counts.len(),
                forall|a: int|
                    0 <= a < opened.len() ==> (#[trigger] opened[a])@.len() == counts.len(),
                amount == counts[k as int].amount + received(
                    opened_view(opened@),
                    k as int,
                    a as int,
                ),
            decreases opened.len() - a,
        {
            assert(opened[a as int]@.len() == counts.len());
            assert(opened_view(opened@)[a as int][k as int] == match opened[a as int]@[k as int] {
                Some(note) => Some(note@),
                None => None,
            });
            match opened[a][k] {
                Some(note) => {
                    match amount.checked_add(note.value) {
                        Some(sum) => {
                            amount = sum;
                        },
                        None => {
                            proof {
                                lemma_received_grows(
                                    opened_view(opened@),
                                    k as int,
                                    a + 1,
                                    opened.len() as int,
                                );
                            }
                            return None;
                        },
                    }
                },
                None => {},
            }
            a = a + 1;
        }
        updated.push(Count { choice: counts[k].choice.clone(), amount });
        k = k + 1;
    }
    assert forall|k: int| 0 <= k < counts.len() implies counts[k].amount + #[trigger] received(
        opened_view(opened@),
        k,
        opened.len() as int,
    ) <= u64::MAX by {
        assert(updated[k].amount == counts[k].amount + received(
            opened_view(opened@),
            k,
            opened.len() as int,
        ));
    }
    Some(updated)
}

impl Audit {
    /// Starts an audit of `election`: the tree stands where the election's
    /// frontier says, and the election's commitment root is the one root that a
    /// ballot may be anchored to. An election without a frontier cannot be
    /// audited.
    pub fn new(election: &Election) -> (r: Result<Audit, VoteError>)
        ensures
            match r {
                Ok(audit) => election.cmx_frontier matches Some(frontier) && audit@
                    == AuditView::start(
                    PoolView::start(election.nf@, election.cmx@, frontier@),
                    election.choices(),
                ),
                Err(e) => e == VoteError::FrontierCorrupt && election.cmx_frontier is None,
            },
    {
        let frontier = match &election.cmx_frontier {
            Some(frontier) => frontier.clone(),
            None => {
                return Err(VoteError::FrontierCorrupt);
            },
        };
        let mut counts: Vec<Count> = Vec::new();
        let mut k: usize = 0;
        while k < election.candidates.len()
            invariant
                k <= election.candidates.len(),
                counts.len() == k,
                forall|j: int|
                    0 <= j < k ==> (#[trigger] counts[j]).choice@ == election.candidates[j].choice@
                        && counts[j].amount == 0,
            decreases election.candidates.len() - k,
        {
            counts.push(Count { choice: election.candidates[k].choice.clone(), amount: 0 });
            k = k + 1;
        }
        let audit = Audit {
            pool: Pool::new(election.nf, election.cmx, frontier),
            counts,
            candidate_nullifiers: Vec::new(),
        };
        proof {
            let start = AuditView::start(
                PoolView::start(election.nf@, election.cmx@, election.cmx_frontier->0@),
                election.choices(),
            );
            assert(audit@.choices =~= start.choices);
            assert(audit@.totals =~= start.totals);
            assert(audit@.candidate_nullifiers =~= start.candidate_nullifiers);
        }
        Ok(audit)
    }

    /// The pool as the audit has it.
    pub fn pool(&self) -> (r: &Pool)
        ensures
            r@ == self@.pool,
    {
        &self.pool
    }

    /// The candidates' running totals, in the candidates' order.
    pub fn counts(&self) -> (r: &Vec<Count>)
        ensures
            r.len() == self@.choices.len(),
            forall|k: int|
                0 <= k < r.len() ==> (#[trigger] r[k]).choice@ == self@.choices[k] && r[k].amount
                    == self@.totals[k],
    {
        &self.counts
    }

    /// Checks the next ballot and, if nothing is wrong with it, applies it.
    /// `opened` holds, for each action and each candidate, what that
    /// candidate's key found in the action. A ballot that fails a check changes
    /// nothing.
    pub fn apply(&mut self, ballot: &Ballot, opened: &Vec<Vec<Option<Note>>>, verified: bool) -> (r:
        Result<(), VoteError>)
        requires
            fits(opened_view(opened@), ballot.actions.len() as nat, old(self)@.choices.len()),
        ensures
            r == old(self)@.check(ballot@, opened_view(opened@), verified),
            r is Ok ==> final(self)@ == old(self)@.applied(ballot@, opened_view(opened@)),
            r is Err ==> final(self)@ == old(self)@,
    {
        let ghost before = self@;
        let ghost found = opened_view(opened@);
        if let Err(e) = self.pool.check(ballot, verified) {
            return Err(e);
        }
        proof {
            assert forall|a: int| 0 <= a < opened.len() implies (#[trigger] opened[a])@.len()
                == self.counts.len() by {
                assert(found[a].len() == opened[a]@.len());
            }
        }
        let updated = match updated_counts(&self.counts, opened) {
            Some(updated) => updated,
            None => {
                proof {
                    let k = choose|k: int|
                        0 <= k < self.counts.len() && self.counts[k].amount + #[trigger] received(
                            found,
                            k,
                            opened.len() as int,
                        ) > u64::MAX;
                    assert(before.totals[k] + received(found, k, found.len() as int) > u64::MAX);
                }
                return Err(VoteError::AmountOverflow);
            },
        };
        proof {
            if before.overflows(found) {
                let k = choose|k: int|
                    0 <= k < before.totals.len() && before.totals[k] + #[trigger] received(
                        found,
                        k,
                        found.len() as int,
                    ) > u64::MAX;
                assert(self.counts[k].amount + received(found, k, opened.len() as int)
                    > u64::MAX);
            }
        }
        self.pool.append_ballot(ballot);
        let ghost found_before = encodings(self.candidate_nullifiers@).to_set();
        let mut a: usize = 0;
        proof {
            assert(found_before.union(opened_before(found, 0, 0)) =~= found_before);
        }
        while a < opened.len()
            invariant
                a <= opened.len(),
                found == opened_view(opened@),
                self.pool@ == before.pool.applied(ballot@),
                self.counts == old(self).counts,
                encodings(self.candidate_nullifiers@).to_set() == found_before.union(
                    opened_before(found, a as int, 0),
                ),
            decreases opened.len() - a,
        {
            let row = &opened[a];
            let mut k: usize = 0;
            while k < row.len()
                invariant
                    k <= row.len(),
                    a < opened.len(),
                    row == opened[a as int],
                    found == opened_view(opened@),
                    self.pool@ == before.pool.applied(ballot@),
                    self.counts == old(self).counts,
                    encodings(self.candidate_nullifiers@).to_set() == found_before.union(
                        opened_before(found, a as int, k as int),
                    ),
                decreases row.len() - k,
            {
                proof {
                    assert(found[a as int].len() == row@.len());
                    assert(found[a as int][k as int] == match row@[k as int] {
                        Some(note) => Some(note@),
                        None => None,
                    });
                    lemma_opened_step(found, a as int, k as int);
                }
                match row[k] {
                    Some(note) => {
                        proof {
                            lemma_push_encoding(self.candidate_nullifiers@, note.nullifier);
                        }
                        self.candidate_nullifiers.push(note.nullifier);
                        assert(encodings(self.candidate_nullifiers@).to_set() =~= found_before.union(
                            opened_before(found, a as int, k + 1),
                        ));
                    },
                    None => {},
                }
                k = k + 1;
            }
            proof {
                assert(found[a as int].len() == row@.len());
                lemma_opened_row(found, a as int);
            }
            a = a + 1;
        }
        self.counts = updated;
        proof {
            let after = before.applied(ballot@, found);
            assert(self@.choices =~= after.choices);
            assert(self@.totals =~= after.totals);
        }
        Ok(())
    }

    /// Ends the audit. If a note that a candidate received has been spent, the
    /// audit fails; else it reports each candidate's label and total, in the
    /// candidates' order.
    pub fn finish(&self) -> (r: Result<Vec<CountResult>, VoteError>)
        ensures
            match r {
                Ok(results) => !self@.candidate_note_spent() && self@.reported(results@),
                Err(e) => e == VoteError::CandidateNoteSpent && self@.candidate_note_spent(),
            },
    {
        let ghost found = encodings(self.candidate_nullifiers@);
        let mut i: usize = 0;
        while i < self.candidate_nullifiers.len()
            invariant
                i <= self.candidate_nullifiers.len(),
                found == encodings(self.candidate_nullifiers@),
                forall|j: int| 0 <= j < i ==> !self.pool@.nullifiers.contains(#[trigger] found[j]),
            decreases self.candidate_nullifiers.len() - i,
        {
            if self.pool.is_spent(&self.candidate_nullifiers[i]) {
                proof {
                    let e = found[i as int];
                    assert(found.contains(e));
                    assert(self@.candidate_nullifiers.contains(e) && self@.pool.nullifiers.contains(e));
                }
                return Err(VoteError::CandidateNoteSpent);
            }
            i = i + 1;
        }
        proof {
            if self@.candidate_note_spent() {
                let e = choose|e: Seq<u8>|
                    self@.candidate_nullifiers.contains(e) && self@.pool.nullifiers.contains(e);
                let j = choose|j: int| 0 <= j < found.len() && found[j] == e;
                assert(!self.pool@.nullifiers.contains(found[j]));
            }
        }
        let mut results: Vec<CountResult> = Vec::new();
        let mut k: usize = 0;
        while k < self.counts.len()
            invariant
                k <= self.counts.len(),
                results.len() == k,
                forall|j: int|
                    0 <= j < k ==> (#[trigger] results[j]).choice@ == self.counts[j].choice@
                        && results[j].amount == self.counts[j].amount,
            decreases self.counts.len() - k,
        {
            results.push(
                CountResult { choice: self.counts[k].choice.clone(), amount: self.counts[k].amount },
            );
            k = k + 1;
        }
        Ok(results)
    }
}

/// The ballots of a list as plain values, in order.
pub open spec fn ballot_views(ballots: Seq<Ballot>) -> Seq<BallotView> {
    Seq::new(ballots.len(), |i: int| ballots[i]@)
}

/// What the candidates' keys found in each ballot of a list, as plain values.
pub open spec fn opened_views(opened: Seq<Vec<Vec<Option<Note>>>>) -> Seq<
    Seq<Seq<Option<NoteView>>>,
> {
    Seq::new(opened.len(), |i: int| opened_view(opened[i]@))
}

/// What comes of checking and applying the first `upto` ballots in turn: the
/// state after the last of them, or the error of the first ballot that fails a
/// check, after which no ballot is looked at.
pub open spec fn audited(
    state: AuditView,
    ballots: Seq<BallotView>,
    opened: Seq<Seq<Seq<Option<NoteView>>>>,
    verified: Seq<bool>,
    upto: int,
) -> Result<AuditView, VoteError>
    decreases upto,
{
    if upto <= 0 {
        Ok(state)
    } else {
        match audited(state, ballots, opened, verified, upto - 1) {
            Err(e) => Err(e),
            Ok(earlier) => match earlier.check(
                ballots[upto - 1],
                opened[upto - 1],
                verified[upto - 1],
            ) {
                Err(e) => Err(e),
                Ok(_) => Ok(earlier.applied(ballots[upto - 1], opened[upto - 1])),
            },
        }
    }
}

/// Once a ballot has failed a check, the audit has failed, whatever follows.
pub proof fn lemma_audit_stays_failed(
    state: AuditView,
    ballots: Seq<BallotView>,
    opened: Seq<Seq<Seq<Option<NoteView>>>>,
    verified: Seq<bool>,
    fewer: int,
    more: int,
)
    requires
        fewer <= more,
        audited(state, ballots, opened, verified, fewer) is Err,
    ensures
        audited(state, ballots, opened, verified, more) == audited(
            state,
            ballots,
            opened,
            verified,
            fewer,
        ),
    decreases more - fewer,
{
    if fewer < more {
        lemma_audit_stays_failed(state, ballots, opened, verified, fewer, more - 1);
    }
}

/// Audits an election from its ballots, in the order of their heights:
/// `opened[i]` holds what the candidates' keys found in `ballots[i]`, and
/// `verified[i]` what the proof system said of it. The audit fails with the
/// error of the first ballot that fails a check; it fails with
/// `CandidateNoteSpent` if, all ballots having passed, a note that a candidate
/// received has been spent; else it reports each candidate's label and total.
pub fn audit(
    election: &Election,
    ballots: &Vec<Ballot>,
    opened: &Vec<Vec<Vec<Option<Note>>>>,
    verified: &Vec<bool>,
) -> (r: Result<Vec<CountResult>, VoteError>)
    requires
        opened.len() == ballots.len(),
        verified.len() == ballots.len(),
        forall|i: int|
            0 <= i < ballots.len() ==> fits(
                opened_view(#[trigger] opened[i]@),
                ballots[i].actions.len() as nat,
                election.candidates.len() as nat,
            ),
    ensures
        election.cmx_frontier is None ==> r == Err::<Vec<CountResult>, VoteError>(
            VoteError::FrontierCorrupt,
        ),
        election.cmx_frontier matches Some(frontier) ==> match audited(
            AuditView::start(
                PoolView::start(election.nf@, election.cmx@, frontier@),
                election.choices(),
            ),
            ballot_views(ballots@),
            opened_views(opened@),
            verified@,
            ballots.len() as int,
        ) {
            Err(e) => r == Err::<Vec<CountResult>, VoteError>(e),
            Ok(end) => if end.candidate_note_spent() {
                r == Err::<Vec<CountResult>, VoteError>(VoteError::CandidateNoteSpent)
            } else {
                r matches Ok(results) && end.reported(results@)
            },
        },
{
    let mut audit = match Audit::new(election) {
        Ok(audit) => audit,
        Err(e) => {
            return Err(e);
        },
    };
    let ghost start = audit@;
    let ghost all = ballot_views(ballots@);
    let ghost found = opened_views(opened@);
    let mut i: usize = 0;
    while i < ballots.len()
        invariant
            i <= ballots.len(),
            opened.len() == ballots.len(),
            verified.len() == ballots.len(),
            all == ballot_views(ballots@),
            found == opened_views(opened@),
            election.cmx_frontier is Some,
            start == AuditView::start(
                PoolView::start(election.nf@, election.cmx@, election.cmx_frontier->0@),
                election.choices(),
            ),
            forall|j: int|
                0 <= j < ballots.len() ==> fits(
                    opened_view(#[trigger] opened[j]@),
                    ballots[j].actions.len() as nat,
                    election.candidates.len() as nat,
                ),
            audited(start, all, found, verified@, i as int) == Ok::<AuditView, VoteError>(audit@),
            audit@.choices.len() == start.choices.len(),
        decreases ballots.len() - i,
    {
        proof {
            assert(all[i as int] == ballots[i as int]@);
            assert(found[i as int] == opened_view(opened[i as int]@));
        }
        if let Err(e) = audit.apply(&ballots[i], &opened[i], verified[i]) {
            proof {
                lemma_audit_stays_failed(
                    start,
                    all,
                    found,
                    verified@,
                    i + 1,
                    ballots.len() as int,
                );
            }
            return Err(e);
        }
        i = i + 1;
    }
    audit.finish()
}

/// A total only grows as more actions are counted.
pub proof fn lemma_received_grows(
    opened: Seq<Seq<Option<NoteView>>>,
    candidate: int,
    fewer: int,
    more: int,
)
    requires
        fewer <= more,
    ensures
        received(opened, candidate, fewer) <= received(opened, candidate, more),
    decreases more - fewer,
{
    if fewer < more {
        lemma_received_grows(opened, candidate, fewer, more - 1);
    }
}

/// What one more answer adds to the nullifiers found.
proof fn lemma_opened_step(opened: Seq<Seq<Option<NoteView>>>, action: int, candidate: int)
    requires
        0 <= action < opened.len(),
        0 <= candidate < opened[action].len(),
    ensures
        opened_before(opened, action, candidate + 1) == match opened[action][candidate] {
            Some(note) => opened_before(opened, action, candidate).insert(note.nullifier),
            None => opened_before(opened, action, candidate),
        },
{
    let before = opened_before(opened, action, candidate);
    let after = opened_before(opened, action, candidate + 1);
    let expected = match opened[action][candidate] {
        Some(note) => before.insert(note.nullifier),
        None => before,
    };
    assert forall|e: Seq<u8>| after.contains(e) == expected.contains(e) by {
        if after.contains(e) {
            let (a, k) = choose|a: int, k: int|
                #[trigger] opens(opened, a, k, e) && (a < action || (a == action && k < candidate
                    + 1));
            if a == action && k == candidate {
            } else {
                assert(opens(opened, a, k, e) && (a < action || (a == action && k < candidate)));
            }
        }
        if before.contains(e) {
            let (a, k) = choose|a: int, k: int|
                #[trigger] opens(opened, a, k, e) && (a < action || (a == action && k
                    < candidate));
            assert(opens(opened, a, k, e) && (a < action || (a == action && k < candidate + 1)));
        }
        match opened[action][candidate] {
            Some(note) => {
                if note.nullifier == e {
                    assert(opens(opened, action, candidate, e));
                }
            },
            None => {},
        }
    }
    assert(after =~= expected);
}

/// The answers of one action, all taken, are the answers before the next.
proof fn lemma_opened_row(opened: Seq<Seq<Option<NoteView>>>, action: int)
    requires
        0 <= action < opened.len(),
    ensures
        opened_before(opened, action, opened[action].len() as int) == opened_before(
            opened,
            action + 1,
            0,
        ),
{
    let left = opened_before(opened, action, opened[action].len() as int);
    let right = opened_before(opened, action + 1, 0);
    assert forall|e: Seq<u8>| left.contains(e) == right.contains(e) by {
        if left.contains(e) {
            let (a, k) = choose|a: int, k: int|
                #[trigger] opens(opened, a, k, e) && (a < action || (a == action && k
                    < opened[action].len()));
            assert(opens(opened, a, k, e) && (a < action + 1 || (a == action + 1 && k < 0)));
        }
        if right.contains(e) {
            let (a, k) = choose|a: int, k: int|
                #[trigger] opens(opened, a, k, e) && (a < action + 1 || (a == action + 1 && k < 0));
            assert(opens(opened, a, k, e) && (a < action || (a == action && k
                < opened[action].len())));
        }
    }
    assert(left =~= right);
}

/// One more element in a list is one more element in the set of its encodings.
proof fn lemma_push_encoding(held: Seq<FieldElement>, element: FieldElement)
    ensures
        encodings(held.push(element)).to_set() == encodings(held).to_set().insert(element@),
{
    let before = encodings(held);
    let after = encodings(held.push(element));
    assert forall|e: Seq<u8>| after.to_set().contains(e) == before.to_set().insert(
        element@,
    ).contains(e) by {
        if after.contains(e) {
            let i = choose|i: int| 0 <= i < after.len() && after[i] == e;
            if i < held.len() {
                assert(before[i] == e);
            }
        }
        if before.contains(e) {
            let i = choose|i: int| 0 <= i < before.len() && before[i] == e;
            assert(after[i] == e);
        }
        if e == element@ {
            assert(after[held.len() as int] == e);
        }
    }
    assert(after.to_set() =~= before.to_set().insert(element@));
}

/// If a ballot spends the nullifier of a note that a candidate has received,
/// then after that ballot a candidate note counts as spent.
pub proof fn lemma_candidate_note_spent(
    state: AuditView,
    ballot: BallotView,
    opened: Seq<Seq<Option<NoteView>>>,
    action: int,
)
    requires
        0 <= action < ballot.nullifiers.len(),
        state.candidate_nullifiers.contains(ballot.nullifiers[action]),
    ensures
        state.applied(ballot, opened).candidate_note_spent(),
{
    let e = ballot.nullifiers[action];
    lemma_applied_records(state.pool, ballot, action);
    let after = state.applied(ballot, opened);
    assert(after.candidate_nullifiers.contains(e) && after.pool.nullifiers.contains(e));
}

/// A candidate note that counts as spent still does after any further ballot.
pub proof fn lemma_spent_stays(state: AuditView, ballot: BallotView, opened: Seq<Seq<Option<NoteView>>>)
    requires
        state.candidate_note_spent(),
    ensures
        state.applied(ballot, opened).candidate_note_spent(),
{
    let e = choose|e: Seq<u8>|
        state.candidate_nullifiers.contains(e) && state.pool.nullifiers.contains(e);
    let after = state.applied(ballot, opened);
    assert(after.candidate_nullifiers.contains(e) && after.pool.nullifiers.contains(e));
}

/// If, in a run of accepted ballots, a candidate finds a note in one ballot and
/// a later ballot spends that note's nullifier, then at the end of the run a
/// candidate note counts as spent, and `finish` answers `CandidateNoteSpent`.
pub proof fn lemma_run_candidate_note_spent(
    state: AuditView,
    ballots: Seq<BallotView>,
    opened: Seq<Seq<Seq<Option<NoteView>>>>,
    earlier: int,
    later: int,
    action: int,
)
    requires
        ballots.len() == opened.len(),
        0 <= earlier < later < ballots.len(),
        0 <= action < ballots[later].nullifiers.len(),
        opened_nullifiers(opened[earlier]).contains(ballots[later].nullifiers[action]),
    ensures
        state.run(ballots, opened).candidate_note_spent(),
    decreases ballots.len(),
{
    let e = ballots[later].nullifiers[action];
    let before_last = state.run(ballots.drop_last(), opened.drop_last());
    if later == ballots.len() - 1 {
        lemma_run_keeps(state, ballots.drop_last(), opened.drop_last(), earlier);
        assert(opened.drop_last()[earlier] == opened[earlier]);
        assert(ballots.last() == ballots[later]);
        assert(before_last.candidate_nullifiers.contains(e));
        lemma_candidate_note_spent(before_last, ballots.last(), opened.last(), action);
    } else {
        lemma_run_candidate_note_spent(
            state,
            ballots.drop_last(),
            opened.drop_last(),
            earlier,
            later,
            action,
        );
        assert(ballots.drop_last()[later] == ballots[later]);
        assert(opened.drop_last()[earlier] == opened[earlier]);
        lemma_spent_stays(before_last, ballots.last(), opened.last());
    }
}

/// What a candidate found in a ballot of a run is still remembered at the end
/// of the run.
pub proof fn lemma_run_keeps(
    state: AuditView,
    ballots: Seq<BallotView>,
    opened: Seq<Seq<Seq<Option<NoteView>>>>,
    index: int,
)
    requires
        ballots.len() == opened.len(),
        0 <= index < ballots.len(),
    ensures
        forall|e: Seq<u8>|
            opened_nullifiers(opened[index]).contains(e) ==> state.run(
                ballots,
                opened,
            ).candidate_nullifiers.contains(e),
    decreases ballots.len(),
{
    let before_last = state.run(ballots.drop_last(), opened.drop_last());
    assert(state.run(ballots, opened) == before_last.applied(ballots.last(), opened.last()));
    if index < ballots.len() - 1 {
        lemma_run_keeps(state, ballots.drop_last(), opened.drop_last(), index);
        assert(opened.drop_last()[index] == opened[index]);
    } else {
        assert(opened.last() == opened[index]);
    }
}

/// When every ballot of an audit has passed, the state at the end is the state
/// after the ballots have been applied in turn.
pub proof fn lemma_audited_run(
    state: AuditView,
    ballots: Seq<BallotView>,
    opened: Seq<Seq<Seq<Option<NoteView>>>>,
    verified: Seq<bool>,
    upto: int,
)
    requires
        0 <= upto <= ballots.len(),
        ballots.len() == opened.len(),
        audited(state, ballots, opened, verified, upto) is Ok,
    ensures
        audited(state, ballots, opened, verified, upto) == Ok::<AuditView, VoteError>(
            state.run(ballots.take(upto), opened.take(upto)),
        ),
    decreases upto,
{
    if upto > 0 {
        lemma_audited_run(state, ballots, opened, verified, upto - 1);
        assert(ballots.take(upto).drop_last() =~= ballots.take(upto - 1));
        assert(opened.take(upto).drop_last() =~= opened.take(upto - 1));
        assert(ballots.take(upto).last() == ballots[upto - 1]);
        assert(opened.take(upto).last() == opened[upto - 1]);
    }
}

/// When every ballot of an audit has passed, the commitment root at the end is
/// the root of the tree built from nothing over the leaves that were there and
/// the commitments of all the ballots, in order.
pub proof fn lemma_audited_root(
    state: AuditView,
    leaves: Seq<Seq<u8>>,
    ballots: Seq<BallotView>,
    opened: Seq<Seq<Seq<Option<NoteView>>>>,
    verified: Seq<bool>,
    upto: int,
)
    requires
        state.pool.frontier.represents(leaves),
        leaves.len() <= capacity(),
        0 <= upto <= ballots.len(),
        audited(state, ballots, opened, verified, upto) is Ok,
    ensures
        ({
            let end = audited(state, ballots, opened, verified, upto)->Ok_0;
            let all = leaves + all_commitments(ballots.take(upto));
            &&& all.len() <= capacity()
            &&& end.pool.frontier.represents(all)
            &&& end.pool.frontier.root() == tree_root(all)
        }),
    decreases upto,
{
    if upto <= 0 {
        assert(leaves + all_commitments(ballots.take(upto)) =~= leaves);
        lemma_root_of_tree(state.pool.frontier, leaves);
    } else {
        lemma_audited_root(state, leaves, ballots, opened, verified, upto - 1);
        let earlier = audited(state, ballots, opened, verified, upto - 1)->Ok_0;
        let before = leaves + all_commitments(ballots.take(upto - 1));
        lemma_applied_root(earlier.pool, before, ballots[upto - 1]);
        assert(ballots.take(upto).drop_last() =~= ballots.take(upto - 1));
        assert(ballots.take(upto).last() == ballots[upto - 1]);
        assert(before + ballots[upto - 1].commitments =~= leaves + all_commitments(
            ballots.take(upto),
        ));
    }
}

/// If a candidate finds a note in one ballot of an audit and a later ballot
/// spends that note's nullifier, then the audit cannot end well: where every
/// ballot passes, a candidate note counts as spent at the end.
pub proof fn lemma_audited_candidate_note_spent(
    state: AuditView,
    ballots: Seq<BallotView>,
    opened: Seq<Seq<Seq<Option<NoteView>>>>,
    verified: Seq<bool>,
    earlier: int,
    later: int,
    action: int,
)
    requires
        ballots.len() == opened.len(),
        0 <= earlier < later < ballots.len(),
        0 <= action < ballots[later].nullifiers.len(),
        opened_nullifiers(opened[earlier]).contains(ballots[later].nullifiers[action]),
        audited(state, ballots, opened, verified, ballots.len() as int) is Ok,
    ensures
        audited(
            state,
            ballots,
            opened,
            verified,
            ballots.len() as int,
        )->Ok_0.candidate_note_spent(),
{
    lemma_audited_run(state, ballots, opened, verified, ballots.len() as int);
    assert(ballots.take(ballots.len() as int) =~= ballots);
    assert(opened.take(opened.len() as int) =~= opened);
    lemma_run_candidate_note_spent(state, ballots, opened, earlier, later, action);
}

} // verus!
