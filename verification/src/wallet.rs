//! A voter's side of an election: the pool as the voter has followed it, the
//! notes that the voter's key has opened, and the ballots taken in so far.

use crate::ballot::{Ballot, BallotView, Note, NoteView};
use crate::election::Election;
use crate::element::{encodings, FieldElement};
use crate::error::VoteError;
use crate::keys::Scope;
use crate::frontier::{lemma_incremental_root, lemma_root_of_tree, Frontier, FrontierView};
use crate::merkle::{capacity, merkle_root, tree_root};
use crate::pool::{
    all_commitments, lemma_applied_root, lemma_replay_stays_failed, Pool, PoolView,
};
use vstd::prelude::*;

verus! {

/// A note that the voter's key has opened.
#[derive(Clone, Copy, Debug)]
pub struct OwnedNote {
    /// The place of the note's commitment in the tree.
    pub position: u32,
    /// The height of the ballot that created the note.
    pub height: u32,
    /// The hash of the ballot that created the note.
    pub txid: [u8; 32],
    pub value: u64,
    /// The nullifier that shows when the note is spent.
    pub nullifier: FieldElement,
    /// The height of the ballot that spent the note, if one has.
    pub spent: Option<u32>,
    /// The line of addresses that the note was sent to.
    pub scope: Scope,
}

/// A note of the voter as plain values.
pub struct OwnedNoteView {
    pub position: nat,
    pub height: nat,
    pub txid: Seq<u8>,
    pub value: nat,
    pub nullifier: Seq<u8>,
    pub spent: Option<nat>,
    pub scope: Scope,
}

impl View for OwnedNote {
    type V = OwnedNoteView;

    open spec fn view(&self) -> OwnedNoteView {
        OwnedNoteView {
            position: self.position as nat,
            height: self.height as nat,
            txid: self.txid@,
            value: self.value as nat,
            nullifier: self.nullifier@,
            spent: match self.spent {
                Some(height) => Some(height as nat),
                None => None,
            },
            scope: self.scope,
        }
    }
}

/// A ballot that has been taken in: its height and the hash that identifies it.
#[derive(Clone, Copy, Debug)]
pub struct BallotRecord {
    pub height: u32,
    pub hash: [u8; 32],
}

/// A ballot taken in, as plain values.
pub struct BallotRecordView {
    pub height: nat,
    pub hash: Seq<u8>,
}

impl View for BallotRecord {
    type V = BallotRecordView;

    open spec fn view(&self) -> BallotRecordView {
        BallotRecordView { height: self.height as nat, hash: self.hash@ }
    }
}

/// A ballot as the wallet's file holds it: the height at which it was taken
/// in, and the ballot.
#[derive(Clone, Debug)]
pub struct StoredBallot {
    pub height: u32,
    pub ballot: Ballot,
}

/// The ballots of a stored list as plain values, in order.
pub open spec fn stored_views(stored: Seq<StoredBallot>) -> Seq<BallotView> {
    Seq::new(stored.len(), |i: int| stored[i].ballot@)
}

/// The heights and hashes of a stored list, in order.
pub open spec fn stored_records(stored: Seq<StoredBallot>) -> Seq<BallotRecordView> {
    Seq::new(
        stored.len(),
        |i: int| BallotRecordView { height: stored[i].height as nat, hash: stored[i].ballot@.sighash },
    )
}

/// How many of the commitments listed were there before the first ballot: all
/// but those that the ballots brought.
pub open spec fn history_len(commitments: Seq<Seq<u8>>, ballots: Seq<BallotView>) -> int {
    commitments.len() - all_commitments(ballots).len()
}

/// Whether a list of commitments and a list of ballots belong together: the
/// list ends with the commitments of the ballots, in order, and before them
/// stands the history of the pool, which is not empty and fits in the tree.
pub open spec fn belong_together(commitments: Seq<Seq<u8>>, ballots: Seq<BallotView>) -> bool {
    let base = history_len(commitments, ballots);
    &&& 0 < base <= capacity()
    &&& commitments.skip(base) == all_commitments(ballots)
}

/// The notes of a list as plain values, in order.
pub open spec fn note_views(notes: Seq<OwnedNote>) -> Seq<OwnedNoteView> {
    Seq::new(notes.len(), |i: int| notes[i]@)
}

/// The ballots of a list as plain values, in order.
pub open spec fn record_views(records: Seq<BallotRecord>) -> Seq<BallotRecordView> {
    Seq::new(records.len(), |i: int| records[i]@)
}

/// What the voter's key found in the actions of a ballot, as plain values.
pub open spec fn found_view(mine: Seq<Option<Note>>) -> Seq<Option<NoteView>> {
    Seq::new(
        mine.len(),
        |i: int|
            match mine[i] {
                Some(note) => Some(note@),
                None => None,
            },
    )
}

/// The notes with every note of nullifier `nullifier` marked as spent at
/// `height`.
pub open spec fn marked(notes: Seq<OwnedNoteView>, height: nat, nullifier: Seq<u8>) -> Seq<
    OwnedNoteView,
> {
    Seq::new(
        notes.len(),
        |i: int|
            if notes[i].nullifier == nullifier {
                OwnedNoteView { spent: Some(height), ..notes[i] }
            } else {
                notes[i]
            },
    )
}

/// The note that the voter's key found in action `action` of a ballot, where
/// `base` commitments were in the tree before the ballot. Votes are sent to
/// addresses of the external line.
pub open spec fn created(
    ballot: BallotView,
    found: NoteView,
    height: nat,
    base: nat,
    action: int,
) -> OwnedNoteView {
    OwnedNoteView {
        position: (base + action) as nat,
        height,
        txid: ballot.sighash,
        value: found.value,
        nullifier: found.nullifier,
        spent: None,
        scope: Scope::External,
    }
}

/// The notes after the first `actions` actions of a ballot: for each action in
/// turn, the notes that the action spends are marked, and then the note that the
/// voter's key found in it, if any, is added.
pub open spec fn ingested(
    notes: Seq<OwnedNoteView>,
    ballot: BallotView,
    mine: Seq<Option<NoteView>>,
    height: nat,
    base: nat,
    actions: int,
) -> Seq<OwnedNoteView>
    decreases actions,
{
    if actions <= 0 {
        notes
    } else {
        let earlier = marked(
            ingested(notes, ballot, mine, height, base, actions - 1),
            height,
            ballot.nullifiers[actions - 1],
        );
        match mine[actions - 1] {
            Some(found) => earlier.push(created(ballot, found, height, base, actions - 1)),
            None => earlier,
        }
    }
}

/// The values of the notes that have not been spent, added up.
pub open spec fn unspent_total(notes: Seq<OwnedNoteView>) -> nat
    decreases notes.len(),
{
    if notes.len() == 0 {
        0
    } else {
        unspent_total(notes.drop_last()) + if notes.last().spent is None {
            notes.last().value
        } else {
            0
        }
    }
}

/// A wallet as plain values.
pub struct WalletView {
    /// The pool that the ballots are checked against.
    pub pool: PoolView,
    /// Every commitment of the tree, in order.
    pub commitments: Seq<Seq<u8>>,
    /// The voter's notes, in the order in which they were found.
    pub notes: Seq<OwnedNoteView>,
    /// The ballots taken in, in order.
    pub ballots: Seq<BallotRecordView>,
}

impl WalletView {
    /// The state after an accepted ballot: the pool has taken it in, its
    /// commitments are added to the list, and the voter's notes are brought up
    /// to date.
    pub open spec fn applied(
        self,
        height: nat,
        ballot: BallotView,
        mine: Seq<Option<NoteView>>,
    ) -> WalletView {
        WalletView {
            pool: self.pool.applied(ballot),
            commitments: self.commitments + ballot.commitments,
            notes: ingested(
                self.notes,
                ballot,
                mine,
                height,
                self.commitments.len(),
                ballot.nullifiers.len() as int,
            ),
            ballots: self.ballots,
        }
    }
}

/// A voter's wallet.
#[derive(Debug)]
pub struct Wallet {
    pool: Pool,
    cmxs: Vec<FieldElement>,
    notes: Vec<OwnedNote>,
    ballots: Vec<BallotRecord>,
}

impl View for Wallet {
    type V = WalletView;

    closed spec fn view(&self) -> WalletView {
        WalletView {
            pool: self.pool@,
            commitments: encodings(self.cmxs@),
            notes: note_views(self.notes@),
            ballots: record_views(self.ballots@),
        }
    }
}

impl Wallet {
    /// The frontier that the pool keeps is the right edge of the tree over the
    /// commitments that the wallet lists.
    pub closed spec fn well_formed(&self) -> bool {
        &&& self.pool@.frontier.represents(encodings(self.cmxs@))
        &&& self.cmxs.len() <= capacity()
    }

    /// What being well formed means for the view.
    pub proof fn lemma_well_formed(&self)
        requires
            self.well_formed(),
        ensures
            self@.pool.frontier.represents(self@.commitments),
            self@.pool.frontier.root() == tree_root(self@.commitments),
            0 < self@.commitments.len() <= capacity(),
    {
        lemma_root_of_tree(self@.pool.frontier, self@.commitments);
    }

    /// A wallet for `election` whose tree holds `cmxs`, with no note and no
    /// ballot yet. Without a commitment there is no tree to follow, and more
    /// commitments than the tree holds do not make one either.
    pub fn new(election: &Election, cmxs: Vec<FieldElement>) -> (r: Result<Wallet, VoteError>)
        ensures
            r is Ok <==> 0 < cmxs.len() <= capacity(),
            r matches Ok(wallet) ==> wallet.well_formed() && wallet@.commitments == encodings(cmxs@)
                && wallet@.notes.len() == 0 && wallet@.ballots.len() == 0 && wallet@.pool
                == PoolView::start(
                election.nf@,
                election.cmx@,
                FrontierView::single(cmxs[0]@).append_all(encodings(cmxs@).drop_first()),
            ),
            r matches Err(e) ==> e == VoteError::FrontierCorrupt,
    {
        match Frontier::from_leaves(&cmxs) {
            Some(frontier) => Ok(
                Wallet {
                    pool: Pool::new(election.nf, election.cmx, frontier),
                    cmxs,
                    notes: Vec::new(),
                    ballots: Vec::new(),
                },
            ),
            None => Err(VoteError::FrontierCorrupt),
        }
    }

    /// Takes up a wallet from what its file holds: every commitment listed, the
    /// voter's notes, and the ballots taken in so far. The commitments and the
    /// ballots must belong together, else the file is corrupt. The pool is
    /// brought to where it stood by checking and applying the ballots again, in
    /// order, on top of the history; a ballot that now fails a check ends the
    /// restoring with its error. The notes are taken as they are listed.
    pub fn restore(
        election: &Election,
        cmxs: Vec<FieldElement>,
        notes: Vec<OwnedNote>,
        stored: &Vec<StoredBallot>,
    ) -> (r: Result<Wallet, VoteError>)
        ensures
            !belong_together(encodings(cmxs@), stored_views(stored@)) ==> (r matches Err(e) && e
                == VoteError::FrontierCorrupt),
            belong_together(encodings(cmxs@), stored_views(stored@)) ==> match PoolView::start(
                election.nf@,
                election.cmx@,
                FrontierView::built(
                    encodings(cmxs@).take(
                        history_len(encodings(cmxs@), stored_views(stored@)),
                    ),
                ),
            ).replayed(stored_views(stored@), stored.len() as int) {
                Err(e) => (r matches Err(f) && f == e),
                Ok(pool) => (r matches Ok(wallet) && wallet.well_formed() && wallet@
                    == (WalletView {
                    pool,
                    commitments: encodings(cmxs@),
                    notes: note_views(notes@),
                    ballots: stored_records(stored@),
                })),
            },
    {
        let ghost listed = encodings(cmxs@);
        let ghost views = stored_views(stored@);
        let brought = brought_commitments(stored);
        if brought.len() >= cmxs.len() {
            return Err(VoteError::FrontierCorrupt);
        }
        let base: usize = cmxs.len() - brought.len();
        let mut j: usize = 0;
        while j < brought.len()
            invariant
                j <= brought.len(),
                base + brought.len() == cmxs.len(),
                listed == encodings(cmxs@),
                views == stored_views(stored@),
                encodings(brought@) == all_commitments(views),
                forall|k: int| 0 <= k < j ==> listed[base + k] == encodings(brought@)[k],
            decreases brought.len() - j,
        {
            if !cmxs[base + j].same(&brought[j]) {
                assert(listed.skip(base as int)[j as int] != all_commitments(views)[j as int]);
                return Err(VoteError::FrontierCorrupt);
            }
            j = j + 1;
        }
        assert(listed.skip(base as int) =~= all_commitments(views));
        let mut history: Vec<FieldElement> = Vec::new();
        let mut k: usize = 0;
        while k < base
            invariant
                k <= base <= cmxs.len(),
                history@ =~= cmxs@.take(k as int),
            decreases base - k,
        {
            history.push(cmxs[k]);
            k = k + 1;
        }
        assert(encodings(history@) =~= listed.take(base as int));
        let frontier = match Frontier::from_leaves(&history) {
            Some(frontier) => frontier,
            None => {
                return Err(VoteError::FrontierCorrupt);
            },
        };
        let mut pool = Pool::new(election.nf, election.cmx, frontier);
        let ghost start = pool@;
        let mut records: Vec<BallotRecord> = Vec::new();
        let mut i: usize = 0;
        proof {
            assert(views.take(0) =~= Seq::<BallotView>::empty());
            assert(listed.take(base as int) + all_commitments(views.take(0)) =~= listed.take(
                base as int,
            ));
        }
        while i < stored.len()
            invariant
                i <= stored.len(),
                base <= cmxs.len(),
                listed == encodings(cmxs@),
                views == stored_views(stored@),
                belong_together(listed, views),
                base == history_len(listed, views),
                start == PoolView::start(
                    election.nf@,
                    election.cmx@,
                    FrontierView::built(listed.take(base as int)),
                ),
                records.len() == i,
                forall|n: int|
                    0 <= n < i ==> (#[trigger] records[n])@ == stored_records(stored@)[n],
                start.replayed(views, i as int) == Ok::<PoolView, VoteError>(pool@),
                pool@.frontier.represents(
                    listed.take(base as int) + all_commitments(views.take(i as int)),
                ),
            decreases stored.len() - i,
        {
            let ghost before = pool@;
            let ghost leaves = listed.take(base as int) + all_commitments(views.take(i as int));
            let ballot = &stored[i].ballot;
            assert(views[i as int] == ballot@);
            if let Err(e) = pool.apply(ballot, true) {
                proof {
                    lemma_replay_stays_failed(start, views, i + 1, stored.len() as int);
                }
                return Err(e);
            }
            proof {
                lemma_applied_root(before, leaves, ballot@);
                assert(views.take(i + 1).drop_last() =~= views.take(i as int));
                assert(views.take(i + 1).last() == ballot@);
                assert(leaves + ballot@.commitments =~= listed.take(base as int)
                    + all_commitments(views.take(i + 1)));
            }
            records.push(BallotRecord { height: stored[i].height, hash: ballot.sighash });
            i = i + 1;
        }
        proof {
            assert(views.take(stored.len() as int) =~= views);
            assert(listed.take(base as int) + listed.skip(base as int) =~= listed);
            assert(record_views(records@) =~= stored_records(stored@));
        }
        // The last leaf stands at a place that fits in 32 bits, so the list fits in the tree.
        let last = pool.position();
        assert(cmxs.len() == last + 1);
        Ok(Wallet { pool, cmxs, notes, ballots: records })
    }

    /// The pool as the wallet has it.
    pub fn pool(&self) -> (r: &Pool)
        ensures
            r@ == self@.pool,
    {
        &self.pool
    }

    /// The voter's notes.
    pub fn notes(&self) -> (r: &Vec<OwnedNote>)
        ensures
            note_views(r@) == self@.notes,
    {
        &self.notes
    }

    /// Adds a note that the voter's key opened outside any ballot.
    pub fn store_note(&mut self, note: OwnedNote)
        ensures
            final(self).well_formed() == old(self).well_formed(),
            final(self)@ == (WalletView { notes: old(self)@.notes.push(note@), ..old(self)@ }),
    {
        let ghost before = self.notes@;
        self.notes.push(note);
        assert(note_views(self.notes@) =~= note_views(before).push(note@));
    }

    /// Marks every note of nullifier `dnf` as spent at `height`.
    pub fn mark_spent(&mut self, height: u32, dnf: &FieldElement)
        ensures
            final(self).well_formed() == old(self).well_formed(),
            final(self)@ == (WalletView {
                notes: marked(old(self)@.notes, height as nat, dnf@),
                ..old(self)@
            }),
    {
        let ghost before = note_views(self.notes@);
        let mut i: usize = 0;
        while i < self.notes.len()
            invariant
                i <= self.notes.len(),
                self.notes.len() == before.len(),
                self.pool == old(self).pool,
                self.cmxs == old(self).cmxs,
                self.ballots == old(self).ballots,
                forall|j: int|
                    0 <= j < i ==> (#[trigger] self.notes[j])@ == marked(
                        before,
                        height as nat,
                        dnf@,
                    )[j],
                forall|j: int| i <= j < before.len() ==> (#[trigger] self.notes[j])@ == before[j],
            decreases self.notes.len() - i,
        {
            let note = self.notes[i];
            if note.nullifier.same(dnf) {
                self.notes[i] =
                OwnedNote {
                    position: note.position,
                    height: note.height,
                    txid: note.txid,
                    value: note.value,
                    nullifier: note.nullifier,
                    spent: Some(height),
                    scope: note.scope,
                };
            }
            i = i + 1;
        }
        assert(note_views(self.notes@) =~= marked(before, height as nat, dnf@));
    }

    /// Checks the ballot of height `height` and, if nothing is wrong with it,
    /// takes it in: the pool applies it, its commitments are listed, and for
    /// each action in turn the notes that it spends are marked and the note
    /// that the voter's key found in it, if any, is added at the place of the
    /// action's commitment. `mine` holds, for each action, what the voter's key
    /// found in it. A ballot that fails a check changes nothing.
    pub fn handle_ballot(
        &mut self,
        height: u32,
        ballot: &Ballot,
        mine: &Vec<Option<Note>>,
        verified: bool,
    ) -> (r: Result<(), VoteError>)
        requires
            old(self).well_formed(),
            mine.len() == ballot.actions.len(),
        ensures
            final(self).well_formed(),
            r == old(self)@.pool.check(ballot@, verified),
            r is Ok ==> final(self)@ == old(self)@.applied(
                height as nat,
                ballot@,
                found_view(mine@),
            ),
            r is Err ==> final(self)@ == old(self)@,
    {
        if let Err(e) = self.pool.check(ballot, verified) {
            return Err(e);
        }
        let ghost before = self@;
        let ghost commitments = ballot@.commitments;
        let ghost found = found_view(mine@);
        let base: usize = self.cmxs.len();
        proof {
            lemma_incremental_root(before.pool.frontier, before.commitments, commitments);
            assert(commitments.take(0) =~= Seq::<Seq<u8>>::empty());
            assert(before.commitments + commitments.take(0) =~= before.commitments);
        }
        self.pool.append_ballot(ballot);
        let n = ballot.actions.len();
        let mut a: usize = 0;
        while a < n
            invariant
                a <= n,
                n == ballot.actions.len(),
                mine.len() == n,
                commitments == ballot@.commitments,
                found == found_view(mine@),
                base == before.commitments.len(),
                base + n <= capacity(),
                self.pool@ == before.pool.applied(ballot@),
                self@.ballots == before.ballots,
                encodings(self.cmxs@) == before.commitments + commitments.take(a as int),
                self@.notes == ingested(
                    before.notes,
                    ballot@,
                    found,
                    height as nat,
                    base as nat,
                    a as int,
                ),
            decreases n - a,
        {
            let action = ballot.actions[a];
            assert(ballot@.nullifiers[a as int] == action.nullifier@);
            self.mark_spent(height, &action.nullifier);
            match mine[a] {
                Some(note) => {
                    let ghost held = self.notes@;
                    let opened = OwnedNote {
                        position: (base + a) as u32,
                        height,
                        txid: ballot.sighash,
                        value: note.value,
                        nullifier: note.nullifier,
                        spent: None,
                        scope: Scope::External,
                    };
                    self.notes.push(opened);
                    proof {
                        assert(found[a as int] == Some(note@));
                        assert(opened@ == created(
                            ballot@,
                            note@,
                            height as nat,
                            base as nat,
                            a as int,
                        ));
                        assert(note_views(self.notes@) =~= note_views(held).push(opened@));
                    }
                },
                None => {
                    assert(found[a as int] is None);
                },
            }
            let ghost listed = self.cmxs@;
            self.cmxs.push(action.commitment);
            proof {
                assert(encodings(listed.push(action.commitment)) =~= encodings(listed).push(
                    action.commitment@,
                ));
                assert(commitments.take(a + 1) =~= commitments.take(a as int).push(
                    action.commitment@,
                ));
                assert(encodings(self.cmxs@) =~= before.commitments + commitments.take(a + 1));
            }
            a = a + 1;
        }
        proof {
            assert(commitments.take(n as int) =~= commitments);
        }
        Ok(())
    }

    /// Lists a ballot as taken in.
    pub fn store_ballot(&mut self, height: u32, ballot: &Ballot)
        ensures
            final(self).well_formed() == old(self).well_formed(),
            final(self)@ == (WalletView {
                ballots: old(self)@.ballots.push(
                    BallotRecordView { height: height as nat, hash: ballot@.sighash },
                ),
                ..old(self)@
            }),
    {
        let ghost before = self.ballots@;
        let record = BallotRecord { height, hash: ballot.sighash };
        self.ballots.push(record);
        assert(record_views(self.ballots@) =~= record_views(before).push(record@));
    }

    /// What the voter can still spend: the values of the unspent notes, added
    /// up; or `AmountOverflow` if the sum leaves 64 bits.
    pub fn get_available_balance(&self) -> (r: Result<u64, VoteError>)
        ensures
            match r {
                Ok(balance) => balance == unspent_total(self@.notes),
                Err(e) => e == VoteError::AmountOverflow && unspent_total(self@.notes) > u64::MAX,
            },
    {
        let ghost notes = note_views(self.notes@);
        let mut balance: u64 = 0;
        let mut i: usize = 0;
        proof {
            assert(notes.take(0) =~= Seq::<OwnedNoteView>::empty());
        }
        while i < self.notes.len()
            invariant
                i <= self.notes.len(),
                notes == note_views(self.notes@),
                balance == unspent_total(notes.take(i as int)),
            decreases self.notes.len() - i,
        {
            let note = self.notes[i];
            proof {
                assert(notes.take(i + 1).drop_last() =~= notes.take(i as int));
                assert(notes.take(i + 1).last() == note@);
            }
            if note.spent.is_none() {
                match balance.checked_add(note.value) {
                    Some(sum) => {
                        balance = sum;
                    },
                    None => {
                        proof {
                            lemma_unspent_total_grows(notes, i + 1);
                        }
                        return Err(VoteError::AmountOverflow);
                    },
                }
            }
            i = i + 1;
        }
        proof {
            assert(notes.take(self.notes.len() as int) =~= notes);
        }
        Ok(balance)
    }

    /// Every commitment of the tree, in order.
    pub fn commitments(&self) -> (r: &Vec<FieldElement>)
        ensures
            encodings(r@) == self@.commitments,
    {
        &self.cmxs
    }

    /// The ballots taken in, in order.
    pub fn ballots(&self) -> (r: &Vec<BallotRecord>)
        ensures
            record_views(r@) == self@.ballots,
    {
        &self.ballots
    }

    /// The root of the tree over all the commitments listed, computed from the
    /// list. It is the root that the pool's frontier gives.
    pub fn commitment_root(&self) -> (r: FieldElement)
        requires
            self.well_formed(),
        ensures
            r@ == tree_root(self@.commitments),
            r@ == self@.pool.frontier.root(),
    {
        proof {
            self.lemma_well_formed();
        }
        merkle_root(&self.cmxs)
    }

    /// The height of the next ballot to take in, when the service reports
    /// `reported` ballots: the one after those listed here, unless all that are
    /// reported are listed.
    pub fn next_height(&self, reported: u32) -> (r: Option<u32>)
        ensures
            r == if self@.ballots.len() < reported {
                Some((self@.ballots.len() + 1) as u32)
            } else {
                None
            },
    {
        if self.ballots.len() < reported as usize {
            Some((self.ballots.len() + 1) as u32)
        } else {
            None
        }
    }
}

/// The commitments that the ballots of a stored list brought, in order.
fn brought_commitments(stored: &Vec<StoredBallot>) -> (r: Vec<FieldElement>)
    ensures
        encodings(r@) == all_commitments(stored_views(stored@)),
{
    let ghost views = stored_views(stored@);
    let mut brought: Vec<FieldElement> = Vec::new();
    let mut i: usize = 0;
    proof {
        assert(views.take(0) =~= Seq::<BallotView>::empty());
        assert(encodings(brought@) =~= all_commitments(views.take(0)));
    }
    while i < stored.len()
        invariant
            i <= stored.len(),
            views == stored_views(stored@),
            encodings(brought@) == all_commitments(views.take(i as int)),
        decreases stored.len() - i,
    {
        let ballot = &stored[i].ballot;
        let ghost earlier = encodings(brought@);
        let mut a: usize = 0;
        assert(views[i as int] == ballot@);
        assert(earlier + ballot@.commitments.take(0) =~= earlier);
        while a < ballot.actions.len()
            invariant
                a <= ballot.actions.len(),
                encodings(brought@) == earlier + ballot@.commitments.take(a as int),
            decreases ballot.actions.len() - a,
        {
            let ghost held = brought@;
            brought.push(ballot.actions[a].commitment);
            proof {
                assert(encodings(held.push(ballot.actions[a as int].commitment)) =~= encodings(
                    held,
                ).push(ballot.actions[a as int].commitment@));
                assert(ballot@.commitments.take(a + 1) =~= ballot@.commitments.take(
                    a as int,
                ).push(ballot.actions[a as int].commitment@));
                assert(encodings(brought@) =~= earlier + ballot@.commitments.take(a + 1));
            }
            a = a + 1;
        }
        proof {
            assert(ballot@.commitments.take(ballot.actions.len() as int) =~= ballot@.commitments);
            assert(views.take(i + 1).drop_last() =~= views.take(i as int));
            assert(views.take(i + 1).last() == ballot@);
        }
        i = i + 1;
    }
    assert(views.take(stored.len() as int) =~= views);
    brought
}

/// The unspent total of the first notes is no more than that of all.
pub proof fn lemma_unspent_total_grows(notes: Seq<OwnedNoteView>, fewer: int)
    requires
        0 <= fewer <= notes.len(),
    ensures
        unspent_total(notes.take(fewer)) <= unspent_total(notes),
    decreases notes.len() - fewer,
{
    if fewer < notes.len() {
        lemma_unspent_total_grows(notes, fewer + 1);
        assert(notes.take(fewer + 1).drop_last() =~= notes.take(fewer));
    } else {
        assert(notes.take(fewer) =~= notes);
    }
}

} // verus!
