//! Sending a ballot to the mirrors of the service. The ballot counts as sent
//! when one mirror accepts it; the vote is written down once, at the first
//! acceptance, however many mirrors accept after that.

use crate::encoding::{hex_string, to_hex};
use crate::error::VoteError;
use vstd::prelude::*;
use vstd::string::StringExecFns;

verus! {

/// An entry of the voter's own log: the ballot sent, to whom the vote went and
/// how much of it.
#[derive(Clone, Debug, PartialEq, Eq)]
pub struct Vote {
    pub id: u32,
    pub hash: String,
    pub address: String,
    pub amount: u64,
}

/// An entry of the log as plain values.
pub struct VoteView {
    pub id: nat,
    pub hash: Seq<char>,
    pub address: Seq<char>,
    pub amount: nat,
}

impl View for Vote {
    type V = VoteView;

    open spec fn view(&self) -> VoteView {
        VoteView {
            id: self.id as nat,
            hash: self.hash@,
            address: self.address@,
            amount: self.amount as nat,
        }
    }
}

/// What came of sending the ballot to one mirror.
#[derive(Clone, Debug, PartialEq, Eq)]
pub enum Reply {
    /// The mirror accepted the ballot.
    Accepted,
    /// The mirror rejected the ballot; the text is what it said.
    Rejected(String),
    /// The mirror could not be reached or did not answer; the text says why.
    Failed(String),
}

/// What came of sending the ballot to one mirror, as plain values.
pub enum ReplyView {
    Accepted,
    Rejected(Seq<char>),
    Failed(Seq<char>),
}

impl View for Reply {
    type V = ReplyView;

    open spec fn view(&self) -> ReplyView {
        match self {
            Reply::Accepted => ReplyView::Accepted,
            Reply::Rejected(body) => ReplyView::Rejected(body@),
            Reply::Failed(why) => ReplyView::Failed(why@),
        }
    }
}

/// The replies of a list as plain values, in order.
pub open spec fn reply_views(replies: Seq<Reply>) -> Seq<ReplyView> {
    Seq::new(replies.len(), |i: int| replies[i]@)
}

/// The voter's log of votes sent, oldest first.
#[derive(Debug)]
pub struct VoteLog {
    votes: Vec<Vote>,
}

/// The entries of a list as plain values.
pub open spec fn vote_views(votes: Seq<Vote>) -> Seq<VoteView> {
    Seq::new(votes.len(), |i: int| votes[i]@)
}

impl View for VoteLog {
    type V = Seq<VoteView>;

    closed spec fn view(&self) -> Seq<VoteView> {
        vote_views(self.votes@)
    }
}

/// The entry that is written for a ballot when the log holds `held` entries.
pub open spec fn entry(held: nat, hash: Seq<char>, address: Seq<char>, amount: u64) -> VoteView {
    VoteView { id: held + 1, hash, address, amount: amount as nat }
}

impl VoteLog {
    /// The empty log.
    pub fn new() -> (r: VoteLog)
        ensures
            r@.len() == 0,
    {
        let votes: Vec<Vote> = Vec::new();
        assert(vote_views(votes@) =~= Seq::<VoteView>::empty());
        VoteLog { votes }
    }

    /// How many votes the log holds.
    pub fn len(&self) -> (r: usize)
        ensures
            r == self@.len(),
    {
        self.votes.len()
    }

    /// Writes a vote down. The entries are numbered from 1 in the order in
    /// which they are written; a log that holds as many entries as the numbers
    /// allow takes no more.
    pub fn store_vote(&mut self, hash: &str, address: &str, amount: u64) -> (r: Result<
        (),
        VoteError,
    >)
        ensures
            r is Ok <==> old(self)@.len() < u32::MAX,
            r is Ok ==> final(self)@ == old(self)@.push(
                entry(old(self)@.len(), hash@, address@, amount),
            ),
            r matches Err(e) ==> e is TransientIO && final(self)@ == old(self)@,
    {
        if self.votes.len() >= u32::MAX as usize {
            return Err(VoteError::TransientIO(String::from_str("the vote log is full")));
        }
        let ghost before = self.votes@;
        let id: u32 = (self.votes.len() + 1) as u32;
        let vote = Vote { id, hash: String::from_str(hash), address: String::from_str(address), amount };
        self.votes.push(vote);
        assert(vote_views(self.votes@) =~= vote_views(before).push(
            entry(before.len(), hash@, address@, amount),
        ));
        Ok(())
    }

    /// The votes written down, oldest first.
    pub fn fetch_votes(&self) -> (r: Vec<Vote>)
        ensures
            vote_views(r@) == self@,
    {
        let mut votes: Vec<Vote> = Vec::new();
        let mut i: usize = 0;
        while i < self.votes.len()
            invariant
                i <= self.votes.len(),
                votes.len() == i,
                forall|j: int| 0 <= j < i ==> (#[trigger] votes[j])@ == self.votes[j]@,
            decreases self.votes.len() - i,
        {
            let vote = &self.votes[i];
            votes.push(
                Vote {
                    id: vote.id,
                    hash: vote.hash.clone(),
                    address: vote.address.clone(),
                    amount: vote.amount,
                },
            );
            i = i + 1;
        }
        assert(vote_views(votes@) =~= vote_views(self.votes@));
        votes
    }
}

/// Whether some mirror accepted the ballot.
pub open spec fn accepted(replies: Seq<ReplyView>) -> bool {
    exists|i: int| 0 <= i < replies.len() && #[trigger] replies[i] is Accepted
}

/// Whether one of the first `upto` replies is an acceptance.
pub open spec fn accepted_before(replies: Seq<ReplyView>, upto: int) -> bool {
    exists|i: int| 0 <= i < upto && i < replies.len() && #[trigger] replies[i] is Accepted
}

/// What sending a ballot comes to.
pub enum Outcome {
    /// Some mirror accepted the ballot; the text is the ballot's hash.
    Sent(Seq<char>),
    /// No mirror accepted the ballot, and the last that answered otherwise
    /// rejected it; the text is what that mirror said.
    Rejected(Seq<char>),
    /// No mirror accepted the ballot, and the last that did not could not be
    /// reached; the text says why.
    Unreachable(Seq<char>),
}

/// The last failure among the first `upto` replies: what the last mirror that
/// did not accept said, or why it could not be reached. Where there is none,
/// it is a rejection without a reason.
pub open spec fn last_failure(replies: Seq<ReplyView>, upto: int) -> Outcome
    decreases upto,
{
    if upto <= 0 || upto > replies.len() {
        Outcome::Rejected(Seq::empty())
    } else {
        match replies[upto - 1] {
            ReplyView::Rejected(body) => Outcome::Rejected(body),
            ReplyView::Failed(why) => Outcome::Unreachable(why),
            ReplyView::Accepted => last_failure(replies, upto - 1),
        }
    }
}

/// What sending a ballot comes to, given one reply for each mirror: the
/// ballot's hash if some mirror accepted, whatever the others did; else the
/// last failure.
pub open spec fn outcome(replies: Seq<ReplyView>, sighash: Seq<u8>) -> Outcome {
    if accepted(replies) {
        Outcome::Sent(hex_string(sighash))
    } else {
        last_failure(replies, replies.len() as int)
    }
}

/// Whether `result` says what `outcome` is.
pub open spec fn reports(result: Result<String, VoteError>, outcome: Outcome) -> bool {
    match outcome {
        Outcome::Sent(hash) => result matches Ok(text) && text@ == hash,
        Outcome::Rejected(body) => result matches Err(VoteError::BroadcastFailed(text)) && text@
            == body,
        Outcome::Unreachable(why) => result matches Err(VoteError::TransientIO(text)) && text@
            == why,
    }
}

/// The log after a ballot has been sent: one entry more if some mirror
/// accepted the ballot, and the same log if none did.
pub open spec fn recorded(
    log: Seq<VoteView>,
    replies: Seq<ReplyView>,
    sighash: Seq<u8>,
    address: Seq<char>,
    amount: u64,
) -> Seq<VoteView> {
    if accepted(replies) {
        log.push(entry(log.len(), hex_string(sighash), address, amount))
    } else {
        log
    }
}

/// Sends a ballot, as far as deciding goes: `replies` holds what came of each
/// mirror, one reply for each, in the order in which the mirrors were tried.
/// The ballot counts as sent if some mirror accepted it; a mirror that did not
/// accept never turns that into a failure. The vote is written to `log` at the
/// first acceptance and at no other.
pub fn vote(
    replies: &Vec<Reply>,
    sighash: &[u8; 32],
    address: &str,
    amount: u64,
    log: &mut VoteLog,
) -> (r: Result<String, VoteError>)
    requires
        old(log)@.len() < u32::MAX,
    ensures
        reports(r, outcome(reply_views(replies@), sighash@)),
        r is Ok <==> accepted(reply_views(replies@)),
        final(log)@ == recorded(old(log)@, reply_views(replies@), sighash@, address@, amount),
{
    let ghost said = reply_views(replies@);
    let mut hash = String::new();
    let mut error = String::new();
    let mut unreachable = false;
    let mut success = false;
    let mut i: usize = 0;
    while i < replies.len()
        invariant
            i <= replies.len(),
            old(log)@.len() < u32::MAX,
            said == reply_views(replies@),
            success == accepted_before(said, i as int),
            success ==> hash@ == hex_string(sighash@),
            last_failure(said, i as int) == if unreachable {
                Outcome::Unreachable(error@)
            } else {
                Outcome::Rejected(error@)
            },
            log@ == if success {
                old(log)@.push(entry(old(log)@.len(), hex_string(sighash@), address@, amount))
            } else {
                old(log)@
            },
        decreases replies.len() - i,
    {
        assert(said[i as int] == replies[i as int]@);
        match &replies[i] {
            Reply::Accepted => {
                if !success {
                    hash = to_hex(sighash);
                    let stored = log.store_vote(hash.as_str(), address, amount);
                    assert(stored is Ok);
                }
                success = true;
            },
            Reply::Rejected(body) => {
                error = body.clone();
                unreachable = false;
                assert(accepted_before(said, i + 1) == accepted_before(said, i as int));
            },
            Reply::Failed(why) => {
                error = why.clone();
                unreachable = true;
                assert(accepted_before(said, i + 1) == accepted_before(said, i as int));
            },
        }
        i = i + 1;
    }
    assert(accepted_before(said, replies.len() as int) == accepted(said));
    if success {
        Ok(hash)
    } else if unreachable {
        Err(VoteError::TransientIO(error))
    } else {
        Err(VoteError::BroadcastFailed(error))
    }
}

/// However many mirrors accept a ballot, at most one entry is written for it;
/// and one is written exactly when some mirror accepted.
pub proof fn lemma_recorded_once(
    log: Seq<VoteView>,
    replies: Seq<ReplyView>,
    sighash: Seq<u8>,
    address: Seq<char>,
    amount: u64,
)
    ensures
        recorded(log, replies, sighash, address, amount).len() <= log.len() + 1,
        recorded(log, replies, sighash, address, amount).len() == log.len() + 1 <==> accepted(
            replies,
        ),
        recorded(log, replies, sighash, address, amount).take(log.len() as int) == log,
{
    assert(recorded(log, replies, sighash, address, amount).take(log.len() as int) =~= log);
}

/// The ballot counts as sent exactly when at least one mirror accepted it,
/// whether the other mirrors rejected it or could not be reached; and it
/// ends as unreachable only when no mirror accepted.
pub proof fn lemma_sent_iff_accepted(replies: Seq<ReplyView>, sighash: Seq<u8>)
    ensures
        outcome(replies, sighash) is Sent <==> accepted(replies),
        accepted(replies) ==> outcome(replies, sighash) == Outcome::Sent(hex_string(sighash)),
{
    lemma_last_failure_fails(replies, replies.len() as int);
}

/// The last failure is never a success.
pub proof fn lemma_last_failure_fails(replies: Seq<ReplyView>, upto: int)
    ensures
        !(last_failure(replies, upto) is Sent),
    decreases upto,
{
    if 0 < upto <= replies.len() {
        lemma_last_failure_fails(replies, upto - 1);
    }
}

} // verus!
