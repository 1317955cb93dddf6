//! Following the service: which mirror to ask, what to ask it for, and which
//! ballot to take in next.

use crate::ballot::{Ballot, Note};
use crate::error::VoteError;
use crate::text::{decimal, decimal_digits};
use crate::wallet::{found_view, BallotRecordView, Wallet, WalletView};
use vstd::prelude::*;
use vstd::string::StringExecFns;

verus! {

/// `rand::random_range` of `rand` on the range from 0 up to, not including,
/// `n`: some number of that range, a different one from call to call. An empty
/// range is not allowed.
#[verifier::external_body]
fn random_index(n: usize) -> (r: usize)
    requires
        n > 0,
    ensures
        r < n,
{
    rand::random_range(0..n)
}

/// The mirror at place `index`, if there is one.
pub fn mirror_at(urls: &Vec<String>, index: usize) -> (r: Option<&String>)
    ensures
        r == if index < urls.len() {
            Some(&urls[index as int])
        } else {
            None
        },
{
    if index < urls.len() {
        Some(&urls[index])
    } else {
        None
    }
}

/// One of the mirrors, picked at random; none if there is no mirror.
pub fn choose_mirror(urls: &Vec<String>) -> (r: Option<&String>)
    ensures
        r is Some <==> urls.len() > 0,
        r matches Some(url) ==> exists|i: int| 0 <= i < urls.len() && urls[i] == *url,
{
    if urls.len() == 0 {
        return None;
    }
    mirror_at(urls, random_index(urls.len()))
}

/// Where a mirror says how many ballots it holds.
pub fn num_ballots_url(base: &str) -> (r: String)
    ensures
        r@ == base@ + "/num_ballots"@,
{
    String::from_str(base).concat("/num_ballots")
}

/// Where a mirror hands out the ballot of height `height`.
pub fn ballot_url(base: &str, height: u32) -> (r: String)
    ensures
        r@ == base@ + "/ballot/height/"@ + decimal_digits(height as nat),
{
    let number = decimal(height);
    String::from_str(base).concat("/ballot/height/").concat(number.as_str())
}

/// Where a mirror takes in a new ballot.
pub fn submit_url(base: &str) -> (r: String)
    ensures
        r@ == base@ + "/ballot"@,
{
    String::from_str(base).concat("/ballot")
}

/// What to do next when following the service.
#[derive(Clone, Copy, Debug, PartialEq, Eq, Structural)]
pub enum SyncStep {
    /// Ask the service how many ballots it holds.
    Count,
    /// Fetch the ballot of this height and take it in.
    Fetch(u32),
    /// Every ballot that the service reports has been taken in.
    Done,
}

/// The first step of a store that holds `commitments` commitments: before the
/// history of the pool is there, nothing is asked of the service.
pub fn sync_begin(commitments: usize) -> (r: SyncStep)
    ensures
        r == if commitments == 0 {
            SyncStep::Done
        } else {
            SyncStep::Count
        },
{
    if commitments == 0 {
        SyncStep::Done
    } else {
        SyncStep::Count
    }
}

/// The next step of a store that holds `commitments` commitments and `held`
/// ballots, when the service reports `reported` ballots. Before the history of
/// the pool is there, which shows in that no commitment is held, nothing is
/// fetched. After that, ballots are taken in one by one in the order of their
/// heights, from the one after the last held up to the last reported.
pub fn sync_start(commitments: usize, held: usize, reported: u32) -> (r: SyncStep)
    ensures
        r == if commitments == 0 || held >= reported {
            SyncStep::Done
        } else {
            SyncStep::Fetch((held + 1) as u32)
        },
{
    if commitments == 0 || held >= reported as usize {
        SyncStep::Done
    } else {
        SyncStep::Fetch((held + 1) as u32)
    }
}

/// The next step of a wallet, when the service reports `reported` ballots: as
/// `sync_start` says of the commitments and ballots that the wallet holds.
pub fn sync(wallet: &Wallet, reported: u32) -> (r: SyncStep)
    ensures
        r == if wallet@.commitments.len() == 0 || wallet@.ballots.len() >= reported {
            SyncStep::Done
        } else {
            SyncStep::Fetch((wallet@.ballots.len() + 1) as u32)
        },
{
    sync_start(wallet.commitments().len(), wallet.ballots().len(), reported)
}

/// Takes in the ballot that was fetched for height `height`: the ballot is
/// checked and applied and, if nothing was wrong with it, listed as taken in.
/// A ballot that fails a check changes nothing.
pub fn take_in(
    wallet: &mut Wallet,
    height: u32,
    ballot: &Ballot,
    mine: &Vec<Option<Note>>,
    verified: bool,
) -> (r: Result<(), VoteError>)
    requires
        old(wallet).well_formed(),
        mine.len() == ballot.actions.len(),
    ensures
        final(wallet).well_formed(),
        r == old(wallet)@.pool.check(ballot@, verified),
        r is Ok ==> final(wallet)@ == (WalletView {
            ballots: old(wallet)@.ballots.push(
                BallotRecordView { height: height as nat, hash: ballot@.sighash },
            ),
            ..old(wallet)@.applied(height as nat, ballot@, found_view(mine@))
        }),
        r is Err ==> final(wallet)@ == old(wallet)@,
{
    if let Err(e) = wallet.handle_ballot(height, ballot, mine, verified) {
        return Err(e);
    }
    wallet.store_ballot(height, ballot);
    Ok(())
}

} // verus!
