use zcash_vote_engine::audit::{audit, Audit, CountResult};
use zcash_vote_engine::ballot::{Action, Anchor, Ballot, Note};
use zcash_vote_engine::election::{CandidateChoice, Election};
use zcash_vote_engine::element::FieldElement;
use zcash_vote_engine::error::VoteError;
use zcash_vote_engine::frontier::Frontier;
use zcash_vote_engine::merkle::merkle_root;
use zcash_vote_engine::validate::validate_ballot;

fn element(kind: u8, n: u8) -> FieldElement {
    let mut bytes = [0u8; 32];
    bytes[0] = n;
    bytes[1] = kind;
    FieldElement::from_bytes(bytes).unwrap()
}

fn nullifier(n: u8) -> FieldElement {
    element(1, n)
}

fn commitment(n: u8) -> FieldElement {
    element(2, n)
}

fn history() -> Vec<FieldElement> {
    (0..5).map(|n| element(3, n)).collect()
}

fn election() -> Election {
    let leaves = history();
    Election {
        name: "board".to_string(),
        start_height: 100,
        end_height: 200,
        question: "who?".to_string(),
        candidates: vec![
            CandidateChoice { address: "addr-a".to_string(), choice: "A".to_string() },
            CandidateChoice { address: "addr-b".to_string(), choice: "B".to_string() },
        ],
        signature_required: true,
        cmx: merkle_root(&leaves),
        nf: element(4, 4),
        cmx_frontier: Frontier::from_leaves(&leaves),
    }
}

fn ballot(anchor: FieldElement, actions: &[(u8, u8)]) -> Ballot {
    Ballot {
        version: 1,
        actions: actions
            .iter()
            .map(|(nf, cmx)| Action { nullifier: nullifier(*nf), commitment: commitment(*cmx) })
            .collect(),
        anchor: Anchor { nullifier_root: element(4, 4), commitment_root: anchor },
        sighash: [actions[0].0; 32],
    }
}

fn nothing(actions: usize) -> Vec<Vec<Option<Note>>> {
    vec![vec![None, None]; actions]
}

fn results(a: u64, b: u64) -> Vec<CountResult> {
    vec![
        CountResult { choice: "A".to_string(), amount: a },
        CountResult { choice: "B".to_string(), amount: b },
    ]
}

fn run_example(second_opens: bool) -> Result<Vec<CountResult>, VoteError> {
    let election = election();
    let mut audit = Audit::new(&election)?;
    let first = ballot(election.cmx, &[(1, 1)]);
    audit.apply(&first, &nothing(1), true)?;
    let second = ballot(audit.pool().root(), &[(2, 2), (3, 3)]);
    let mut opened = nothing(2);
    if second_opens {
        opened[1][0] = Some(Note { value: 10, nullifier: nullifier(100) });
    }
    audit.apply(&second, &opened, true)?;
    // The third ballot was built against a root of some time ago.
    let third = ballot(election.cmx, &[(4, 4)]);
    let mut opened = nothing(1);
    opened[0][1] = Some(Note { value: 5, nullifier: nullifier(101) });
    audit.apply(&third, &opened, true)?;
    audit.finish()
}

#[test]
fn example_election_is_tallied() {
    assert_eq!(run_example(true), Ok(results(10, 5)));
}

#[test]
fn undecryptable_action_is_uncounted_not_rejected() {
    assert_eq!(run_example(false), Ok(results(0, 5)));
}

#[test]
fn whole_run_gives_what_the_steps_give() {
    let election = election();
    let first = ballot(election.cmx, &[(1, 1)]);
    let second = ballot(election.cmx, &[(2, 2), (3, 3)]);
    let third = ballot(election.cmx, &[(4, 4)]);
    let mut opened = vec![nothing(1), nothing(2), nothing(1)];
    opened[1][1][0] = Some(Note { value: 10, nullifier: nullifier(100) });
    opened[2][0][1] = Some(Note { value: 5, nullifier: nullifier(101) });
    let ballots = vec![first, second, third];
    assert_eq!(audit(&election, &ballots, &opened, &vec![true, true, true]), Ok(results(10, 5)));
    assert_eq!(
        audit(&election, &ballots, &opened, &vec![true, false, true]),
        Err(VoteError::ProofOrSignatureInvalid)
    );
    assert_eq!(audit(&election, &Vec::new(), &Vec::new(), &Vec::new()), Ok(results(0, 0)));

    // The note that candidate A received in the second ballot is spent by a fourth.
    let mut ballots = ballots;
    ballots.push(ballot(election.cmx, &[(100, 5)]));
    opened.push(nothing(1));
    assert_eq!(
        audit(&election, &ballots, &opened, &vec![true, true, true, true]),
        Err(VoteError::CandidateNoteSpent)
    );
    // A ballot that fails a check is named before that.
    ballots.push(ballot(election.cmx, &[(1, 6)]));
    opened.push(nothing(1));
    assert_eq!(
        audit(&election, &ballots, &opened, &vec![true, true, true, true, true]),
        Err(VoteError::DuplicateNullifier)
    );
    let mut missing = election.clone();
    missing.cmx_frontier = None;
    assert_eq!(
        audit(&missing, &ballots, &opened, &vec![true; 5]),
        Err(VoteError::FrontierCorrupt)
    );
}

#[test]
fn audit_without_ballots_reports_zero_for_each_candidate() {
    let audit = Audit::new(&election()).unwrap();
    assert_eq!(audit.finish(), Ok(results(0, 0)));
}

#[test]
fn election_without_frontier_cannot_be_audited() {
    let mut election = election();
    election.cmx_frontier = None;
    assert!(matches!(Audit::new(&election), Err(VoteError::FrontierCorrupt)));
}

#[test]
fn audit_root_is_the_root_built_from_scratch() {
    let election = election();
    let mut audit = Audit::new(&election).unwrap();
    let mut leaves = history();
    assert_eq!(audit.pool().root().to_bytes(), merkle_root(&leaves).to_bytes());
    let mut anchor = election.cmx;
    for round in 0..6u8 {
        let actions = [(round * 2, round * 2), (round * 2 + 1, round * 2 + 1)];
        let b = ballot(anchor, &actions);
        assert_eq!(audit.apply(&b, &nothing(2), true), Ok(()));
        leaves.push(commitment(round * 2));
        leaves.push(commitment(round * 2 + 1));
        anchor = audit.pool().root();
        assert_eq!(anchor.to_bytes(), merkle_root(&leaves).to_bytes());
        assert!(audit.pool().is_anchor(&anchor));
        assert!(audit.pool().is_anchor(&election.cmx));
        assert_eq!(audit.pool().position() as usize, leaves.len() - 1);
    }
}

#[test]
fn reused_nullifier_is_a_duplicate() {
    let election = election();
    let mut audit = Audit::new(&election).unwrap();
    assert_eq!(audit.apply(&ballot(election.cmx, &[(1, 1)]), &nothing(1), true), Ok(()));
    let root = audit.pool().root();
    // Valid in every other respect, and even with a failing proof the answer is the same.
    let again = ballot(root, &[(7, 7), (1, 8)]);
    assert_eq!(audit.apply(&again, &nothing(2), true), Err(VoteError::DuplicateNullifier));
    assert_eq!(audit.apply(&again, &nothing(2), false), Err(VoteError::DuplicateNullifier));
    // Nothing of the rejected ballot was kept.
    assert_eq!(audit.pool().root().to_bytes(), root.to_bytes());
    assert!(!audit.pool().is_spent(&nullifier(7)));
    assert_eq!(audit.apply(&ballot(root, &[(7, 7)]), &nothing(1), true), Ok(()));
}

#[test]
fn nullifier_repeated_within_a_ballot_is_a_duplicate() {
    let election = election();
    let mut audit = Audit::new(&election).unwrap();
    let twice = ballot(election.cmx, &[(1, 1), (2, 2), (1, 3)]);
    assert_eq!(audit.apply(&twice, &nothing(3), true), Err(VoteError::DuplicateNullifier));
    assert!(!audit.pool().is_spent(&nullifier(1)));
}

#[test]
fn unknown_anchor_is_stale_or_invalid() {
    let election = election();
    let mut audit = Audit::new(&election).unwrap();
    let stray = ballot(commitment(9), &[(1, 1)]);
    assert_eq!(audit.apply(&stray, &nothing(1), true), Err(VoteError::StaleOrInvalidAnchor));
    assert_eq!(audit.apply(&stray, &nothing(1), false), Err(VoteError::StaleOrInvalidAnchor));
    // A root that the tree will have only later is no anchor yet.
    let mut ahead = Audit::new(&election).unwrap();
    ahead.apply(&ballot(election.cmx, &[(1, 1)]), &nothing(1), true).unwrap();
    let early = ballot(ahead.pool().root(), &[(2, 2)]);
    assert_eq!(audit.apply(&early, &nothing(1), true), Err(VoteError::StaleOrInvalidAnchor));
}

#[test]
fn checks_come_in_order() {
    let election = election();
    let mut audit = Audit::new(&election).unwrap();
    audit.apply(&ballot(election.cmx, &[(1, 1)]), &nothing(1), true).unwrap();

    // Everything is wrong with this ballot: the version is named first.
    let mut bad = ballot(commitment(9), &[(1, 5)]);
    bad.version = 2;
    bad.anchor.nullifier_root = element(4, 5);
    assert_eq!(audit.apply(&bad, &nothing(1), false), Err(VoteError::UnsupportedVersion));
    bad.version = 0;
    assert_eq!(audit.apply(&bad, &nothing(1), false), Err(VoteError::UnsupportedVersion));
    bad.version = 1;
    assert_eq!(audit.apply(&bad, &nothing(1), false), Err(VoteError::StaleOrInvalidAnchor));
    bad.anchor.commitment_root = election.cmx;
    assert_eq!(audit.apply(&bad, &nothing(1), false), Err(VoteError::InvalidNullifierRoot));
    bad.anchor.nullifier_root = election.nf;
    assert_eq!(audit.apply(&bad, &nothing(1), false), Err(VoteError::DuplicateNullifier));
    bad.actions[0].nullifier = nullifier(2);
    assert_eq!(audit.apply(&bad, &nothing(1), false), Err(VoteError::ProofOrSignatureInvalid));
    assert_eq!(audit.apply(&bad, &nothing(1), true), Ok(()));
}

#[test]
fn validator_alone_changes_nothing() {
    let election = election();
    let audit = Audit::new(&election).unwrap();
    let b = ballot(election.cmx, &[(1, 1)]);
    assert_eq!(audit.pool().check(&b, true), Ok(()));
    assert_eq!(audit.pool().check(&b, true), Ok(()));
    assert_eq!(audit.pool().check(&b, false), Err(VoteError::ProofOrSignatureInvalid));
    assert!(!audit.pool().is_spent(&nullifier(1)));
    let roots = zcash_vote_engine::ledger::RootSet::new(election.cmx);
    let ledger = zcash_vote_engine::ledger::NullifierLedger::new();
    assert_eq!(validate_ballot(&b, &roots, &ledger, &election.nf, true), Ok(()));
    assert_eq!(
        validate_ballot(&b, &roots, &ledger, &element(4, 5), true),
        Err(VoteError::InvalidNullifierRoot)
    );
}

#[test]
fn spent_candidate_note_fails_the_audit() {
    let election = election();
    let mut audit = Audit::new(&election).unwrap();
    let mut opened = nothing(1);
    opened[0][0] = Some(Note { value: 10, nullifier: nullifier(100) });
    audit.apply(&ballot(election.cmx, &[(1, 1)]), &opened, true).unwrap();
    assert_eq!(audit.finish(), Ok(results(10, 0)));
    // A later ballot spends the note that candidate A received.
    audit.apply(&ballot(election.cmx, &[(2, 2), (100, 3)]), &nothing(2), true).unwrap();
    assert_eq!(audit.finish(), Err(VoteError::CandidateNoteSpent));
    // It stays failed whatever comes after.
    audit.apply(&ballot(election.cmx, &[(3, 4)]), &nothing(1), true).unwrap();
    assert_eq!(audit.finish(), Err(VoteError::CandidateNoteSpent));
}

#[test]
fn candidate_note_spent_before_it_is_found_fails_the_audit_too() {
    let election = election();
    let mut audit = Audit::new(&election).unwrap();
    audit.apply(&ballot(election.cmx, &[(100, 1)]), &nothing(1), true).unwrap();
    let mut opened = nothing(1);
    opened[0][1] = Some(Note { value: 3, nullifier: nullifier(100) });
    audit.apply(&ballot(election.cmx, &[(2, 2)]), &opened, true).unwrap();
    assert_eq!(audit.finish(), Err(VoteError::CandidateNoteSpent));
}

#[test]
fn totals_add_up_over_actions_and_ballots() {
    let election = election();
    let mut audit = Audit::new(&election).unwrap();
    let mut opened = nothing(3);
    opened[0][0] = Some(Note { value: 1, nullifier: nullifier(100) });
    opened[1][1] = Some(Note { value: 20, nullifier: nullifier(101) });
    opened[2][0] = Some(Note { value: 300, nullifier: nullifier(102) });
    audit.apply(&ballot(election.cmx, &[(1, 1), (2, 2), (3, 3)]), &opened, true).unwrap();
    let mut opened = nothing(1);
    opened[0][0] = Some(Note { value: 4000, nullifier: nullifier(103) });
    audit.apply(&ballot(election.cmx, &[(4, 4)]), &opened, true).unwrap();
    assert_eq!(audit.counts()[0].amount, 4301);
    assert_eq!(audit.counts()[1].choice, "B");
    assert_eq!(audit.finish(), Ok(results(4301, 20)));
}

#[test]
fn total_that_leaves_64_bits_is_an_overflow_and_changes_nothing() {
    let election = election();
    let mut audit = Audit::new(&election).unwrap();
    let mut opened = nothing(1);
    opened[0][0] = Some(Note { value: u64::MAX, nullifier: nullifier(100) });
    audit.apply(&ballot(election.cmx, &[(1, 1)]), &opened, true).unwrap();
    let root = audit.pool().root();
    let mut opened = nothing(2);
    opened[1][0] = Some(Note { value: 1, nullifier: nullifier(101) });
    let b = ballot(election.cmx, &[(2, 2), (3, 3)]);
    assert_eq!(audit.apply(&b, &opened, true), Err(VoteError::AmountOverflow));
    assert_eq!(audit.pool().root().to_bytes(), root.to_bytes());
    assert!(!audit.pool().is_spent(&nullifier(2)));
    assert_eq!(audit.finish(), Ok(results(u64::MAX, 0)));
}

#[test]
fn full_tree_takes_no_more_commitments() {
    let mut election = election();
    // The last but one leaf of the tree: 31 of the 32 steps of its path come from the right.
    let ommers: Vec<FieldElement> = (0..31).map(|n| element(5, n)).collect();
    election.cmx_frontier = Some(Frontier::from_parts(u32::MAX - 1, element(5, 99), ommers).unwrap());
    let mut audit = Audit::new(&election).unwrap();
    let two = ballot(election.cmx, &[(1, 1), (2, 2)]);
    assert_eq!(audit.apply(&two, &nothing(2), true), Err(VoteError::TreeFull));
    let one = ballot(election.cmx, &[(1, 1)]);
    assert_eq!(audit.apply(&one, &nothing(1), true), Ok(()));
    assert_eq!(audit.pool().position(), u32::MAX);
    assert_eq!(audit.apply(&ballot(election.cmx, &[(3, 3)]), &nothing(1), true), Err(VoteError::TreeFull));
}
