use zcash_vote_engine::ballot::{Action, Anchor, Ballot, Note};
use zcash_vote_engine::election::Election;
use zcash_vote_engine::element::FieldElement;
use zcash_vote_engine::error::VoteError;
use zcash_vote_engine::keys::Scope;
use zcash_vote_engine::merkle::merkle_root;
use zcash_vote_engine::props::Props;
use zcash_vote_engine::sync::{
    ballot_url, choose_mirror, mirror_at, num_ballots_url, submit_url, sync, sync_begin, sync_start,
    take_in, SyncStep,
};
use zcash_vote_engine::trees::{compute_cmx_root, compute_nf_root, compute_roots};
use zcash_vote_engine::wallet::{OwnedNote, StoredBallot, Wallet};

fn element(kind: u8, n: u8) -> FieldElement {
    let mut bytes = [0u8; 32];
    bytes[0] = n;
    bytes[1] = kind;
    FieldElement::from_bytes(bytes).unwrap()
}

fn history() -> Vec<FieldElement> {
    (0..3).map(|n| element(3, n)).collect()
}

fn election() -> Election {
    Election {
        name: String::new(),
        start_height: 1,
        end_height: 2,
        question: String::new(),
        candidates: Vec::new(),
        signature_required: false,
        cmx: merkle_root(&history()),
        nf: element(4, 4),
        cmx_frontier: None,
    }
}

fn ballot(anchor: FieldElement, actions: &[(u8, u8)]) -> Ballot {
    Ballot {
        version: 1,
        actions: actions
            .iter()
            .map(|(nf, cmx)| Action { nullifier: element(1, *nf), commitment: element(2, *cmx) })
            .collect(),
        anchor: Anchor { nullifier_root: element(4, 4), commitment_root: anchor },
        sighash: [actions[0].1; 32],
    }
}

fn summary(note: &OwnedNote) -> (u32, u32, u64, Option<u32>) {
    (note.position, note.height, note.value, note.spent)
}

#[test]
fn wallet_needs_commitments_to_follow() {
    assert!(matches!(Wallet::new(&election(), Vec::new()), Err(VoteError::FrontierCorrupt)));
    let wallet = Wallet::new(&election(), history()).unwrap();
    assert_eq!(wallet.commitments().len(), 3);
    assert_eq!(wallet.notes().len(), 0);
    assert_eq!(wallet.get_available_balance(), Ok(0));
    assert_eq!(wallet.pool().root().to_bytes(), election().cmx.to_bytes());
    assert_eq!(wallet.commitment_root().to_bytes(), election().cmx.to_bytes());
}

#[test]
fn ballot_is_taken_in_action_by_action() {
    let election = election();
    let mut wallet = Wallet::new(&election, history()).unwrap();
    let first = ballot(election.cmx, &[(1, 1), (2, 2)]);
    let mine = vec![None, Some(Note { value: 50, nullifier: element(1, 9) })];
    assert_eq!(wallet.handle_ballot(7, &first, &mine, true), Ok(()));
    // Three commitments were there; the note came with the second action.
    assert_eq!(wallet.notes().len(), 1);
    assert_eq!(summary(&wallet.notes()[0]), (4, 7, 50, None));
    assert_eq!(wallet.notes()[0].txid, first.sighash);
    assert_eq!(wallet.notes()[0].scope, Scope::External);
    assert_eq!(wallet.commitments().len(), 5);
    assert_eq!(wallet.get_available_balance(), Ok(50));
    assert_eq!(wallet.pool().root().to_bytes(), merkle_root(wallet.commitments()).to_bytes());
    assert_eq!(wallet.commitment_root().to_bytes(), wallet.pool().root().to_bytes());

    // The next ballot spends the note and brings change.
    let second = ballot(wallet.pool().root(), &[(9, 3)]);
    let mine = vec![Some(Note { value: 20, nullifier: element(1, 10) })];
    assert_eq!(wallet.handle_ballot(8, &second, &mine, true), Ok(()));
    assert_eq!(summary(&wallet.notes()[0]), (4, 7, 50, Some(8)));
    assert_eq!(summary(&wallet.notes()[1]), (5, 8, 20, None));
    assert_eq!(wallet.get_available_balance(), Ok(20));
}

#[test]
fn note_created_and_spent_in_one_ballot_ends_up_spent() {
    let election = election();
    let mut wallet = Wallet::new(&election, history()).unwrap();
    let b = ballot(election.cmx, &[(1, 1), (9, 2)]);
    let mine = vec![Some(Note { value: 50, nullifier: element(1, 9) }), None];
    assert_eq!(wallet.handle_ballot(7, &b, &mine, true), Ok(()));
    assert_eq!(summary(&wallet.notes()[0]), (3, 7, 50, Some(7)));
    assert_eq!(wallet.get_available_balance(), Ok(0));
}

#[test]
fn rejected_ballot_changes_nothing() {
    let election = election();
    let mut wallet = Wallet::new(&election, history()).unwrap();
    wallet.store_note(OwnedNote {
        position: 0,
        height: 1,
        txid: [0; 32],
        value: 11,
        nullifier: element(1, 1),
        spent: None,
        scope: Scope::Internal,
    });
    let b = ballot(element(2, 77), &[(1, 1)]);
    let mine = vec![Some(Note { value: 50, nullifier: element(1, 9) })];
    assert_eq!(wallet.handle_ballot(7, &b, &mine, true), Err(VoteError::StaleOrInvalidAnchor));
    let b = ballot(election.cmx, &[(1, 1)]);
    assert_eq!(wallet.handle_ballot(7, &b, &mine, false), Err(VoteError::ProofOrSignatureInvalid));
    assert_eq!(wallet.notes().len(), 1);
    assert_eq!(summary(&wallet.notes()[0]), (0, 1, 11, None));
    assert_eq!(wallet.commitments().len(), 3);
    assert_eq!(wallet.get_available_balance(), Ok(11));
}

#[test]
fn mark_spent_marks_every_note_of_the_nullifier() {
    let mut wallet = Wallet::new(&election(), history()).unwrap();
    for (n, value) in [(1, 5), (2, 6), (1, 7)] {
        wallet.store_note(OwnedNote {
            position: n as u32,
            height: 1,
            txid: [0; 32],
            value,
            nullifier: element(1, n),
            spent: None,
            scope: Scope::Internal,
        });
    }
    assert_eq!(wallet.get_available_balance(), Ok(18));
    wallet.mark_spent(9, &element(1, 1));
    assert_eq!(wallet.notes()[0].spent, Some(9));
    assert_eq!(wallet.notes()[0].scope, Scope::Internal);
    assert_eq!(wallet.notes()[1].spent, None);
    assert_eq!(wallet.notes()[2].spent, Some(9));
    assert_eq!(wallet.get_available_balance(), Ok(6));
    wallet.mark_spent(10, &element(1, 3));
    assert_eq!(wallet.get_available_balance(), Ok(6));
    // Marking again moves the height.
    wallet.mark_spent(12, &element(1, 1));
    assert_eq!(wallet.notes()[0].spent, Some(12));
}

#[test]
fn balance_that_leaves_64_bits_is_an_overflow() {
    let mut wallet = Wallet::new(&election(), history()).unwrap();
    for (n, value) in [(1, u64::MAX), (2, 1)] {
        wallet.store_note(OwnedNote {
            position: 0,
            height: 1,
            txid: [0; 32],
            value,
            nullifier: element(1, n),
            spent: None,
            scope: Scope::Internal,
        });
    }
    assert_eq!(wallet.get_available_balance(), Err(VoteError::AmountOverflow));
    wallet.mark_spent(3, &element(1, 2));
    assert_eq!(wallet.get_available_balance(), Ok(u64::MAX));
}

#[test]
fn sync_fetches_the_ballots_in_order() {
    let election = election();
    let mut wallet = Wallet::new(&election, history()).unwrap();
    assert_eq!(sync(&wallet, 0), SyncStep::Done);
    assert_eq!(sync(&wallet, 2), SyncStep::Fetch(1));
    let first = ballot(election.cmx, &[(1, 1)]);
    assert_eq!(take_in(&mut wallet, 1, &first, &vec![None], true), Ok(()));
    assert_eq!(wallet.ballots().len(), 1);
    assert_eq!(wallet.ballots()[0].height, 1);
    assert_eq!(wallet.ballots()[0].hash, first.sighash);
    assert_eq!(sync(&wallet, 2), SyncStep::Fetch(2));
    let bad = ballot(election.cmx, &[(1, 2)]);
    assert_eq!(take_in(&mut wallet, 2, &bad, &vec![None], true), Err(VoteError::DuplicateNullifier));
    assert_eq!(sync(&wallet, 2), SyncStep::Fetch(2));
    let second = ballot(election.cmx, &[(2, 2)]);
    assert_eq!(take_in(&mut wallet, 2, &second, &vec![None], true), Ok(()));
    assert_eq!(sync(&wallet, 2), SyncStep::Done);
    assert_eq!(sync(&wallet, 1), SyncStep::Done);
    assert_eq!(wallet.next_height(5), Some(3));
}

#[test]
fn nothing_is_fetched_before_the_history_is_there() {
    assert_eq!(sync_begin(0), SyncStep::Done);
    assert_eq!(sync_begin(1), SyncStep::Count);
    assert_eq!(sync_start(0, 0, 5), SyncStep::Done);
    assert_eq!(sync_start(0, 3, 5), SyncStep::Done);
    assert_eq!(sync_start(10, 0, 5), SyncStep::Fetch(1));
    assert_eq!(sync_start(10, 4, 5), SyncStep::Fetch(5));
    assert_eq!(sync_start(10, 5, 5), SyncStep::Done);
    assert_eq!(sync_start(10, 6, 5), SyncStep::Done);
    assert_eq!(sync_start(10, 0, 0), SyncStep::Done);
    assert_eq!(sync_start(1, 4294967294, u32::MAX), SyncStep::Fetch(u32::MAX));
}

#[test]
fn wallet_is_restored_from_what_was_stored() {
    let election = election();
    let mut wallet = Wallet::new(&election, history()).unwrap();
    let first = ballot(election.cmx, &[(1, 1), (2, 2)]);
    let mine = vec![None, Some(Note { value: 50, nullifier: element(1, 9) })];
    take_in(&mut wallet, 1, &first, &mine, true).unwrap();
    let second = ballot(wallet.pool().root(), &[(9, 3)]);
    take_in(&mut wallet, 2, &second, &vec![None], true).unwrap();

    let stored = vec![
        StoredBallot { height: 1, ballot: first.clone() },
        StoredBallot { height: 2, ballot: second.clone() },
    ];
    let restored =
        Wallet::restore(&election, wallet.commitments().clone(), wallet.notes().clone(), &stored)
            .unwrap();
    assert_eq!(restored.pool().root().to_bytes(), wallet.pool().root().to_bytes());
    assert_eq!(restored.pool().position(), wallet.pool().position());
    assert_eq!(restored.commitment_root().to_bytes(), wallet.commitment_root().to_bytes());
    for n in [1, 2, 9] {
        assert!(restored.pool().is_spent(&element(1, n)));
    }
    assert!(!restored.pool().is_spent(&element(1, 3)));
    assert!(restored.pool().is_anchor(&election.cmx));
    assert!(restored.pool().is_anchor(&second.anchor.commitment_root));
    assert_eq!(restored.notes().len(), 1);
    assert_eq!(summary(&restored.notes()[0]), (4, 1, 50, Some(2)));
    assert_eq!(restored.get_available_balance(), Ok(0));
    assert_eq!(restored.ballots().len(), 2);
    assert_eq!(restored.ballots()[1].height, 2);
    assert_eq!(restored.ballots()[1].hash, second.sighash);
    assert_eq!(sync(&restored, 3), SyncStep::Fetch(3));

    // Without ballots, the whole list is history.
    let plain = Wallet::restore(&election, history(), Vec::new(), &Vec::new()).unwrap();
    assert_eq!(plain.pool().root().to_bytes(), election.cmx.to_bytes());
    assert_eq!(plain.commitments().len(), 3);
}

#[test]
fn stored_lists_that_do_not_belong_together_are_corrupt() {
    let election = election();
    let first = ballot(election.cmx, &[(1, 1), (2, 2)]);
    let stored = vec![StoredBallot { height: 1, ballot: first.clone() }];
    let mut cmxs = history();
    cmxs.push(element(2, 1));
    cmxs.push(element(2, 2));
    assert!(Wallet::restore(&election, cmxs.clone(), Vec::new(), &stored).is_ok());
    // The ballot's commitments are not the end of the list.
    let mut wrong = cmxs.clone();
    wrong[4] = element(2, 7);
    assert!(matches!(
        Wallet::restore(&election, wrong, Vec::new(), &stored),
        Err(VoteError::FrontierCorrupt)
    ));
    // No history is left before the ballot's commitments.
    assert!(matches!(
        Wallet::restore(&election, vec![element(2, 1), element(2, 2)], Vec::new(), &stored),
        Err(VoteError::FrontierCorrupt)
    ));
    assert!(matches!(
        Wallet::restore(&election, vec![element(2, 2)], Vec::new(), &stored),
        Err(VoteError::FrontierCorrupt)
    ));
    assert!(matches!(
        Wallet::restore(&election, Vec::new(), Vec::new(), &Vec::new()),
        Err(VoteError::FrontierCorrupt)
    ));
    // A stored ballot that fails a check ends the restoring with its error.
    let twice = vec![
        StoredBallot { height: 1, ballot: first.clone() },
        StoredBallot { height: 2, ballot: first.clone() },
    ];
    let mut doubled = cmxs.clone();
    doubled.push(element(2, 1));
    doubled.push(element(2, 2));
    assert!(matches!(
        Wallet::restore(&election, doubled, Vec::new(), &twice),
        Err(VoteError::DuplicateNullifier)
    ));
}

#[test]
fn urls_are_built_from_the_mirror() {
    assert_eq!(num_ballots_url("http://m"), "http://m/num_ballots");
    assert_eq!(ballot_url("http://m", 1), "http://m/ballot/height/1");
    assert_eq!(ballot_url("http://m", 4294967295), "http://m/ballot/height/4294967295");
    assert_eq!(ballot_url("", 120), "/ballot/height/120");
    assert_eq!(submit_url("http://m"), "http://m/ballot");
}

#[test]
fn mirror_is_one_of_the_list() {
    let urls = vec!["a".to_string(), "b".to_string(), "c".to_string()];
    assert_eq!(mirror_at(&urls, 1), Some(&"b".to_string()));
    assert_eq!(mirror_at(&urls, 3), None);
    assert_eq!(choose_mirror(&Vec::new()), None);
    let mut seen = [false; 3];
    for _ in 0..200 {
        let url = choose_mirror(&urls).unwrap();
        let at = urls.iter().position(|u| u == url).unwrap();
        seen[at] = true;
    }
    assert_eq!(seen, [true; 3]);
    assert_eq!(choose_mirror(&vec!["only".to_string()]), Some(&"only".to_string()));
}

#[test]
fn roots_are_computed_once_a_height_is_known() {
    let list = history();
    let ranges = vec![element(6, 1), element(6, 2)];
    let mut props = Props::new();
    compute_roots(&mut props, &ranges, &list);
    assert_eq!(props.load_prop("cmx_root"), None);
    assert_eq!(props.load_prop("nf_root"), None);
    props.store_height(2500000);
    assert_eq!(props.load_prop("height"), Some("2500000".to_string()));
    compute_roots(&mut props, &ranges, &list);
    assert_eq!(props.load_prop("cmx_root"), Some(hex::encode(merkle_root(&list).to_bytes())));
    assert_eq!(props.load_prop("nf_root"), Some(hex::encode(merkle_root(&ranges).to_bytes())));

    let mut props = Props::new();
    assert_eq!(compute_cmx_root(&mut props, &list), merkle_root(&list).to_bytes());
    assert_eq!(compute_nf_root(&mut props, &ranges), merkle_root(&ranges).to_bytes());
    assert_ne!(props.load_prop("cmx_root"), props.load_prop("nf_root"));
}
