use zcash_vote_engine::broadcast::{vote, Reply, Vote, VoteLog};
use zcash_vote_engine::encoding::to_hex;
use zcash_vote_engine::error::VoteError;

fn sighash() -> [u8; 32] {
    let mut hash = [0u8; 32];
    for (i, byte) in hash.iter_mut().enumerate() {
        *byte = (i as u8) * 9 + 1;
    }
    hash
}

const HEX: &str = "010a131c252e374049525b646d767f88919aa3acb5bec7d0d9e2ebf4fd060f18";

#[test]
fn hash_is_written_in_lowercase_hex() {
    assert_eq!(to_hex(&sighash()), HEX);
    assert_eq!(to_hex(&sighash()), hex::encode(sighash()));
    assert_eq!(to_hex(&[0xab; 32]), "ab".repeat(32));
}

#[test]
fn one_acceptance_among_three_mirrors_is_a_success_with_one_record() {
    for accepting in 0..3 {
        let replies: Vec<Reply> = (0..3)
            .map(|i| if i == accepting { Reply::Accepted } else { Reply::Rejected(format!("no {i}")) })
            .collect();
        let mut log = VoteLog::new();
        assert_eq!(vote(&replies, &sighash(), "addr", 7, &mut log), Ok(HEX.to_string()));
        assert_eq!(
            log.fetch_votes(),
            vec![Vote { id: 1, hash: HEX.to_string(), address: "addr".to_string(), amount: 7 }]
        );
    }
}

#[test]
fn three_acceptances_make_one_record_never_three() {
    let replies = vec![Reply::Accepted, Reply::Accepted, Reply::Accepted];
    let mut log = VoteLog::new();
    assert_eq!(vote(&replies, &sighash(), "addr", 7, &mut log), Ok(HEX.to_string()));
    assert_eq!(log.len(), 1);
}

#[test]
fn all_rejections_fail_with_the_last_reason() {
    let replies = vec![
        Reply::Rejected("first".to_string()),
        Reply::Rejected("second".to_string()),
        Reply::Rejected("third".to_string()),
    ];
    let mut log = VoteLog::new();
    assert_eq!(
        vote(&replies, &sighash(), "addr", 7, &mut log),
        Err(VoteError::BroadcastFailed("third".to_string()))
    );
    assert_eq!(log.len(), 0);
}

#[test]
fn no_mirror_is_a_failure_without_a_reason() {
    let mut log = VoteLog::new();
    assert_eq!(
        vote(&Vec::new(), &sighash(), "addr", 7, &mut log),
        Err(VoteError::BroadcastFailed(String::new()))
    );
    assert_eq!(log.len(), 0);
}

#[test]
fn unreachable_mirror_never_undoes_an_acceptance() {
    for replies in [
        vec![Reply::Accepted, Reply::Failed("reset".to_string())],
        vec![Reply::Failed("reset".to_string()), Reply::Accepted],
        vec![Reply::Rejected("busy".to_string()), Reply::Failed("timed out".to_string()), Reply::Accepted],
        vec![Reply::Failed("a".to_string()), Reply::Accepted, Reply::Failed("b".to_string())],
        vec![Reply::Accepted, Reply::Rejected("no".to_string()), Reply::Failed("b".to_string())],
    ] {
        let mut log = VoteLog::new();
        assert_eq!(vote(&replies, &sighash(), "addr", 7, &mut log), Ok(HEX.to_string()));
        assert_eq!(log.len(), 1);
    }
}

#[test]
fn without_an_acceptance_the_last_failure_is_reported() {
    let mut log = VoteLog::new();
    let replies = vec![Reply::Rejected("busy".to_string()), Reply::Failed("timed out".to_string())];
    assert_eq!(
        vote(&replies, &sighash(), "addr", 7, &mut log),
        Err(VoteError::TransientIO("timed out".to_string()))
    );
    let replies = vec![Reply::Failed("timed out".to_string()), Reply::Rejected("busy".to_string())];
    assert_eq!(
        vote(&replies, &sighash(), "addr", 7, &mut log),
        Err(VoteError::BroadcastFailed("busy".to_string()))
    );
    let replies = vec![Reply::Failed("first".to_string()), Reply::Failed("second".to_string())];
    assert_eq!(
        vote(&replies, &sighash(), "addr", 7, &mut log),
        Err(VoteError::TransientIO("second".to_string()))
    );
    assert_eq!(log.len(), 0);
}

#[test]
fn votes_are_numbered_in_the_order_written() {
    let mut log = VoteLog::new();
    assert_eq!(log.store_vote("aa", "x", 1), Ok(()));
    assert_eq!(log.store_vote("bb", "y", 2), Ok(()));
    vote(&vec![Reply::Accepted], &sighash(), "z", 3, &mut log).unwrap();
    let votes = log.fetch_votes();
    assert_eq!(votes.len(), 3);
    assert_eq!(votes[0], Vote { id: 1, hash: "aa".to_string(), address: "x".to_string(), amount: 1 });
    assert_eq!(votes[1], Vote { id: 2, hash: "bb".to_string(), address: "y".to_string(), amount: 2 });
    assert_eq!(votes[2], Vote { id: 3, hash: HEX.to_string(), address: "z".to_string(), amount: 3 });
}
