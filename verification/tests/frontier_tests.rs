use incrementalmerkletree::frontier::NonEmptyFrontier;
use incrementalmerkletree::{Hashable, Level};
use orchard::tree::MerkleHashOrchard;
use zcash_vote_engine::element::FieldElement;
use zcash_vote_engine::error::VoteError;
use zcash_vote_engine::frontier::Frontier;
use zcash_vote_engine::merkle::{combine, merkle_root, uncommitted};

fn element(n: u8) -> FieldElement {
    let mut bytes = [0u8; 32];
    bytes[0] = n;
    bytes[5] = n.wrapping_mul(7);
    FieldElement::from_bytes(bytes).unwrap()
}

fn reference(e: &FieldElement) -> MerkleHashOrchard {
    MerkleHashOrchard::from_bytes(&e.to_bytes()).unwrap()
}

#[test]
fn uncommitted_leaf_is_two() {
    let mut expected = [0u8; 32];
    expected[0] = 2;
    assert_eq!(uncommitted().to_bytes(), expected);
    assert_eq!(uncommitted().to_bytes(), MerkleHashOrchard::empty_leaf().to_bytes());
}

#[test]
fn combine_is_the_orchard_hash() {
    let a = element(3);
    let b = element(9);
    let expected = MerkleHashOrchard::combine(Level::from(4), &reference(&a), &reference(&b));
    assert_eq!(combine(4, &a, &b).to_bytes(), expected.to_bytes());
    assert_ne!(combine(4, &a, &b).to_bytes(), a.to_bytes());
    assert_ne!(combine(4, &a, &b).to_bytes(), combine(5, &a, &b).to_bytes());
    assert_ne!(combine(4, &a, &b).to_bytes(), combine(4, &b, &a).to_bytes());
}

#[test]
fn root_of_no_leaves_is_the_empty_root() {
    let leaves: Vec<FieldElement> = Vec::new();
    let expected = MerkleHashOrchard::empty_root(Level::from(32));
    assert_eq!(merkle_root(&leaves).to_bytes(), expected.to_bytes());
}

#[test]
fn incremental_root_equals_root_from_scratch() {
    let mut leaves = vec![element(1)];
    let mut frontier = Frontier::new(element(1));
    let mut theirs = NonEmptyFrontier::new(reference(&element(1)));
    assert_eq!(frontier.root().to_bytes(), merkle_root(&leaves).to_bytes());
    for n in 2..40u8 {
        let leaf = element(n);
        leaves.push(leaf);
        let root = frontier.append(leaf).to_bytes();
        theirs.append(reference(&leaf));
        assert_eq!(root, frontier.root().to_bytes());
        assert_eq!(root, merkle_root(&leaves).to_bytes());
        assert_eq!(root, theirs.root(Some(Level::from(32))).to_bytes());
        assert_eq!(frontier.position(), (n - 1) as u32);
        assert_eq!(frontier.leaf().to_bytes(), theirs.leaf().to_bytes());
        let ours: Vec<[u8; 32]> = frontier.ommers().iter().map(|o| o.to_bytes()).collect();
        let others: Vec<[u8; 32]> = theirs.ommers().iter().map(|o| o.to_bytes()).collect();
        assert_eq!(ours, others);
        assert_eq!(Frontier::from_leaves(&leaves).unwrap().root().to_bytes(), root);
    }
}

#[test]
fn empty_roots_are_the_published_ones() {
    let one = "d1ab2507c809c2713c000f525e9fbdcb06c958384e51b9cc7f792dde6c97f411";
    let two = "c7413f4614cd64043abbab7cc1095c9bb104231cea89e2c3e0df83769556d030";
    let level_one = combine(0, &uncommitted(), &uncommitted());
    assert_eq!(hex::encode(level_one.to_bytes()), one);
    assert_eq!(hex::encode(combine(1, &level_one, &level_one).to_bytes()), two);
}

#[test]
fn no_frontier_without_leaves() {
    assert!(Frontier::from_leaves(&Vec::new()).is_none());
    let single = Frontier::from_leaves(&vec![element(4)]).unwrap();
    assert_eq!(single.position(), 0);
    assert_eq!(single.ommers().len(), 0);
    assert_eq!(single.root().to_bytes(), Frontier::new(element(4)).root().to_bytes());
}

#[test]
fn raw_checkpoint_must_be_canonical_and_fit() {
    let leaf = element(1).to_bytes();
    let ommers = vec![element(2).to_bytes(), element(3).to_bytes()];
    let rebuilt = Frontier::from_checkpoint(5, leaf, &ommers).unwrap();
    let direct = Frontier::from_parts(5, element(1), vec![element(2), element(3)]).unwrap();
    assert_eq!(rebuilt.root().to_bytes(), direct.root().to_bytes());
    assert_eq!(rebuilt.position(), 5);
    assert!(matches!(Frontier::from_checkpoint(4, leaf, &ommers), Err(VoteError::FrontierCorrupt)));
    assert!(matches!(
        Frontier::from_checkpoint(5, [0xff; 32], &ommers),
        Err(VoteError::FrontierCorrupt)
    ));
    let bad = vec![element(2).to_bytes(), [0xff; 32]];
    assert!(matches!(Frontier::from_checkpoint(5, leaf, &bad), Err(VoteError::FrontierCorrupt)));
}

#[test]
fn root_depends_on_the_order_of_the_leaves() {
    let mut forward = Frontier::new(element(1));
    forward.append(element(2));
    let mut backward = Frontier::new(element(2));
    backward.append(element(1));
    assert_ne!(forward.root().to_bytes(), backward.root().to_bytes());
}

#[test]
fn checkpoint_round_trip() {
    let mut frontier = Frontier::new(element(1));
    for n in 2..12u8 {
        frontier.push(element(n));
    }
    let rebuilt =
        Frontier::from_parts(frontier.position(), frontier.leaf(), frontier.ommers().clone())
            .unwrap();
    assert_eq!(rebuilt.root().to_bytes(), frontier.root().to_bytes());
}

#[test]
fn checkpoint_with_wrong_ommer_count_is_corrupt() {
    // Position 5 is 101 in binary: two ommers are expected.
    let r = Frontier::from_parts(5, element(1), vec![element(2)]);
    assert!(matches!(r, Err(VoteError::FrontierCorrupt)));
    let r = Frontier::from_parts(5, element(1), vec![element(2), element(3), element(4)]);
    assert!(matches!(r, Err(VoteError::FrontierCorrupt)));
    let r = Frontier::from_parts(5, element(1), vec![element(2), element(3)]);
    assert!(r.is_ok());
    let r = Frontier::from_parts(0, element(1), vec![]);
    assert!(r.is_ok());
}

#[test]
fn non_canonical_encoding_is_refused() {
    assert!(FieldElement::from_bytes([0xff; 32]).is_none());
    // The field order itself is the first encoding that is refused.
    let mut modulus = [0u8; 32];
    modulus[..16].copy_from_slice(&0x224698fc094cf91b992d30ed00000001u128.to_le_bytes());
    modulus[31] = 0x40;
    assert!(FieldElement::from_bytes(modulus).is_none());
    modulus[0] = 0;
    assert!(FieldElement::from_bytes(modulus).is_some());
}
