//! The note commitment tree: a binary Merkle tree of depth 32 over field
//! elements, hashed with `MerkleCRH^Orchard`, whose unused leaves hold the
//! uncommitted value.

use crate::element::{encodings, is_canonical, small_encoding, FieldElement};
use incrementalmerkletree::{Hashable, Level};
use orchard::tree::MerkleHashOrchard;
use vstd::prelude::*;

verus! {

/// What `MerkleCRH^Orchard` gives at `level` for two children, all as encodings.
pub uninterp spec fn merkle_crh(level: u8, left: Seq<u8>, right: Seq<u8>) -> Seq<u8>;

/// `MerkleHashOrchard::combine` of `orchard`, on encodings: both children are
/// parsed with `MerkleHashOrchard::from_bytes`, which needs them canonical, and
/// the parent is written out with `to_bytes`, which gives a canonical encoding.
/// What the hash is goes by the name `merkle_crh`.
#[verifier::external_body]
fn merkle_hash(level: u8, left: &[u8; 32], right: &[u8; 32]) -> (r: [u8; 32])
    requires
        is_canonical(left@),
        is_canonical(right@),
    ensures
        r@ == merkle_crh(level, left@, right@),
        is_canonical(r@),
{
    let l = MerkleHashOrchard::from_bytes(left).unwrap();
    let r = MerkleHashOrchard::from_bytes(right).unwrap();
    MerkleHashOrchard::combine(Level::from(level), &l, &r).to_bytes()
}

/// The parent of two nodes that stand at `level`.
pub fn combine(level: u8, left: &FieldElement, right: &FieldElement) -> (r: FieldElement)
    ensures
        r@ == merkle_crh(level, left@, right@),
{
    let l = left.to_bytes();
    let r = right.to_bytes();
    FieldElement::from_canonical(merkle_hash(level, &l, &r))
}

/// The encoding of the value that an unused leaf holds: the number 2.
pub open spec fn empty_leaf() -> Seq<u8> {
    small_encoding(2)
}

/// The root of a subtree of height `level` with no leaf in use.
pub open spec fn empty_root(level: nat) -> Seq<u8>
    decreases level,
{
    if level == 0 {
        empty_leaf()
    } else {
        merkle_crh(
            (level - 1) as u8,
            empty_root((level - 1) as nat),
            empty_root((level - 1) as nat),
        )
    }
}

/// The node at height `level` and place `index` of the tree whose first leaves
/// are `leaves` and whose other leaves are unused.
pub open spec fn node(leaves: Seq<Seq<u8>>, level: nat, index: nat) -> Seq<u8>
    decreases level,
{
    if level == 0 {
        if index < leaves.len() {
            leaves[index as int]
        } else {
            empty_leaf()
        }
    } else {
        merkle_crh(
            (level - 1) as u8,
            node(leaves, (level - 1) as nat, 2 * index),
            node(leaves, (level - 1) as nat, 2 * index + 1),
        )
    }
}

/// The root of the depth-32 tree whose first leaves are `leaves`.
pub open spec fn tree_root(leaves: Seq<Seq<u8>>) -> Seq<u8> {
    node(leaves, 32, 0)
}

/// How many nodes at height `level` have a leaf in use below them, when `len`
/// leaves are in use.
pub open spec fn width(len: nat, level: nat) -> nat
    decreases level,
{
    if level == 0 {
        len
    } else {
        (width(len, (level - 1) as nat) + 1) / 2
    }
}

/// Two to the power `n`.
pub open spec fn pow2(n: nat) -> nat
    decreases n,
{
    if n == 0 {
        1
    } else {
        2 * pow2((n - 1) as nat)
    }
}

/// The number of leaves that the tree holds.
pub open spec fn capacity() -> nat {
    0x1_0000_0000
}

/// Two to the power 32 is the number of leaves that the tree holds.
pub proof fn lemma_pow2_32()
    ensures
        pow2(32) == capacity(),
{
    reveal_with_fuel(pow2, 33);
}

/// A node with no leaf in use below it is the empty root of its height.
pub proof fn lemma_node_empty(leaves: Seq<Seq<u8>>, level: nat, index: nat)
    requires
        index >= width(leaves.len(), level),
    ensures
        node(leaves, level, index) == empty_root(level),
    decreases level,
{
    if level > 0 {
        lemma_node_empty(leaves, (level - 1) as nat, 2 * index);
        lemma_node_empty(leaves, (level - 1) as nat, 2 * index + 1);
    }
}

/// The rows of the tree halve from one height to the next.
pub proof fn lemma_width_bound(len: nat, depth: nat, level: nat)
    requires
        len <= pow2(depth),
        level <= depth,
    ensures
        width(len, level) <= pow2((depth - level) as nat),
    decreases level,
{
    if level > 0 {
        lemma_width_bound(len, depth, (level - 1) as nat);
    }
}

/// The uncommitted leaf.
pub fn uncommitted() -> (r: FieldElement)
    ensures
        r@ == empty_leaf(),
{
    FieldElement::from_small(2)
}

/// The root of the tree over `leaves`, computed row by row from the leaves up.
/// Leaves beyond the number that the tree holds have no place in it and do not
/// count.
pub fn merkle_root(leaves: &Vec<FieldElement>) -> (r: FieldElement)
    ensures
        r@ == tree_root(encodings(leaves@)),
{
    let ghost cs = encodings(leaves@);
    let mut row: Vec<FieldElement> = Vec::new();
    let mut i: usize = 0;
    while i < leaves.len()
        invariant
            i <= leaves.len(),
            row.len() == i,
            cs == encodings(leaves@),
            forall|j: int| 0 <= j < i ==> row[j]@ == node(cs, 0, j as nat),
        decreases leaves.len() - i,
    {
        row.push(leaves[i]);
        i = i + 1;
    }
    let mut empty = uncommitted();
    let mut level: u8 = 0;
    while level < 32
        invariant
            level <= 32,
            empty@ == empty_root(level as nat),
            row.len() == width(cs.len(), level as nat),
            forall|j: int| 0 <= j < row.len() ==> row[j]@ == node(cs, level as nat, j as nat),
        decreases 32 - level,
    {
        let n = row.len();
        let mut next: Vec<FieldElement> = Vec::new();
        let mut j: usize = 0;
        while j < n / 2
            invariant
                j <= n / 2,
                n == row.len(),
                level < 32,
                next.len() == j,
                forall|k: int| 0 <= k < n ==> row[k]@ == node(cs, level as nat, k as nat),
                forall|k: int| 0 <= k < j ==> next[k]@ == node(cs, (level + 1) as nat, k as nat),
            decreases n / 2 - j,
        {
            let parent = combine(level, &row[2 * j], &row[2 * j + 1]);
            next.push(parent);
            j = j + 1;
        }
        if n % 2 == 1 {
            proof {
                lemma_node_empty(cs, level as nat, n as nat);
            }
            let parent = combine(level, &row[n - 1], &empty);
            next.push(parent);
        }
        empty = combine(level, &empty, &empty);
        row = next;
        level = level + 1;
    }
    if row.len() == 0 {
        proof {
            lemma_node_empty(cs, 32, 0);
        }
        empty
    } else {
        row[0]
    }
}

} // verus!
