//! The two roots that an election is pinned to, computed from the lists that
//! the wallet holds and written down as text.

use crate::element::{encodings, FieldElement};
use crate::encoding::{hex_string, to_hex};
use crate::frontier::Frontier;
use crate::merkle::{capacity, merkle_root, tree_root};
use crate::props::Props;
use vstd::prelude::*;

verus! {

/// The state of the pool that an election is pinned to: the root of the tree
/// over the nullifier ranges, the root of the tree over the commitments, and
/// the frontier of the commitment tree, whose root is that same root. A pool
/// without a commitment has no frontier, nor has one with more commitments than
/// the tree holds.
pub fn reference_state(nf_ranges: &Vec<FieldElement>, cmxs: &Vec<FieldElement>) -> (r: (
    FieldElement,
    FieldElement,
    Option<Frontier>,
))
    ensures
        r.0@ == tree_root(encodings(nf_ranges@)),
        r.1@ == tree_root(encodings(cmxs@)),
        r.2 is Some <==> 0 < cmxs.len() <= capacity(),
        r.2 matches Some(frontier) ==> frontier@.represents(encodings(cmxs@)) && frontier@.root()
            == r.1@,
{
    let nf = merkle_root(nf_ranges);
    let cmx = merkle_root(cmxs);
    let frontier = Frontier::from_leaves(cmxs);
    (nf, cmx, frontier)
}

/// Computes the root of the tree over the nullifier ranges and writes it down
/// under `nf_root`. Returns the encoding of the root.
pub fn compute_nf_root(props: &mut Props, nf_ranges: &Vec<FieldElement>) -> (r: [u8; 32])
    ensures
        r@ == tree_root(encodings(nf_ranges@)),
        final(props)@ == old(props)@.insert("nf_root"@, hex_string(r@)),
{
    let root = merkle_root(nf_ranges).to_bytes();
    let text = to_hex(&root);
    props.store_prop("nf_root", text.as_str());
    root
}

/// Computes the root of the tree over the commitments and writes it down under
/// `cmx_root`. Returns the encoding of the root.
pub fn compute_cmx_root(props: &mut Props, cmxs: &Vec<FieldElement>) -> (r: [u8; 32])
    ensures
        r@ == tree_root(encodings(cmxs@)),
        final(props)@ == old(props)@.insert("cmx_root"@, hex_string(r@)),
{
    let root = merkle_root(cmxs).to_bytes();
    let text = to_hex(&root);
    props.store_prop("cmx_root", text.as_str());
    root
}

/// Computes and writes down both roots, once the wallet has followed the chain
/// to some height; before that, nothing is done.
pub fn compute_roots(props: &mut Props, nf_ranges: &Vec<FieldElement>, cmxs: &Vec<FieldElement>)
    ensures
        final(props)@ == if old(props)@.contains_key("height"@) {
            old(props)@.insert(
                "nf_root"@,
                hex_string(tree_root(encodings(nf_ranges@))),
            ).insert("cmx_root"@, hex_string(tree_root(encodings(cmxs@))))
        } else {
            old(props)@
        },
{
    if props.load_prop("height").is_some() {
        compute_nf_root(props, nf_ranges);
        compute_cmx_root(props, cmxs);
    }
}

} // verus!
