//! The commitment frontier: the last leaf of the tree together with the roots
//! of the full subtrees to its left, which is all that appending a leaf and
//! computing the root need.

use crate::element::{encodings, is_canonical, FieldElement};
use crate::error::VoteError;
use crate::merkle::{
    capacity, combine, empty_root, lemma_node_empty, lemma_pow2_32, lemma_width_bound, merkle_crh,
    node, pow2, tree_root, uncommitted, width,
};
use vstd::prelude::*;

verus! {

/// How many ommers the path from place `index` at height `level` up to the root
/// has: one for each step that comes from the right.
pub open spec fn ommer_count(level: nat, index: nat) -> nat
    decreases 32 - level,
{
    if level >= 32 {
        0
    } else {
        index % 2 + ommer_count(level + 1, index / 2)
    }
}

/// The root reached from `current` at place `index` of height `level`, taking
/// the next ommer as left sibling on each step from the right and the empty root
/// as right sibling on each step from the left.
pub open spec fn climb(level: nat, index: nat, current: Seq<u8>, ommers: Seq<Seq<u8>>) -> Seq<u8>
    decreases 32 - level,
{
    if level >= 32 {
        current
    } else if index % 2 == 1 {
        climb(
            level + 1,
            index / 2,
            merkle_crh(level as u8, ommers[0], current),
            ommers.drop_first(),
        )
    } else {
        climb(level + 1, index / 2, merkle_crh(level as u8, current, empty_root(level)), ommers)
    }
}

/// The ommers after one more leaf: full subtrees are merged upwards for as long
/// as the path comes from the right, and the merged node becomes the ommer of
/// the first step that came from the left.
pub open spec fn bubble(level: nat, index: nat, carry: Seq<u8>, ommers: Seq<Seq<u8>>) -> Seq<
    Seq<u8>,
>
    decreases 32 - level,
{
    if level >= 32 {
        ommers
    } else if index % 2 == 1 {
        bubble(
            level + 1,
            index / 2,
            merkle_crh(level as u8, ommers[0], carry),
            ommers.drop_first(),
        )
    } else {
        seq![carry] + ommers
    }
}

/// Whether `ommers` are the left siblings, in the tree over `leaves`, of the
/// path from place `index` at height `level` up to the root.
pub open spec fn path_ok(
    leaves: Seq<Seq<u8>>,
    level: nat,
    index: nat,
    ommers: Seq<Seq<u8>>,
) -> bool
    decreases 32 - level,
{
    if level >= 32 {
        ommers.len() == 0
    } else if index % 2 == 1 {
        &&& ommers.len() > 0
        &&& ommers[0] == node(leaves, level, (index - 1) as nat)
        &&& path_ok(leaves, level + 1, index / 2, ommers.drop_first())
    } else {
        path_ok(leaves, level + 1, index / 2, ommers)
    }
}

/// How many nodes at height `level` have all their leaves in use, when `len`
/// leaves are in use.
pub open spec fn complete(len: nat, level: nat) -> nat
    decreases level,
{
    if level == 0 {
        len
    } else {
        complete(len, (level - 1) as nat) / 2
    }
}

/// A frontier as plain values: the position of the last leaf, that leaf, and
/// the ommers from the lowest up.
pub struct FrontierView {
    pub position: nat,
    pub leaf: Seq<u8>,
    pub ommers: Seq<Seq<u8>>,
}

impl FrontierView {
    /// The frontier of the tree that holds one leaf.
    pub open spec fn single(leaf: Seq<u8>) -> FrontierView {
        FrontierView { position: 0, leaf, ommers: Seq::empty() }
    }

    /// The frontier after `leaf` has been appended.
    pub open spec fn append(self, leaf: Seq<u8>) -> FrontierView {
        FrontierView {
            position: self.position + 1,
            leaf,
            ommers: bubble(0, self.position, self.leaf, self.ommers),
        }
    }

    /// The frontier after each of `leaves` has been appended in turn.
    pub open spec fn append_all(self, leaves: Seq<Seq<u8>>) -> FrontierView
        decreases leaves.len(),
    {
        if leaves.len() == 0 {
            self
        } else {
            self.append_all(leaves.drop_last()).append(leaves.last())
        }
    }

    /// The frontier that comes of appending each of `leaves` in turn, the
    /// first to no tree at all.
    pub open spec fn built(leaves: Seq<Seq<u8>>) -> FrontierView {
        FrontierView::single(leaves[0]).append_all(leaves.drop_first())
    }

    /// The root of the tree that this frontier is the right edge of.
    pub open spec fn root(self) -> Seq<u8> {
        climb(0, self.position, self.leaf, self.ommers)
    }

    /// Whether this is the frontier of the tree over `leaves`.
    pub open spec fn represents(self, leaves: Seq<Seq<u8>>) -> bool {
        &&& leaves.len() == self.position + 1
        &&& self.leaf == leaves[self.position as int]
        &&& path_ok(leaves, 0, self.position, self.ommers)
    }
}

/// The right edge of the commitment tree, kept as new leaves come in.
#[derive(Debug)]
pub struct Frontier {
    position: u32,
    leaf: FieldElement,
    ommers: Vec<FieldElement>,
}

impl View for Frontier {
    type V = FrontierView;

    closed spec fn view(&self) -> FrontierView {
        FrontierView {
            position: self.position as nat,
            leaf: self.leaf@,
            ommers: encodings(self.ommers@),
        }
    }
}

impl Clone for Frontier {
    fn clone(&self) -> (r: Frontier)
        ensures
            r@ == self@,
    {
        proof {
            use_type_invariant(self);
        }
        let mut ommers: Vec<FieldElement> = Vec::new();
        let mut k: usize = 0;
        while k < self.ommers.len()
            invariant
                k <= self.ommers.len(),
                ommers@ =~= self.ommers@.take(k as int),
            decreases self.ommers.len() - k,
        {
            ommers.push(self.ommers[k]);
            k = k + 1;
        }
        assert(ommers@ =~= self.ommers@);
        Frontier { position: self.position, leaf: self.leaf, ommers }
    }
}

/// How many steps of the path from a position up to the root come from the
/// right.
fn count_ones(position: u32) -> (r: usize)
    ensures
        r == ommer_count(0, position as nat),
        r <= 32,
{
    let mut index: u32 = position;
    let mut level: u8 = 0;
    let mut ones: usize = 0;
    while level < 32
        invariant
            level <= 32,
            ones <= level,
            ones + ommer_count(level as nat, index as nat) == ommer_count(0, position as nat),
        decreases 32 - level,
    {
        if index % 2 == 1 {
            ones = ones + 1;
        }
        index = index / 2;
        level = level + 1;
    }
    ones
}

impl Frontier {
    /// The invariant of the type: there is one ommer for each step of the path
    /// that comes from the right.
    #[verifier::type_invariant]
    pub closed spec fn well_formed(self) -> bool {
        self.ommers.len() == ommer_count(0, self.position as nat)
    }

    /// The frontier of the tree that holds `leaf` alone.
    pub fn new(leaf: FieldElement) -> (r: Frontier)
        ensures
            r@ == FrontierView::single(leaf@),
    {
        proof {
            lemma_zero_count(0);
            assert(encodings(Seq::<FieldElement>::empty()) =~= Seq::<Seq<u8>>::empty());
        }
        Frontier { position: 0, leaf, ommers: Vec::new() }
    }

    /// The frontier of the tree over `leaves`, built by appending them one by
    /// one. There is none for no leaves, nor for more than the tree holds.
    pub fn from_leaves(leaves: &Vec<FieldElement>) -> (r: Option<Frontier>)
        ensures
            r is Some <==> 0 < leaves.len() <= capacity(),
            r matches Some(f) ==> f@.represents(encodings(leaves@)) && f@ == FrontierView::built(
                encodings(leaves@),
            ) && f@.root() == tree_root(encodings(leaves@)),
    {
        if leaves.len() == 0 || leaves.len() - 1 > u32::MAX as usize {
            return None;
        }
        let ghost all = encodings(leaves@);
        let mut frontier = Frontier::new(leaves[0]);
        let mut i: usize = 1;
        proof {
            lemma_single_tree(leaves[0]@);
            assert(all.take(1) =~= seq![leaves[0]@]);
            assert(all.drop_first().take(0) =~= Seq::<Seq<u8>>::empty());
        }
        while i < leaves.len()
            invariant
                1 <= i <= leaves.len() <= capacity(),
                all == encodings(leaves@),
                frontier@.position == i - 1,
                frontier@.represents(all.take(i as int)),
                frontier@ == FrontierView::single(leaves[0]@).append_all(
                    all.drop_first().take(i - 1),
                ),
            decreases leaves.len() - i,
        {
            proof {
                lemma_append_tree(frontier@, all.take(i as int), leaves[i as int]@);
                assert(all.take(i as int).push(leaves[i as int]@) =~= all.take(i + 1));
                assert(all.drop_first().take(i as int).drop_last() =~= all.drop_first().take(
                    i - 1,
                ));
                assert(all.drop_first().take(i as int).last() == leaves[i as int]@);
            }
            frontier.push(leaves[i]);
            i = i + 1;
        }
        proof {
            assert(all.take(leaves.len() as int) =~= all);
            assert(all.drop_first().take(leaves.len() - 1) =~= all.drop_first());
            lemma_root_of_tree(frontier@, all);
        }
        Some(frontier)
    }

    /// Rebuilds a frontier from a checkpoint. The checkpoint is corrupt, and
    /// refused, exactly when the number of ommers does not fit the position.
    pub fn from_parts(position: u32, leaf: FieldElement, ommers: Vec<FieldElement>) -> (r: Result<
        Frontier,
        VoteError,
    >)
        ensures
            r is Ok <==> ommers.len() == ommer_count(0, position as nat),
            r matches Ok(f) ==> f@ == (FrontierView {
                position: position as nat,
                leaf: leaf@,
                ommers: encodings(ommers@),
            }),
            r matches Err(e) ==> e == VoteError::FrontierCorrupt,
    {
        if ommers.len() == count_ones(position) {
            Ok(Frontier { position, leaf, ommers })
        } else {
            Err(VoteError::FrontierCorrupt)
        }
    }

    /// Rebuilds a frontier from a checkpoint whose leaf and ommers come as raw
    /// encodings. The checkpoint is corrupt, and refused, exactly when one of
    /// the encodings is not canonical or the number of ommers does not fit the
    /// position.
    pub fn from_checkpoint(position: u32, leaf: [u8; 32], ommers: &Vec<[u8; 32]>) -> (r: Result<
        Frontier,
        VoteError,
    >)
        ensures
            r is Ok <==> is_canonical(leaf@) && (forall|i: int|
                0 <= i < ommers.len() ==> is_canonical(#[trigger] ommers[i]@)) && ommers.len()
                == ommer_count(0, position as nat),
            r matches Ok(f) ==> f@ == (FrontierView {
                position: position as nat,
                leaf: leaf@,
                ommers: Seq::new(ommers.len() as nat, |i: int| ommers[i]@),
            }),
            r matches Err(e) ==> e == VoteError::FrontierCorrupt,
    {
        let leaf = match FieldElement::from_bytes(leaf) {
            Some(leaf) => leaf,
            None => {
                return Err(VoteError::FrontierCorrupt);
            },
        };
        let mut elements: Vec<FieldElement> = Vec::new();
        let mut i: usize = 0;
        while i < ommers.len()
            invariant
                i <= ommers.len(),
                elements.len() == i,
                forall|j: int| 0 <= j < i ==> is_canonical(#[trigger] ommers[j]@),
                forall|j: int| 0 <= j < i ==> (#[trigger] elements[j])@ == ommers[j]@,
            decreases ommers.len() - i,
        {
            match FieldElement::from_bytes(ommers[i]) {
                Some(ommer) => {
                    elements.push(ommer);
                },
                None => {
                    return Err(VoteError::FrontierCorrupt);
                },
            }
            i = i + 1;
        }
        assert(encodings(elements@) =~= Seq::new(ommers.len() as nat, |i: int| ommers[i]@));
        Frontier::from_parts(position, leaf, elements)
    }

    /// The position of the last leaf.
    pub fn position(&self) -> (r: u32)
        ensures
            r == self@.position,
    {
        self.position
    }

    /// The last leaf.
    pub fn leaf(&self) -> (r: FieldElement)
        ensures
            r@ == self@.leaf,
    {
        self.leaf
    }

    /// The ommers, from the lowest up.
    pub fn ommers(&self) -> (r: &Vec<FieldElement>)
        ensures
            encodings(r@) == self@.ommers,
            r.len() == ommer_count(0, self@.position),
    {
        proof {
            use_type_invariant(self);
        }
        &self.ommers
    }

    /// How many more leaves the tree can take.
    pub fn room(&self) -> (r: u32)
        ensures
            r == capacity() - 1 - self@.position,
    {
        u32::MAX - self.position
    }

    /// Appends a leaf and gives the root of the tree that results.
    pub fn append(&mut self, leaf: FieldElement) -> (root: FieldElement)
        requires
            old(self)@.position + 1 < capacity(),
        ensures
            final(self)@ == old(self)@.append(leaf@),
            root@ == final(self)@.root(),
    {
        self.push(leaf);
        self.root()
    }

    /// Appends a leaf.
    pub fn push(&mut self, leaf: FieldElement)
        requires
            old(self)@.position + 1 < capacity(),
        ensures
            final(self)@ == old(self)@.append(leaf@),
    {
        proof {
            use_type_invariant(&*self);
            lemma_pow2_32();
        }
        let ghost before = self@;
        let ghost ommers_before = encodings(self.ommers@);
        let mut carry = self.leaf;
        let mut index: u32 = self.position;
        let mut level: u8 = 0;
        let mut used: usize = 0;
        assert(ommers_before.skip(0) =~= ommers_before);
        while index % 2 == 1
            invariant
                level <= 32,
                used <= self.ommers.len(),
                ommers_before == encodings(self.ommers@),
                self.ommers.len() - used == ommer_count(level as nat, index as nat),
                index + 1 < pow2((32 - level) as nat),
                bubble(0, before.position, before.leaf, before.ommers) == bubble(
                    level as nat,
                    index as nat,
                    carry@,
                    ommers_before.skip(used as int),
                ),
            decreases 32 - level,
        {
            assert(level < 32) by {
                if level == 32 {
                    assert(pow2(0) == 1);
                }
            }
            proof {
                assert(ommers_before.skip(used as int).drop_first() =~= ommers_before.skip(
                    used + 1,
                ));
            }
            carry = combine(level, &self.ommers[used], &carry);
            used = used + 1;
            index = index / 2;
            level = level + 1;
        }
        assert(level < 32) by {
            if level == 32 {
                assert(pow2(0) == 1);
            }
        }
        let mut ommers: Vec<FieldElement> = Vec::new();
        ommers.push(carry);
        let mut k: usize = used;
        while k < self.ommers.len()
            invariant
                used <= k <= self.ommers.len(),
                ommers.len() == 1 + (k - used),
                ommers[0]@ == carry@,
                forall|j: int| 1 <= j < ommers.len() ==> #[trigger] ommers[j]@ == self.ommers[used + j - 1]@,
            decreases self.ommers.len() - k,
        {
            ommers.push(self.ommers[k]);
            k = k + 1;
        }
        proof {
            assert(encodings(ommers@) =~= seq![carry@] + ommers_before.skip(used as int));
            lemma_bubble_len(0, before.position, before.leaf, before.ommers);
        }
        *self = Frontier { position: self.position + 1, leaf, ommers };
    }

    /// The root of the tree.
    pub fn root(&self) -> (r: FieldElement)
        ensures
            r@ == self@.root(),
    {
        proof {
            use_type_invariant(self);
        }
        let ghost all = encodings(self.ommers@);
        let mut current = self.leaf;
        let mut empty = uncommitted();
        let mut index: u32 = self.position;
        let mut level: u8 = 0;
        let mut used: usize = 0;
        assert(all.skip(0) =~= all);
        while level < 32
            invariant
                level <= 32,
                used <= self.ommers.len(),
                all == encodings(self.ommers@),
                self.ommers.len() - used == ommer_count(level as nat, index as nat),
                empty@ == empty_root(level as nat),
                self@.root() == climb(level as nat, index as nat, current@, all.skip(used as int)),
            decreases 32 - level,
        {
            if index % 2 == 1 {
                proof {
                    assert(all.skip(used as int).drop_first() =~= all.skip(used + 1));
                }
                current = combine(level, &self.ommers[used], &current);
                used = used + 1;
            } else {
                current = combine(level, &current, &empty);
            }
            empty = combine(level, &empty, &empty);
            index = index / 2;
            level = level + 1;
        }
        current
    }
}

/// After one more leaf the number of ommers fits the new position.
pub proof fn lemma_bubble_len(level: nat, index: nat, carry: Seq<u8>, ommers: Seq<Seq<u8>>)
    requires
        level <= 32,
        ommers.len() == ommer_count(level, index),
        index + 1 < pow2((32 - level) as nat),
    ensures
        bubble(level, index, carry, ommers).len() == ommer_count(level, index + 1),
    decreases 32 - level,
{
    if level < 32 && index % 2 == 1 {
        lemma_bubble_len(
            level + 1,
            index / 2,
            merkle_crh(level as u8, ommers[0], carry),
            ommers.drop_first(),
        );
    }
}

/// A node all of whose leaves are in use is not changed by one more leaf.
pub proof fn lemma_node_stable(leaves: Seq<Seq<u8>>, leaf: Seq<u8>, level: nat, index: nat)
    requires
        index < complete(leaves.len(), level),
    ensures
        node(leaves.push(leaf), level, index) == node(leaves, level, index),
    decreases level,
{
    if level > 0 {
        lemma_node_stable(leaves, leaf, (level - 1) as nat, 2 * index);
        lemma_node_stable(leaves, leaf, (level - 1) as nat, 2 * index + 1);
    }
}

/// The left siblings of a path stay what they are when one more leaf comes in.
pub proof fn lemma_path_stable(
    leaves: Seq<Seq<u8>>,
    leaf: Seq<u8>,
    level: nat,
    index: nat,
    ommers: Seq<Seq<u8>>,
)
    requires
        index <= complete(leaves.len(), level),
        path_ok(leaves, level, index, ommers),
    ensures
        path_ok(leaves.push(leaf), level, index, ommers),
    decreases 32 - level,
{
    if level < 32 {
        if index % 2 == 1 {
            lemma_node_stable(leaves, leaf, level, (index - 1) as nat);
            lemma_path_stable(leaves, leaf, level + 1, index / 2, ommers.drop_first());
        } else {
            lemma_path_stable(leaves, leaf, level + 1, index / 2, ommers);
        }
    }
}

/// Merging upwards from the last leaf gives the left siblings of the path to the
/// leaf that comes next.
pub proof fn lemma_bubble_path(
    leaves: Seq<Seq<u8>>,
    leaf: Seq<u8>,
    level: nat,
    index: nat,
    carry: Seq<u8>,
    ommers: Seq<Seq<u8>>,
)
    requires
        level <= 32,
        path_ok(leaves, level, index, ommers),
        carry == node(leaves, level, index),
        index + 1 == complete(leaves.len(), level),
        index + 1 < pow2((32 - level) as nat),
    ensures
        path_ok(leaves.push(leaf), level, index + 1, bubble(level, index, carry, ommers)),
    decreases 32 - level,
{
    if index % 2 == 1 {
        lemma_bubble_path(
            leaves,
            leaf,
            level + 1,
            index / 2,
            merkle_crh(level as u8, ommers[0], carry),
            ommers.drop_first(),
        );
    } else {
        let merged = seq![carry] + ommers;
        assert(merged.drop_first() =~= ommers);
        lemma_node_stable(leaves, leaf, level, index);
        lemma_path_stable(leaves, leaf, level + 1, index / 2, ommers);
    }
}

/// Climbing from a node of the path, with the left siblings as ommers, ends at
/// the root of the tree over the leaves.
pub proof fn lemma_climb_root(
    leaves: Seq<Seq<u8>>,
    level: nat,
    index: nat,
    current: Seq<u8>,
    ommers: Seq<Seq<u8>>,
)
    requires
        level <= 32,
        leaves.len() <= capacity(),
        path_ok(leaves, level, index, ommers),
        current == node(leaves, level, index),
        index + 1 == width(leaves.len(), level),
    ensures
        climb(level, index, current, ommers) == tree_root(leaves),
    decreases 32 - level,
{
    if level == 32 {
        lemma_pow2_32();
        lemma_width_bound(leaves.len(), 32, 32);
    } else if index % 2 == 1 {
        lemma_climb_root(
            leaves,
            level + 1,
            index / 2,
            merkle_crh(level as u8, ommers[0], current),
            ommers.drop_first(),
        );
    } else {
        lemma_node_empty(leaves, level, index + 1);
        lemma_climb_root(
            leaves,
            level + 1,
            index / 2,
            merkle_crh(level as u8, current, empty_root(level)),
            ommers,
        );
    }
}

/// The frontier of a tree gives that tree's root.
pub proof fn lemma_root_of_tree(frontier: FrontierView, leaves: Seq<Seq<u8>>)
    requires
        frontier.represents(leaves),
        leaves.len() <= capacity(),
    ensures
        frontier.root() == tree_root(leaves),
{
    lemma_climb_root(leaves, 0, frontier.position, frontier.leaf, frontier.ommers);
}

/// Appending a leaf to the frontier of a tree gives the frontier of the tree
/// with that leaf added.
pub proof fn lemma_append_tree(frontier: FrontierView, leaves: Seq<Seq<u8>>, leaf: Seq<u8>)
    requires
        frontier.represents(leaves),
        frontier.position + 1 < capacity(),
    ensures
        frontier.append(leaf).represents(leaves.push(leaf)),
{
    lemma_pow2_32();
    lemma_bubble_path(leaves, leaf, 0, frontier.position, frontier.leaf, frontier.ommers);
}

/// Appended leaf by leaf, the frontier of a tree becomes the frontier of the
/// tree with all those leaves added, and its root is the root of that tree built
/// from nothing.
pub proof fn lemma_incremental_root(
    frontier: FrontierView,
    leaves: Seq<Seq<u8>>,
    more: Seq<Seq<u8>>,
)
    requires
        frontier.represents(leaves),
        leaves.len() + more.len() <= capacity(),
    ensures
        frontier.append_all(more).represents(leaves + more),
        frontier.append_all(more).root() == tree_root(leaves + more),
    decreases more.len(),
{
    if more.len() == 0 {
        assert(leaves + more =~= leaves);
    } else {
        lemma_incremental_root(frontier, leaves, more.drop_last());
        lemma_append_tree(
            frontier.append_all(more.drop_last()),
            leaves + more.drop_last(),
            more.last(),
        );
        assert((leaves + more.drop_last()).push(more.last()) =~= leaves + more);
    }
    lemma_root_of_tree(frontier.append_all(more), leaves + more);
}

/// The frontier built from nothing over some leaves is the frontier of the tree
/// over those leaves, and gives that tree's root.
pub proof fn lemma_built_root(leaves: Seq<Seq<u8>>)
    requires
        0 < leaves.len() <= capacity(),
    ensures
        FrontierView::built(leaves).represents(leaves),
        FrontierView::built(leaves).root() == tree_root(leaves),
{
    lemma_single_tree(leaves[0]);
    lemma_incremental_root(FrontierView::single(leaves[0]), seq![leaves[0]], leaves.drop_first());
    assert(seq![leaves[0]] + leaves.drop_first() =~= leaves);
}

/// The three ways to the root agree: the tree built from nothing over a list
/// of leaves, the frontier built from nothing over the list, and the frontier
/// built over a beginning of the list with the rest appended to it.
pub proof fn lemma_roots_agree(history: Seq<Seq<u8>>, more: Seq<Seq<u8>>)
    requires
        0 < history.len(),
        history.len() + more.len() <= capacity(),
    ensures
        FrontierView::built(history).append_all(more).root() == tree_root(history + more),
        FrontierView::built(history + more).root() == tree_root(history + more),
{
    lemma_built_root(history);
    lemma_incremental_root(FrontierView::built(history), history, more);
    lemma_built_root(history + more);
}

/// Appending leaf by leaf moves the position by the number of leaves.
pub proof fn lemma_append_all_position(frontier: FrontierView, more: Seq<Seq<u8>>)
    ensures
        frontier.append_all(more).position == frontier.position + more.len(),
    decreases more.len(),
{
    if more.len() > 0 {
        lemma_append_all_position(frontier, more.drop_last());
    }
}

/// The frontier of the tree that holds one leaf is that leaf alone.
pub proof fn lemma_single_tree(leaf: Seq<u8>)
    ensures
        FrontierView::single(leaf).represents(seq![leaf]),
{
    lemma_zero_path(seq![leaf], 0);
}

proof fn lemma_zero_path(leaves: Seq<Seq<u8>>, level: nat)
    ensures
        path_ok(leaves, level, 0, Seq::empty()),
    decreases 32 - level,
{
    if level < 32 {
        lemma_zero_path(leaves, level + 1);
    }
}

proof fn lemma_zero_count(level: nat)
    ensures
        ommer_count(level, 0) == 0,
    decreases 32 - level,
{
    if level < 32 {
        lemma_zero_count(level + 1);
    }
}

} // verus!
