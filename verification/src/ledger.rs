//! The two sets that guard an election: the nullifiers recorded so far, and the
//! commitment roots that a ballot may be anchored to.

use crate::element::{encodings, FieldElement};
use crate::element_set::{increasing, ElementSet};
use crate::error::VoteError;
use vstd::prelude::*;

verus! {

/// The nullifiers of all accepted ballots. A nullifier is recorded once: a
/// second time is a double vote.
#[derive(Debug)]
pub struct NullifierLedger {
    seen: ElementSet,
}

impl View for NullifierLedger {
    type V = Set<Seq<u8>>;

    closed spec fn view(&self) -> Set<Seq<u8>> {
        self.seen@
    }
}

impl Clone for NullifierLedger {
    fn clone(&self) -> (r: NullifierLedger)
        ensures
            r@ == self@,
    {
        NullifierLedger { seen: self.seen.clone() }
    }
}

impl NullifierLedger {
    /// The ledger with nothing recorded.
    pub fn new() -> (r: NullifierLedger)
        ensures
            r@ == Set::<Seq<u8>>::empty(),
    {
        NullifierLedger { seen: ElementSet::new() }
    }

    /// Whether `nullifier` has been recorded.
    pub fn contains(&self, nullifier: &FieldElement) -> (r: bool)
        ensures
            r == self@.contains(nullifier@),
    {
        self.seen.contains(nullifier)
    }

    /// Records `nullifier`, unless it has been recorded before: then the ledger
    /// stays as it is and the answer is `DuplicateNullifier`.
    pub fn record(&mut self, nullifier: FieldElement) -> (r: Result<(), VoteError>)
        ensures
            r is Ok <==> !old(self)@.contains(nullifier@),
            r matches Err(e) ==> e == VoteError::DuplicateNullifier && final(self)@ == old(self)@,
            final(self)@ == old(self)@.insert(nullifier@),
    {
        let fresh = self.seen.insert(nullifier);
        if fresh {
            Ok(())
        } else {
            Err(VoteError::DuplicateNullifier)
        }
    }

    /// The nullifiers recorded, in increasing order: the form in which the
    /// ledger is written out.
    pub fn sorted(&self) -> (r: &Vec<FieldElement>)
        ensures
            increasing(r@),
            encodings(r@).to_set() == self@,
    {
        self.seen.elements()
    }

    /// How many nullifiers have been recorded.
    pub fn len(&self) -> (r: usize)
        ensures
            r == self@.len(),
            self@.finite(),
    {
        self.seen.len()
    }
}

/// The commitment roots that the tree has had. Roots are added and never taken
/// away, so a ballot built against a root of some time ago still finds it.
#[derive(Debug)]
pub struct RootSet {
    roots: ElementSet,
}

impl View for RootSet {
    type V = Set<Seq<u8>>;

    closed spec fn view(&self) -> Set<Seq<u8>> {
        self.roots@
    }
}

impl Clone for RootSet {
    fn clone(&self) -> (r: RootSet)
        ensures
            r@ == self@,
    {
        RootSet { roots: self.roots.clone() }
    }
}

impl RootSet {
    /// The set that holds `root` alone.
    pub fn new(root: FieldElement) -> (r: RootSet)
        ensures
            r@ == Set::<Seq<u8>>::empty().insert(root@),
    {
        let mut roots = ElementSet::new();
        roots.insert(root);
        RootSet { roots }
    }

    /// Whether `root` is a root that the tree has had.
    pub fn contains(&self, root: &FieldElement) -> (r: bool)
        ensures
            r == self@.contains(root@),
    {
        self.roots.contains(root)
    }

    /// Adds `root`.
    pub fn insert(&mut self, root: FieldElement)
        ensures
            final(self)@ == old(self)@.insert(root@),
    {
        self.roots.insert(root);
    }

    /// How many roots the set holds.
    pub fn len(&self) -> (r: usize)
        ensures
            r == self@.len(),
            self@.finite(),
    {
        self.roots.len()
    }
}

} // verus!
