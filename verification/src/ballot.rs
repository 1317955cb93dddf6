//! A ballot as the engine reads it: what each action spends and creates, what
//! the ballot was built against, and the hash that identifies it.

use crate::element::FieldElement;
use vstd::prelude::*;

verus! {

/// One spend and one new note: the nullifier of the note spent and the
/// commitment of the note created.
#[derive(Clone, Copy, Debug)]
pub struct Action {
    pub nullifier: FieldElement,
    pub commitment: FieldElement,
}

/// The pair of roots that a ballot was built against.
#[derive(Clone, Copy, Debug)]
pub struct Anchor {
    pub nullifier_root: FieldElement,
    pub commitment_root: FieldElement,
}

/// One voter's ballot.
#[derive(Clone, Debug)]
pub struct Ballot {
    pub version: u32,
    pub actions: Vec<Action>,
    pub anchor: Anchor,
    pub sighash: [u8; 32],
}

/// What a viewing key found in an action: the value of the note, and the
/// nullifier that shows when the note is spent.
#[derive(Clone, Copy, Debug)]
pub struct Note {
    pub value: u64,
    pub nullifier: FieldElement,
}

/// What a viewing key found in an action, as plain values.
pub struct NoteView {
    pub value: nat,
    pub nullifier: Seq<u8>,
}

impl View for Note {
    type V = NoteView;

    open spec fn view(&self) -> NoteView {
        NoteView { value: self.value as nat, nullifier: self.nullifier@ }
    }
}

/// A ballot as plain values.
pub struct BallotView {
    pub version: nat,
    /// The nullifiers of the actions, in order.
    pub nullifiers: Seq<Seq<u8>>,
    /// The commitments of the actions, in order.
    pub commitments: Seq<Seq<u8>>,
    /// The nullifier root that the ballot was built against.
    pub nullifier_root: Seq<u8>,
    /// The commitment root that the ballot was built against.
    pub commitment_root: Seq<u8>,
    /// The hash that identifies the ballot.
    pub sighash: Seq<u8>,
}

impl View for Ballot {
    type V = BallotView;

    open spec fn view(&self) -> BallotView {
        BallotView {
            version: self.version as nat,
            nullifiers: Seq::new(self.actions.len() as nat, |i: int| self.actions[i].nullifier@),
            commitments: Seq::new(self.actions.len() as nat, |i: int| self.actions[i].commitment@),
            nullifier_root: self.anchor.nullifier_root@,
            commitment_root: self.anchor.commitment_root@,
            sighash: self.sighash@,
        }
    }
}

} // verus!
