//! An election as published: what is asked, who can be chosen, and the state
//! of the pool that ballots are checked against.

use crate::element::{encodings, FieldElement};
use crate::frontier::Frontier;
use crate::merkle::{capacity, tree_root};
use crate::text::{pieces, texts, trimmed, trimmed_lines};
use crate::trees::reference_state;
use vstd::prelude::*;

verus! {

/// One of the choices on offer, with the address that votes for it are sent to.
#[derive(Clone, Debug)]
pub struct CandidateChoice {
    pub address: String,
    pub choice: String,
}

/// A published election. Nothing of it changes once it is published.
#[derive(Clone, Debug)]
pub struct Election {
    pub name: String,
    pub start_height: u32,
    pub end_height: u32,
    pub question: String,
    pub candidates: Vec<CandidateChoice>,
    pub signature_required: bool,
    /// The root of the commitment tree when the election was made.
    pub cmx: FieldElement,
    /// The root of the nullifier tree when the election was made.
    pub nf: FieldElement,
    /// The frontier of the commitment tree when the election was made.
    pub cmx_frontier: Option<Frontier>,
}

impl Election {
    /// The candidates' addresses, in order.
    pub open spec fn addresses(&self) -> Seq<Seq<char>> {
        Seq::new(self.candidates.len() as nat, |i: int| self.candidates[i].address@)
    }

    /// The candidates' labels, in order.
    pub open spec fn choices(&self) -> Seq<Seq<char>> {
        Seq::new(self.candidates.len() as nat, |i: int| self.candidates[i].choice@)
    }

    /// No two candidates share an address.
    pub open spec fn well_formed(&self) -> bool {
        self.addresses().no_duplicates()
    }

    /// Whether no two candidates share an address.
    pub fn has_unique_addresses(&self) -> (r: bool)
        ensures
            r == self.well_formed(),
    {
        let ghost addresses = self.addresses();
        let mut i: usize = 0;
        while i < self.candidates.len()
            invariant
                i <= self.candidates.len(),
                addresses == self.addresses(),
                forall|a: int, b: int| 0 <= a < b < i ==> addresses[a] != addresses[b],
            decreases self.candidates.len() - i,
        {
            let mut j: usize = 0;
            while j < i
                invariant
                    j <= i < self.candidates.len(),
                    addresses == self.addresses(),
                    forall|a: int| 0 <= a < j ==> addresses[a] != addresses[i as int],
                decreases i - j,
            {
                if self.candidates[j].address == self.candidates[i].address {
                    assert(addresses[j as int] == addresses[i as int]);
                    return false;
                }
                j = j + 1;
            }
            i = i + 1;
        }
        true
    }
}

/// What the maker of an election fills in. The choices stand one on a line.
#[derive(Clone, Debug)]
pub struct ElectionTemplate {
    pub name: String,
    pub start: u32,
    pub end: u32,
    pub question: String,
    pub choices: String,
    pub signature_required: bool,
}

/// A new election together with the seed phrase that its candidates' keys come
/// from.
#[derive(Clone, Debug)]
pub struct ElectionData {
    pub seed: String,
    pub election: Election,
}

impl ElectionTemplate {
    /// The labels of the choices: the lines of `choices`, once the white space
    /// at its two ends is taken off.
    pub open spec fn labels(&self) -> Seq<Seq<char>> {
        pieces(trimmed(self.choices@), '\n')
    }

    /// The labels of the choices, in order.
    pub fn choice_labels(&self) -> (r: Vec<String>)
        ensures
            texts(r@) == self.labels(),
            r.len() >= 1,
    {
        trimmed_lines(self.choices.as_str())
    }
}

/// Makes the election that a template describes. `addresses` holds the address
/// of each choice, in the order of the choices; `nf_ranges` and `cmxs` are the
/// nullifier ranges and the commitments of the pool as the election finds it.
/// The election is pinned to the roots of the trees over the two lists and to
/// the frontier of the commitment tree, whose root is the commitment root.
/// There must be one address for each choice: else no election is made.
pub fn create_election(
    template: ElectionTemplate,
    addresses: Vec<String>,
    nf_ranges: &Vec<FieldElement>,
    cmxs: &Vec<FieldElement>,
) -> (r: Option<Election>)
    ensures
        r is Some <==> addresses.len() == template.labels().len(),
        r matches Some(election) ==> election.name == template.name && election.start_height
            == template.start && election.end_height == template.end && election.question
            == template.question && election.signature_required == template.signature_required
            && election.choices() == template.labels() && election.addresses() == texts(
            addresses@,
        ),
        r matches Some(election) ==> election.nf@ == tree_root(encodings(nf_ranges@))
            && election.cmx@ == tree_root(encodings(cmxs@)) && (election.cmx_frontier is Some
            <==> 0 < cmxs.len() <= capacity()),
        r matches Some(election) ==> (election.cmx_frontier matches Some(frontier)
            ==> frontier@.represents(encodings(cmxs@)) && frontier@.root() == election.cmx@),
{
    let labels = template.choice_labels();
    if labels.len() != addresses.len() {
        return None;
    }
    let mut candidates: Vec<CandidateChoice> = Vec::new();
    let mut i: usize = 0;
    while i < labels.len()
        invariant
            i <= labels.len(),
            labels.len() == addresses.len(),
            candidates.len() == i,
            forall|j: int|
                0 <= j < i ==> (#[trigger] candidates[j]).choice@ == labels[j]@
                    && candidates[j].address@ == addresses[j]@,
        decreases labels.len() - i,
    {
        candidates.push(
            CandidateChoice { address: addresses[i].clone(), choice: labels[i].clone() },
        );
        i = i + 1;
    }
    let (nf, cmx, cmx_frontier) = reference_state(nf_ranges, cmxs);
    let election = Election {
        name: template.name,
        start_height: template.start,
        end_height: template.end,
        question: template.question,
        candidates,
        signature_required: template.signature_required,
        cmx,
        nf,
        cmx_frontier,
    };
    proof {
        assert(election.choices() =~= texts(labels@));
        assert(election.addresses() =~= texts(addresses@));
    }
    Some(election)
}

/// How far the download of the pool's history has come when it stands at
/// `height`, on a scale on which the whole window from `start` to `end` counts
/// for 50.
pub fn download_progress(height: u32, start: u32, end: u32) -> (r: u32)
    requires
        start <= height <= end,
        start < end,
    ensures
        r == 100 * (height - start) / (end - start) / 2,
        r <= 50,
{
    let done: u64 = 100 * ((height - start) as u64);
    let whole: u64 = (end - start) as u64;
    assert(done / whole <= 100) by (nonlinear_arith)
        requires
            done <= 100 * whole,
            whole > 0,
    ;
    (done / whole / 2) as u32
}

} // verus!
