//! What counts as a voter's key, and whether the candidates' addresses are the
//! ones that the election's seed gives.

use crate::error::VoteError;
use orchard::keys::{FullViewingKey, SpendingKey};
use vstd::prelude::*;
use zcash_address::unified::{Encoding, Ufvk};

verus! {

/// Which of the two lines of addresses of a key a note was sent to: the one
/// that the key's owner hands out, or the one that the owner keeps for change.
#[derive(Clone, Copy, Debug, PartialEq, Eq, Structural)]
pub enum Scope {
    External,
    Internal,
}

/// The normal form that `Mnemonic::from_phrase` of `bip0039` gives a seed
/// phrase, with the English word list; none for a text that it does not accept.
pub uninterp spec fn normal_phrase(phrase: Seq<char>) -> Option<Seq<char>>;

/// The seed that `Mnemonic::to_seed` of `bip0039` derives from a seed phrase in
/// normal form and a passphrase; none for a text that is no such phrase.
pub uninterp spec fn phrase_seed(phrase: Seq<char>, passphrase: Seq<char>) -> Option<Seq<u8>>;

/// Whether a text is a seed phrase.
pub open spec fn is_seed_phrase(key: Seq<char>) -> bool {
    normal_phrase(key) is Some
}

/// Whether a text is a unified full viewing key: what `Ufvk::decode` of
/// `zcash_address` accepts.
pub uninterp spec fn is_viewing_key(key: Seq<char>) -> bool;

/// `Mnemonic::from_phrase` of `bip0039`, with the phrase written out by
/// `Mnemonic::phrase`. Which texts it accepts, and what normal form it gives
/// them, goes by the name `normal_phrase`.
#[verifier::external_body]
fn normalize_phrase(phrase: &str) -> (r: Option<String>)
    ensures
        r matches Some(normal) ==> normal_phrase(phrase@) == Some(normal@),
        r is None ==> normal_phrase(phrase@) is None,
{
    <bip0039::Mnemonic>::from_phrase(phrase).ok().map(|m| m.phrase().to_string())
}

/// `Mnemonic::to_seed` of `bip0039` on a phrase read by
/// `Mnemonic::from_normalized_phrase`. Which seed comes goes by the name
/// `phrase_seed`.
#[verifier::external_body]
fn seed_from_phrase(phrase: &str, passphrase: &str) -> (r: Option<[u8; 64]>)
    ensures
        r matches Some(seed) ==> phrase_seed(phrase@, passphrase@) == Some(seed@),
        r is None ==> phrase_seed(phrase@, passphrase@) is None,
{
    <bip0039::Mnemonic>::from_normalized_phrase(phrase).ok().map(|m| m.to_seed(passphrase))
}

/// `Ufvk::decode` of `zcash_address`, asked only whether it accepts the text.
/// Which texts it accepts goes by the name `is_viewing_key`.
#[verifier::external_body]
fn viewing_key_decodes(key: &str) -> (r: bool)
    ensures
        r == is_viewing_key(key@),
{
    Ufvk::decode(key).is_ok()
}

/// A key is accepted if it is a seed phrase or a viewing key.
pub fn accepts_key(seed_phrase: bool, viewing_key: bool) -> (r: bool)
    ensures
        r == (seed_phrase || viewing_key),
{
    seed_phrase || viewing_key
}

/// Whether `key` can be a voter's key: a seed phrase or a unified full viewing
/// key.
pub fn validate_key(key: &str) -> (r: Result<bool, ()>)
    ensures
        r == Ok::<bool, ()>(is_seed_phrase(key@) || is_viewing_key(key@)),
{
    let seed_phrase = normalize_phrase(key).is_some();
    let viewing_key = !seed_phrase && viewing_key_decodes(key);
    Ok(accepts_key(seed_phrase, viewing_key))
}

/// The raw addresses of a list, in order.
pub open spec fn raw(addresses: Seq<[u8; 43]>) -> Seq<Seq<u8>> {
    Seq::new(addresses.len(), |i: int| addresses[i]@)
}

/// The first candidate, from place `from` on, whose published address is not
/// the derived one, or for whom none was derived; the number of candidates if
/// there is none.
pub open spec fn first_mismatch(published: Seq<Seq<u8>>, derived: Seq<Seq<u8>>, from: int) -> int
    decreases published.len() - from,
{
    if from < 0 || from >= published.len() {
        published.len() as int
    } else if from >= derived.len() || published[from] != derived[from] {
        from
    } else {
        first_mismatch(published, derived, from + 1)
    }
}

/// Whether two raw addresses are the same.
pub fn same_address(a: &[u8; 43], b: &[u8; 43]) -> (r: bool)
    ensures
        r == (a@ == b@),
{
    let mut k: usize = 0;
    while k < 43
        invariant
            k <= 43,
            forall|j: int| 0 <= j < k ==> a@[j] == b@[j],
        decreases 43 - k,
    {
        if a[k] != b[k] {
            assert(a@[k as int] != b@[k as int]);
            return false;
        }
        k = k + 1;
    }
    assert(a@ =~= b@);
    true
}

/// Checks that each candidate's published address is the one derived for the
/// candidate's place, both in their raw form. The first candidate for whom it
/// is not is named in the error.
pub fn check_candidate_addresses(published: &Vec<[u8; 43]>, derived: &Vec<[u8; 43]>) -> (r: Result<
    (),
    VoteError,
>)
    ensures
        r is Ok <==> first_mismatch(raw(published@), raw(derived@), 0) == published.len(),
        r matches Err(e) ==> e == VoteError::InvalidCandidateAddress(
            first_mismatch(raw(published@), raw(derived@), 0) as usize,
        ),
{
    let mut i: usize = 0;
    while i < published.len()
        invariant
            i <= published.len(),
            first_mismatch(raw(published@), raw(derived@), 0) == first_mismatch(
                raw(published@),
                raw(derived@),
                i as int,
            ),
        decreases published.len() - i,
    {
        if i >= derived.len() {
            return Err(VoteError::InvalidCandidateAddress(i));
        }
        if !same_address(&published[i], &derived[i]) {
            return Err(VoteError::InvalidCandidateAddress(i));
        }
        i = i + 1;
    }
    Ok(())
}

/// The spending key that `SpendingKey::from_zip32_seed` of `orchard` derives
/// from a seed for a coin type and an account, as raw bytes; none where it
/// derives none.
pub uninterp spec fn zip32_spending_key(seed: Seq<u8>, coin_type: u32, account: u32) -> Option<
    Seq<u8>,
>;

/// The full viewing key of a spending key, both in their raw form; none for
/// bytes that are no spending key.
pub uninterp spec fn full_viewing_key(spending_key: Seq<u8>) -> Option<Seq<u8>>;

/// The address that `FullViewingKey::address_at` of `orchard` gives at an index
/// of the external line of addresses, key and address in their raw form; none
/// for bytes that are no full viewing key.
pub uninterp spec fn address_at(viewing_key: Seq<u8>, index: u64) -> Option<Seq<u8>>;

/// `SpendingKey::from_zip32_seed` of `orchard`, with the key written out by
/// `SpendingKey::to_bytes`. An account number that ZIP 32 does not allow, and a
/// seed from which no key comes, give none. Which key comes goes by the name
/// `zip32_spending_key`.
#[verifier::external_body]
fn spending_key_from_seed(seed: &[u8; 64], coin_type: u32, account: u32) -> (r: Option<[u8; 32]>)
    ensures
        r matches Some(key) ==> zip32_spending_key(seed@, coin_type, account) == Some(key@),
        r is None ==> zip32_spending_key(seed@, coin_type, account) is None,
{
    let account = account.try_into().ok()?;
    SpendingKey::from_zip32_seed(seed, coin_type, account).ok().map(|sk| *sk.to_bytes())
}

/// `FullViewingKey::from` of `orchard` on a spending key read by
/// `SpendingKey::from_bytes`, with the viewing key written out by
/// `FullViewingKey::to_bytes`. Which key comes goes by the name
/// `full_viewing_key`. Reading a key stops the program if the key's signing
/// scalar is zero; no key is known of which that holds.
#[verifier::external_body]
fn viewing_key_from_spending_key(key: &[u8; 32]) -> (r: Option<[u8; 96]>)
    ensures
        r matches Some(viewing_key) ==> full_viewing_key(key@) == Some(viewing_key@),
        r is None ==> full_viewing_key(key@) is None,
{
    Option::from(SpendingKey::from_bytes(*key)).map(
        |sk: SpendingKey| FullViewingKey::from(&sk).to_bytes(),
    )
}

/// `FullViewingKey::address_at` of `orchard`, for the external line of
/// addresses, on a viewing key read by `FullViewingKey::from_bytes`, with the
/// address written out by `Address::to_raw_address_bytes`. Which address comes
/// goes by the name `address_at`.
#[verifier::external_body]
fn address_from_viewing_key(key: &[u8; 96], index: u64) -> (r: Option<[u8; 43]>)
    ensures
        r matches Some(address) ==> address_at(key@, index) == Some(address@),
        r is None ==> address_at(key@, index) is None,
{
    FullViewingKey::from_bytes(key).map(
        |fvk| fvk.address_at(index, orchard::keys::Scope::External).to_raw_address_bytes(),
    )
}

/// The seed of an election: what its seed phrase gives with the passphrase
/// `vote`.
pub open spec fn election_seed_of(phrase: Seq<char>) -> Option<Seq<u8>> {
    match normal_phrase(phrase) {
        Some(normal) => phrase_seed(normal, "vote"@),
        None => None,
    }
}

/// The seed of the election whose seed phrase is `phrase`; none if the text is
/// no seed phrase.
pub fn election_seed(phrase: &str) -> (r: Option<[u8; 64]>)
    ensures
        r matches Some(seed) ==> election_seed_of(phrase@) == Some(seed@),
        r is None ==> election_seed_of(phrase@) is None,
{
    match normalize_phrase(phrase) {
        Some(normal) => seed_from_phrase(normal.as_str(), "vote"),
        None => None,
    }
}

/// The coin type under which the candidates' keys are derived.
pub const COIN_TYPE: u32 = 133;

/// The raw address of the candidate with index `index` under the election's
/// seed: the first address of the external line of the key that the seed gives
/// for the account with that index.
pub open spec fn candidate_address(seed: Seq<u8>, index: u32) -> Option<Seq<u8>> {
    match zip32_spending_key(seed, COIN_TYPE, index) {
        Some(spending_key) => match full_viewing_key(spending_key) {
            Some(viewing_key) => address_at(viewing_key, 0),
            None => None,
        },
        None => None,
    }
}

/// The raw address of the candidate with index `index` under the election's
/// seed.
pub fn derive_candidate_address(seed: &[u8; 64], index: u32) -> (r: Option<[u8; 43]>)
    ensures
        r matches Some(address) ==> candidate_address(seed@, index) == Some(address@),
        r is None ==> candidate_address(seed@, index) is None,
{
    let spending_key = match spending_key_from_seed(seed, COIN_TYPE, index) {
        Some(key) => key,
        None => {
            return None;
        },
    };
    let viewing_key = match viewing_key_from_spending_key(&spending_key) {
        Some(key) => key,
        None => {
            return None;
        },
    };
    address_from_viewing_key(&viewing_key, 0)
}

/// Whether the published address of the candidate at place `place` is the one
/// that the seed gives for that place.
pub open spec fn is_derived(seed: Seq<u8>, published: Seq<Seq<u8>>, place: int) -> bool {
    place <= u32::MAX && candidate_address(seed, place as u32) == Some(published[place])
}

/// The first candidate, from place `from` on, whose published address is not
/// the one that the seed gives; the number of candidates if there is none.
pub open spec fn first_stray(seed: Seq<u8>, published: Seq<Seq<u8>>, from: int) -> int
    decreases published.len() - from,
{
    if from < 0 || from >= published.len() {
        published.len() as int
    } else if !is_derived(seed, published, from) {
        from
    } else {
        first_stray(seed, published, from + 1)
    }
}

/// Whether the seed gives an address for the candidate at place `place`.
pub open spec fn is_derivable(seed: Seq<u8>, place: int) -> bool {
    place <= u32::MAX && candidate_address(seed, place as u32) is Some
}

/// The raw addresses of the first `n` candidates under the election's seed, in
/// the candidates' order: the address at place `k` is the one that the seed
/// gives for the account with number `k`. There is no list where the seed
/// gives no address for one of the places.
pub fn derive_candidate_addresses(seed: &[u8; 64], n: usize) -> (r: Option<Vec<[u8; 43]>>)
    ensures
        r is Some <==> forall|k: int| 0 <= k < n ==> #[trigger] is_derivable(seed@, k),
        r matches Some(list) ==> list.len() == n && forall|k: int|
            0 <= k < n ==> #[trigger] is_derived(seed@, raw(list@), k),
{
    let mut list: Vec<[u8; 43]> = Vec::new();
    let mut i: usize = 0;
    while i < n
        invariant
            i <= n,
            list.len() == i,
            forall|k: int| 0 <= k < i ==> #[trigger] is_derivable(seed@, k),
            forall|k: int| 0 <= k < i ==> #[trigger] is_derived(seed@, raw(list@), k),
        decreases n - i,
    {
        if i > u32::MAX as usize {
            assert(!is_derivable(seed@, i as int));
            return None;
        }
        match derive_candidate_address(seed, i as u32) {
            Some(address) => {
                let ghost before = list@;
                list.push(address);
                proof {
                    assert forall|k: int| 0 <= k < i + 1 implies #[trigger] is_derived(
                        seed@,
                        raw(list@),
                        k,
                    ) by {
                        if k < i {
                            assert(is_derived(seed@, raw(before), k));
                            assert(list@[k] == before[k]);
                        }
                    }
                }
            },
            None => {
                assert(!is_derivable(seed@, i as int));
                return None;
            },
        }
        i = i + 1;
    }
    Some(list)
}

/// Where the addresses derived so far are the published ones, and either all
/// are derived or the next cannot be the published one, the first stray
/// candidate is the first mismatch.
proof fn lemma_first_stray(
    seed: Seq<u8>,
    published: Seq<Seq<u8>>,
    derived: Seq<Seq<u8>>,
    from: int,
)
    requires
        0 <= from <= derived.len() <= published.len(),
        forall|i: int| 0 <= i < derived.len() ==> #[trigger] is_derived(seed, derived, i),
        derived.len() < published.len() ==> !is_derived(seed, published, derived.len() as int),
    ensures
        first_stray(seed, published, from) == first_mismatch(published, derived, from),
    decreases published.len() - from,
{
    if from < derived.len() {
        assert(is_derived(seed, derived, from));
        lemma_first_stray(seed, published, derived, from + 1);
    }
}

/// Checks that each candidate's published address is the one that the
/// election's seed gives for the candidate's place. The first candidate for
/// whom it is not is named in the error.
pub fn check_candidates(seed: &[u8; 64], published: &Vec<[u8; 43]>) -> (r: Result<(), VoteError>)
    ensures
        r is Ok <==> first_stray(seed@, raw(published@), 0) == published.len(),
        r matches Err(e) ==> e == VoteError::InvalidCandidateAddress(
            first_stray(seed@, raw(published@), 0) as usize,
        ),
{
    let mut derived: Vec<[u8; 43]> = Vec::new();
    let mut i: usize = 0;
    let mut derivable = true;
    while derivable && i < published.len()
        invariant
            i == derived.len(),
            i <= published.len(),
            forall|j: int|
                0 <= j < derived.len() ==> #[trigger] is_derived(seed@, raw(derived@), j),
            !derivable ==> i < published.len() && !is_derived(seed@, raw(published@), i as int),
        decreases published.len() - i + if derivable { 1int } else { 0int },
    {
        if i > u32::MAX as usize {
            derivable = false;
        } else {
            match derive_candidate_address(seed, i as u32) {
                Some(address) => {
                    let ghost before = derived@;
                    derived.push(address);
                    proof {
                        assert forall|j: int| 0 <= j < derived.len() implies #[trigger] is_derived(
                            seed@,
                            raw(derived@),
                            j,
                        ) by {
                            if j < before.len() {
                                assert(is_derived(seed@, raw(before), j));
                                assert(derived@[j] == before[j]);
                            }
                        }
                    }
                    i = i + 1;
                },
                None => {
                    derivable = false;
                },
            }
        }
    }
    proof {
        lemma_first_stray(seed@, raw(published@), raw(derived@), 0);
    }
    check_candidate_addresses(published, &derived)
}

} // verus!
