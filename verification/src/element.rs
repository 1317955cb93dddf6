//! Field elements in their canonical 32-byte encoding: the form in which
//! nullifiers, note commitments and tree roots travel.

use pasta_curves::group::ff::PrimeField;
use vstd::prelude::*;

verus! {

/// The number that a byte string denotes when read least significant byte first,
/// starting at index `from`.
pub open spec fn le_value_from(bytes: Seq<u8>, from: int) -> nat
    decreases bytes.len() - from,
{
    if from < 0 || from >= bytes.len() {
        0
    } else {
        bytes[from] as nat + 256 * le_value_from(bytes, from + 1)
    }
}

/// The number that a byte string denotes when read least significant byte first.
pub open spec fn le_value(bytes: Seq<u8>) -> nat {
    le_value_from(bytes, 0)
}

/// The order of the Pallas base field.
pub open spec fn pallas_modulus() -> nat {
    0x40000000000000000000000000000000224698fc094cf91b992d30ed00000001nat
}

/// A 32-byte string is canonical when it denotes a number below the field order.
pub open spec fn is_canonical(bytes: Seq<u8>) -> bool {
    bytes.len() == 32 && le_value(bytes) < pallas_modulus()
}

/// Two strings that agree from index `from` on denote the same number from there.
pub proof fn lemma_le_value_agree(a: Seq<u8>, b: Seq<u8>, from: int)
    requires
        a.len() == b.len(),
        0 <= from,
        forall|j: int| from <= j < a.len() ==> a[j] == b[j],
    ensures
        le_value_from(a, from) == le_value_from(b, from),
    decreases a.len() - from,
{
    if from < a.len() {
        lemma_le_value_agree(a, b, from + 1);
    }
}

/// The most significant byte in which two strings differ decides which denotes
/// the smaller number.
pub proof fn lemma_le_value_decided(a: Seq<u8>, b: Seq<u8>, from: int, k: int)
    requires
        a.len() == b.len(),
        0 <= from <= k < a.len(),
        a[k] < b[k],
        forall|j: int| k < j < a.len() ==> a[j] == b[j],
    ensures
        le_value_from(a, from) < le_value_from(b, from),
    decreases k - from,
{
    if from == k {
        lemma_le_value_agree(a, b, k + 1);
    } else {
        lemma_le_value_decided(a, b, from + 1, k);
    }
}

/// A string that is zero from index `from` on denotes zero from there.
pub proof fn lemma_le_value_zero(a: Seq<u8>, from: int)
    requires
        0 <= from,
        forall|j: int| from <= j < a.len() ==> a[j] == 0,
    ensures
        le_value_from(a, from) == 0,
    decreases a.len() - from,
{
    if from < a.len() {
        lemma_le_value_zero(a, from + 1);
    }
}

/// The encodings of a sequence of elements, in order.
pub open spec fn encodings(elements: Seq<FieldElement>) -> Seq<Seq<u8>> {
    Seq::new(elements.len(), |i: int| elements[i]@)
}

/// The encoding of a number below 256: that byte, then 31 zero bytes.
pub open spec fn small_encoding(n: u8) -> Seq<u8> {
    Seq::new(32, |i: int| if i == 0 { n } else { 0u8 })
}

/// How two encodings compare by the numbers they denote.
#[derive(Clone, Copy, Debug, PartialEq, Eq, Structural)]
pub enum Order {
    Below,
    Same,
    Above,
}

/// An element of the Pallas base field, held as its canonical encoding.
#[derive(Clone, Copy, Debug)]
pub struct FieldElement {
    bytes: [u8; 32],
}

impl View for FieldElement {
    type V = Seq<u8>;

    closed spec fn view(&self) -> Seq<u8> {
        self.bytes@
    }
}

/// `Fp::from_repr` of `pasta_curves` accepts an encoding exactly when the number
/// it denotes, least significant byte first, is below the field order.
#[verifier::external_body]
fn repr_is_canonical(bytes: &[u8; 32]) -> (r: bool)
    ensures
        r == is_canonical(bytes@),
{
    bool::from(pasta_curves::Fp::from_repr(*bytes).is_some())
}

impl FieldElement {
    /// The invariant of the type: the bytes held are a canonical encoding.
    #[verifier::type_invariant]
    pub closed spec fn canonical(self) -> bool {
        is_canonical(self.bytes@)
    }

    /// Accepts an encoding if and only if it is canonical.
    pub fn from_bytes(bytes: [u8; 32]) -> (r: Option<FieldElement>)
        ensures
            r is Some <==> is_canonical(bytes@),
            r matches Some(e) ==> e@ == bytes@,
    {
        if repr_is_canonical(&bytes) {
            Some(FieldElement { bytes })
        } else {
            None
        }
    }

    /// Takes an encoding that is known to be canonical.
    pub(crate) fn from_canonical(bytes: [u8; 32]) -> (r: FieldElement)
        requires
            is_canonical(bytes@),
        ensures
            r@ == bytes@,
    {
        FieldElement { bytes }
    }

    /// The element that stands for a number below 256.
    pub fn from_small(n: u8) -> (r: FieldElement)
        ensures
            r@ == small_encoding(n),
            le_value(r@) == n,
    {
        let mut bytes: [u8; 32] = [0u8; 32];
        bytes[0] = n;
        proof {
            lemma_le_value_zero(bytes@, 1);
            assert(bytes@ =~= small_encoding(n));
        }
        FieldElement { bytes }
    }

    /// Compares two elements as numbers. Distinct elements never compare `Same`.
    pub fn compare(&self, other: &FieldElement) -> (r: Order)
        ensures
            r == Order::Below <==> le_value(self@) < le_value(other@),
            r == Order::Same <==> self@ == other@,
            r == Order::Above <==> le_value(self@) > le_value(other@),
    {
        let mut i: usize = 32;
        while i > 0
            invariant
                i <= 32,
                forall|j: int| i <= j < 32 ==> self.bytes@[j] == other.bytes@[j],
            decreases i,
        {
            i = i - 1;
            let x: u8 = self.bytes[i];
            let y: u8 = other.bytes[i];
            if x < y {
                proof {
                    lemma_le_value_decided(self.bytes@, other.bytes@, 0, i as int);
                }
                return Order::Below;
            }
            if x > y {
                proof {
                    lemma_le_value_decided(other.bytes@, self.bytes@, 0, i as int);
                }
                return Order::Above;
            }
        }
        assert(self.bytes@ =~= other.bytes@);
        Order::Same
    }

    /// Whether two elements are the same.
    pub fn same(&self, other: &FieldElement) -> (r: bool)
        ensures
            r == (self@ == other@),
    {
        match self.compare(other) {
            Order::Same => true,
            _ => false,
        }
    }

    /// The canonical encoding.
    pub fn to_bytes(&self) -> (r: [u8; 32])
        ensures
            r@ == self@,
            is_canonical(r@),
    {
        proof {
            use_type_invariant(self);
        }
        self.bytes
    }
}

} // verus!
