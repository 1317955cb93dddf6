//! A set of field elements, kept in increasing order so that a lookup halves
//! the range at each step.

use crate::element::{encodings, le_value, FieldElement, Order};
use vstd::prelude::*;

verus! {

/// Each element denotes a smaller number than those after it.
pub open spec fn increasing(items: Seq<FieldElement>) -> bool {
    forall|i: int, j: int|
        0 <= i < j < items.len() ==> le_value(#[trigger] items[i]@) < le_value(
            #[trigger] items[j]@,
        )
}

/// A finite set of field elements.
#[derive(Debug)]
pub struct ElementSet {
    items: Vec<FieldElement>,
}

impl View for ElementSet {
    type V = Set<Seq<u8>>;

    closed spec fn view(&self) -> Set<Seq<u8>> {
        encodings(self.items@).to_set()
    }
}

impl Clone for ElementSet {
    fn clone(&self) -> (r: ElementSet)
        ensures
            r@ == self@,
    {
        proof {
            use_type_invariant(self);
        }
        let mut items: Vec<FieldElement> = Vec::new();
        let mut k: usize = 0;
        while k < self.items.len()
            invariant
                k <= self.items.len(),
                items@ =~= self.items@.take(k as int),
            decreases self.items.len() - k,
        {
            items.push(self.items[k]);
            k = k + 1;
        }
        assert(items@ =~= self.items@);
        ElementSet { items }
    }
}

impl ElementSet {
    /// The invariant of the type: the elements are held in increasing order, so
    /// none is held twice.
    #[verifier::type_invariant]
    pub closed spec fn ordered(self) -> bool {
        increasing(self.items@)
    }

    /// The empty set.
    pub fn new() -> (r: ElementSet)
        ensures
            r@ == Set::<Seq<u8>>::empty(),
    {
        let items: Vec<FieldElement> = Vec::new();
        assert(encodings(items@).to_set() =~= Set::<Seq<u8>>::empty());
        ElementSet { items }
    }

    /// Where `element` is, or where it would go.
    fn locate(&self, element: &FieldElement) -> (r: (usize, bool))
        ensures
            r.0 <= self.items.len(),
            r.1 ==> r.0 < self.items.len() && self.items[r.0 as int]@ == element@,
            !r.1 ==> forall|i: int|
                0 <= i < r.0 ==> le_value(#[trigger] self.items[i]@) < le_value(element@),
            !r.1 ==> forall|i: int|
                r.0 <= i < self.items.len() ==> le_value(element@) < le_value(
                    #[trigger] self.items[i]@,
                ),
    {
        proof {
            use_type_invariant(self);
        }
        let mut low: usize = 0;
        let mut high: usize = self.items.len();
        while low < high
            invariant
                low <= high <= self.items.len(),
                increasing(self.items@),
                forall|i: int|
                    0 <= i < low ==> le_value(#[trigger] self.items[i]@) < le_value(element@),
                forall|i: int|
                    high <= i < self.items.len() ==> le_value(element@) < le_value(
                        #[trigger] self.items[i]@,
                    ),
            decreases high - low,
        {
            let middle: usize = low + (high - low) / 2;
            match self.items[middle].compare(element) {
                Order::Same => {
                    return (middle, true);
                },
                Order::Below => {
                    low = middle + 1;
                },
                Order::Above => {
                    high = middle;
                },
            }
        }
        (low, false)
    }

    /// Whether `element` is in the set.
    pub fn contains(&self, element: &FieldElement) -> (r: bool)
        ensures
            r == self@.contains(element@),
    {
        let (at, found) = self.locate(element);
        proof {
            let held = encodings(self.items@);
            if found {
                assert(held[at as int] == element@);
            } else {
                assert forall|i: int| 0 <= i < held.len() implies held[i] != element@ by {
                    assert(le_value(self.items[i]@) != le_value(element@));
                }
            }
        }
        found
    }

    /// Adds `element`. Returns whether it was new.
    pub fn insert(&mut self, element: FieldElement) -> (r: bool)
        ensures
            final(self)@ == old(self)@.insert(element@),
            r == !old(self)@.contains(element@),
    {
        let (at, found) = self.locate(&element);
        let ghost before = self.items@;
        if found {
            proof {
                assert(encodings(before)[at as int] == element@);
                assert(self@.insert(element@) =~= self@);
            }
            false
        } else {
            proof {
                use_type_invariant(&*self);
                assert forall|i: int| 0 <= i < before.len() implies encodings(before)[i]
                    != element@ by {
                    assert(le_value(before[i]@) != le_value(element@));
                }
            }
            let mut items: Vec<FieldElement> = Vec::new();
            core::mem::swap(&mut self.items, &mut items);
            items.insert(at, element);
            proof {
                let after = items@;
                assert(after == before.insert(at as int, element));
                assert forall|i: int, j: int| 0 <= i < j < after.len() implies le_value(
                    #[trigger] after[i]@,
                ) < le_value(#[trigger] after[j]@) by {
                    let a = if i < at { i } else { i - 1 };
                    let b = if j < at { j } else { j - 1 };
                    if i != at && j != at {
                        assert(after[i] == before[a]);
                        assert(after[j] == before[b]);
                    } else if i == at {
                        assert(after[j] == before[b]);
                    } else {
                        assert(after[i] == before[a]);
                    }
                }
                assert forall|e: Seq<u8>|
                    encodings(after).to_set().contains(e) == encodings(before).to_set().insert(
                        element@,
                    ).contains(e) by {
                    if encodings(after).contains(e) {
                        let i = choose|i: int| 0 <= i < after.len() && encodings(after)[i] == e;
                        if i < at {
                            assert(encodings(before)[i] == e);
                        } else if i > at {
                            assert(encodings(before)[i - 1] == e);
                        }
                    }
                    if encodings(before).contains(e) {
                        let i = choose|i: int| 0 <= i < before.len() && encodings(before)[i] == e;
                        if i < at {
                            assert(encodings(after)[i] == e);
                        } else {
                            assert(encodings(after)[i + 1] == e);
                        }
                    }
                    if e == element@ {
                        assert(encodings(after)[at as int] == e);
                    }
                }
                assert(encodings(after).to_set() =~= encodings(before).to_set().insert(element@));
            }
            *self = ElementSet { items };
            true
        }
    }

    /// The elements in increasing order.
    pub fn elements(&self) -> (r: &Vec<FieldElement>)
        ensures
            increasing(r@),
            encodings(r@).to_set() == self@,
    {
        proof {
            use_type_invariant(self);
        }
        &self.items
    }

    /// How many elements the set holds.
    pub fn len(&self) -> (r: usize)
        ensures
            r == self@.len(),
            self@.finite(),
    {
        proof {
            use_type_invariant(self);
            let held = encodings(self.items@);
            assert forall|i: int, j: int| 0 <= i < held.len() && 0 <= j < held.len() && i
                != j implies held[i] != held[j] by {
                if i < j {
                    assert(le_value(self.items[i]@) < le_value(self.items[j]@));
                } else {
                    assert(le_value(self.items[j]@) < le_value(self.items[i]@));
                }
            }
            held.unique_seq_to_set();
        }
        self.items.len()
    }
}

} // verus!
