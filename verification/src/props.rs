//! Named values that outlive a session: where the wallet stands, and what it
//! was opened with.

use crate::error::VoteError;
use crate::text::{decimal, decimal_digits, parse_u32, parsed_u32};
use vstd::prelude::*;
use vstd::string::StringExecFns;

verus! {

/// The map that a list of entries stands for: a later entry for a name
/// overrides an earlier one.
spec fn lookup(entries: Seq<(String, String)>) -> Map<Seq<char>, Seq<char>>
    decreases entries.len(),
{
    if entries.len() == 0 {
        Map::empty()
    } else {
        lookup(entries.drop_last()).insert(entries.last().0@, entries.last().1@)
    }
}

/// Entries that are not for `name` do not change what is held for `name`.
proof fn lemma_lookup_skips(entries: Seq<(String, String)>, name: Seq<char>, from: int)
    requires
        0 <= from <= entries.len(),
        forall|j: int| from <= j < entries.len() ==> (#[trigger] entries[j]).0@ != name,
    ensures
        lookup(entries).contains_key(name) == lookup(entries.take(from)).contains_key(name),
        lookup(entries).contains_key(name) ==> lookup(entries)[name] == lookup(
            entries.take(from),
        )[name],
    decreases entries.len() - from,
{
    if from < entries.len() {
        let shorter = entries.drop_last();
        assert(entries.last() == entries[entries.len() - 1]);
        assert forall|j: int| from <= j < shorter.len() implies (#[trigger] shorter[j]).0@
            != name by {
            assert(shorter[j] == entries[j]);
        }
        lemma_lookup_skips(shorter, name, from);
        assert(shorter.take(from) =~= entries.take(from));
    } else {
        assert(entries.take(from) =~= entries);
    }
}

/// A table of named values.
#[derive(Debug)]
pub struct Props {
    entries: Vec<(String, String)>,
}

impl View for Props {
    type V = Map<Seq<char>, Seq<char>>;

    closed spec fn view(&self) -> Map<Seq<char>, Seq<char>> {
        lookup(self.entries@)
    }
}

impl Props {
    /// The empty table.
    pub fn new() -> (r: Props)
        ensures
            r@ == Map::<Seq<char>, Seq<char>>::empty(),
    {
        Props { entries: Vec::new() }
    }

    /// Sets the value held for `name`.
    pub fn store_prop(&mut self, name: &str, value: &str)
        ensures
            final(self)@ == old(self)@.insert(name@, value@),
    {
        let ghost before = self.entries@;
        self.entries.push((String::from_str(name), String::from_str(value)));
        assert(self.entries@.drop_last() =~= before);
    }

    /// The value held for `name`, if there is one.
    pub fn load_prop(&self, name: &str) -> (r: Option<String>)
        ensures
            match r {
                Some(value) => self@.contains_key(name@) && self@[name@] == value@,
                None => !self@.contains_key(name@),
            },
    {
        let wanted = String::from_str(name);
        let mut i: usize = self.entries.len();
        while i > 0
            invariant
                i <= self.entries.len(),
                wanted@ == name@,
                forall|j: int|
                    i <= j < self.entries.len() ==> (#[trigger] self.entries[j]).0@ != name@,
            decreases i,
        {
            i = i - 1;
            if self.entries[i].0 == wanted {
                proof {
                    lemma_lookup_skips(self.entries@, name@, i + 1);
                    assert(self.entries@.take(i + 1).drop_last() =~= self.entries@.take(i as int));
                    assert(self.entries@.take(i + 1).last() == self.entries[i as int]);
                }
                return Some(self.entries[i].1.clone());
            }
        }
        proof {
            lemma_lookup_skips(self.entries@, name@, 0);
            assert(self.entries@.take(0) =~= Seq::<(String, String)>::empty());
        }
        None
    }

    /// Writes down the height up to which the wallet has followed the chain.
    pub fn store_height(&mut self, height: u32)
        ensures
            final(self)@ == old(self)@.insert("height"@, decimal_digits(height as nat)),
    {
        let text = decimal(height);
        self.store_prop("height", text.as_str());
    }

    /// The height up to which the wallet has followed the chain, if one has
    /// been written down. A height that is not a number means that the table
    /// cannot be relied on.
    pub fn get_sync_height(&self) -> (r: Result<Option<u32>, VoteError>)
        ensures
            match r {
                Ok(None) => !self@.contains_key("height"@),
                Ok(Some(height)) => self@.contains_key("height"@) && parsed_u32(self@["height"@])
                    == Some(height),
                Err(e) => e is TransientIO && self@.contains_key("height"@) && parsed_u32(
                    self@["height"@],
                ) is None,
            },
    {
        match self.load_prop("height") {
            None => Ok(None),
            Some(text) => match parse_u32(text.as_str()) {
                Some(height) => Ok(Some(height)),
                None => Err(VoteError::TransientIO(String::from_str("the height is not a number"))),
            },
        }
    }
}

/// The value held for `name`, if there is one.
pub fn get_prop(name: &str, props: &Props) -> (r: Option<String>)
    ensures
        match r {
            Some(value) => props@.contains_key(name@) && props@[name@] == value@,
            None => !props@.contains_key(name@),
        },
{
    props.load_prop(name)
}

} // verus!
