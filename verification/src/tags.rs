//! String-keyed tag lists with map semantics.

use vstd::prelude::*;
use vstd::string::StringExecFns;

verus! {

/// The map that a list of key/value pairs stands for: a later pair overrides
/// an earlier one with the same key.
pub open spec fn pairs_to_map(pairs: Seq<(String, String)>) -> Map<Seq<char>, Seq<char>>
    decreases pairs.len(),
{
    if pairs.len() == 0 {
        Map::empty()
    } else {
        pairs_to_map(pairs.drop_last()).insert(pairs.last().0@, pairs.last().1@)
    }
}

/// The tags of a node or a way.
#[derive(Clone, Debug)]
pub struct Tags {
    entries: Vec<(String, String)>,
}

impl View for Tags {
    type V = Map<Seq<char>, Seq<char>>;

    closed spec fn view(&self) -> Map<Seq<char>, Seq<char>> {
        pairs_to_map(self.entries@)
    }
}

impl Tags {
    /// A tag list without entries.
    pub fn new() -> (tags: Tags)
        ensures
            tags@ == Map::<Seq<char>, Seq<char>>::empty(),
    {
        Tags { entries: Vec::new() }
    }

    /// Sets `key` to `value`; an earlier value of `key` is overridden.
    pub fn insert(&mut self, key: String, value: String)
        ensures
            final(self)@ == old(self)@.insert(key@, value@),
    {
        let ghost before = self.entries@;
        self.entries.push((key, value));
        assert(self.entries@.drop_last() == before);
    }

    /// The value of `key`, if it has one.
    pub fn get(&self, key: &str) -> (value: Option<&String>)
        ensures
            match value {
                Some(v) => self@.contains_key(key@) && self@[key@] == v@,
                None => !self@.contains_key(key@),
            },
    {
        let wanted = String::from_str(key);
        let mut i: usize = self.entries.len();
        assert(self.entries@.subrange(0, i as int) =~= self.entries@);
        while i > 0
            invariant
                i <= self.entries.len(),
                wanted@ == key@,
                self@.contains_key(key@) == pairs_to_map(
                    self.entries@.subrange(0, i as int),
                ).contains_key(key@),
                self@.contains_key(key@) ==> self@[key@] == pairs_to_map(
                    self.entries@.subrange(0, i as int),
                )[key@],
            decreases i,
        {
            let ghost prefix = self.entries@.subrange(0, i as int);
            i = i - 1;
            assert(prefix.drop_last() == self.entries@.subrange(0, i as int));
            if self.entries[i].0 == wanted {
                return Some(&self.entries[i].1);
            }
        }
        assert(self.entries@.subrange(0, 0) =~= Seq::empty());
        None
    }

    /// Whether `key` has the value `value`.
    pub fn has(&self, key: &str, value: &str) -> (yes: bool)
        ensures
            yes == (self@.contains_key(key@) && self@[key@] == value@),
    {
        let wanted = String::from_str(value);
        match self.get(key) {
            Some(v) => *v == wanted,
            None => false,
        }
    }

    /// Whether `key` has a value.
    pub fn contains_key(&self, key: &str) -> (yes: bool)
        ensures
            yes == self@.contains_key(key@),
    {
        self.get(key).is_some()
    }

    /// A copy of the tag list.
    pub fn duplicate(&self) -> (copy: Tags)
        ensures
            copy@ == self@,
    {
        let mut entries: Vec<(String, String)> = Vec::new();
        let mut i: usize = 0;
        while i < self.entries.len()
            invariant
                i <= self.entries.len(),
                entries@ == self.entries@.subrange(0, i as int),
            decreases self.entries.len() - i,
        {
            entries.push((self.entries[i].0.clone(), self.entries[i].1.clone()));
            assert(entries@ =~= self.entries@.subrange(0, i + 1));
            i = i + 1;
        }
        assert(entries@ =~= self.entries@);
        Tags { entries }
    }
}

} // verus!
