//! Small maps and sets keyed by names.

use vstd::prelude::*;
use vstd::utf8::encode_utf8_decode_utf8;

use crate::bytes::same_bytes;

verus! {

/// The map that a list of entries stands for: a later entry replaces an earlier one of its name.
pub open spec fn entries_map<V>(entries: Seq<(String, V)>) -> Map<Seq<char>, V>
    decreases entries.len(),
{
    if entries.len() == 0 {
        Map::empty()
    } else {
        entries_map(entries.drop_last()).insert(entries.last().0@, entries.last().1)
    }
}

/// A map from names to values.
#[derive(Clone, Debug)]
pub struct NameMap<V> {
    entries: Vec<(String, V)>,
}

impl<V> View for NameMap<V> {
    type V = Map<Seq<char>, V>;

    closed spec fn view(&self) -> Map<Seq<char>, V> {
        entries_map(self.entries@)
    }
}

impl<V> NameMap<V> {
    /// The empty map.
    pub fn new() -> (map: Self)
        ensures
            map@ == Map::<Seq<char>, V>::empty(),
    {
        NameMap { entries: Vec::new() }
    }

    /// The map that the given entries stand for.
    pub fn from_entries(entries: Vec<(String, V)>) -> (map: Self)
        ensures
            map@ == entries_map(entries@),
    {
        NameMap { entries }
    }

    /// Maps `name` to `value`.
    pub fn insert(&mut self, name: String, value: V)
        ensures
            final(self)@ == old(self)@.insert(name@, value),
    {
        self.entries.push((name, value));
        assert(self.entries@.drop_last() =~= old(self).entries@);
    }

    /// The value of `name`.
    pub fn get(&self, name: &str) -> (value: Option<&V>)
        ensures
            match value {
                Some(v) => self@.contains_key(name@) && self@[name@] == *v,
                None => !self@.contains_key(name@),
            },
    {
        let mut i: usize = self.entries.len();
        assert(self.entries@.take(i as int) =~= self.entries@);
        while i > 0
            invariant
                i <= self.entries@.len(),
                self@.contains_key(name@) == entries_map(self.entries@.take(i as int)).contains_key(
                    name@,
                ),
                self@.contains_key(name@) ==> self@[name@] == entries_map(
                    self.entries@.take(i as int),
                )[name@],
            decreases i,
        {
            let ghost here = self.entries@.take(i as int);
            assert(here.drop_last() =~= self.entries@.take(i - 1));
            if same_text(self.entries[i - 1].0.as_str(), name) {
                return Some(&self.entries[i - 1].1);
            }
            i -= 1;
        }
        assert(self.entries@.take(0) =~= Seq::empty());
        None
    }

    /// Whether the map has a value for `name`.
    pub fn contains_key(&self, name: &str) -> (yes: bool)
        ensures
            yes == self@.contains_key(name@),
    {
        self.get(name).is_some()
    }

    /// The entries that the map stands for; a later one replaces an earlier one of its name.
    pub fn entries(&self) -> (entries: &[(String, V)])
        ensures
            entries_map(entries@) == self@,
    {
        self.entries.as_slice()
    }

    /// Whether the map is empty.
    pub fn is_empty(&self) -> (yes: bool)
        ensures
            yes == (self@ == Map::<Seq<char>, V>::empty()),
    {
        if self.entries.len() > 0 {
            assert(self@.contains_key(self.entries@.last().0@));
            false
        } else {
            true
        }
    }
}

/// Whether two texts are the same.
pub fn same_text(a: &str, b: &str) -> (yes: bool)
    ensures
        yes == (a@ == b@),
{
    proof {
        encode_utf8_decode_utf8(a@);
        encode_utf8_decode_utf8(b@);
    }
    same_bytes(a.as_bytes(), b.as_bytes())
}

/// The set that a list of names stands for.
pub open spec fn names_set(names: Seq<String>) -> Set<Seq<char>>
    decreases names.len(),
{
    if names.len() == 0 {
        Set::empty()
    } else {
        names_set(names.drop_last()).insert(names.last()@)
    }
}

/// A set of names.
#[derive(Debug)]
pub struct NameSet {
    names: Vec<String>,
}

impl Clone for NameSet {
    fn clone(&self) -> (set: Self)
        ensures
            set@ == self@,
    {
        let mut set = NameSet { names: Vec::new() };
        let mut i: usize = 0;
        assert(self.names@.take(0) =~= Seq::empty());
        while i < self.names.len()
            invariant
                i <= self.names@.len(),
                set@ == names_set(self.names@.take(i as int)),
            decreases self.names@.len() - i,
        {
            assert(self.names@.take(i + 1).drop_last() =~= self.names@.take(i as int));
            set.insert(self.names[i].clone());
            i += 1;
        }
        assert(self.names@.take(i as int) =~= self.names@);
        set
    }
}

impl View for NameSet {
    type V = Set<Seq<char>>;

    closed spec fn view(&self) -> Set<Seq<char>> {
        names_set(self.names@)
    }
}

impl NameSet {
    /// The empty set.
    pub fn new() -> (set: Self)
        ensures
            set@ == Set::<Seq<char>>::empty(),
    {
        NameSet { names: Vec::new() }
    }

    /// The set of the given names.
    pub fn from_names(names: Vec<String>) -> (set: Self)
        ensures
            set@ == names_set(names@),
    {
        NameSet { names }
    }

    /// Adds `name`.
    pub fn insert(&mut self, name: String)
        ensures
            final(self)@ == old(self)@.insert(name@),
    {
        self.names.push(name);
        assert(self.names@.drop_last() =~= old(self).names@);
    }

    /// The names in the set; a name may be there more than once.
    pub fn names(&self) -> (names: &[String])
        ensures
            names_set(names@) == self@,
    {
        self.names.as_slice()
    }

    /// Whether `name` is in the set.
    pub fn contains(&self, name: &str) -> (yes: bool)
        ensures
            yes == self@.contains(name@),
    {
        let mut i: usize = self.names.len();
        assert(self.names@.take(i as int) =~= self.names@);
        while i > 0
            invariant
                i <= self.names@.len(),
                self@.contains(name@) == names_set(self.names@.take(i as int)).contains(name@),
            decreases i,
        {
            assert(self.names@.take(i as int).drop_last() =~= self.names@.take(i - 1));
            if same_text(self.names[i - 1].as_str(), name) {
                return true;
            }
            i -= 1;
        }
        assert(self.names@.take(0) =~= Seq::empty());
        false
    }

    /// Whether the set is empty.
    pub fn is_empty(&self) -> (yes: bool)
        ensures
            yes == (self@ == Set::<Seq<char>>::empty()),
    {
        if self.names.len() > 0 {
            assert(self@.contains(self.names@.last()@));
            false
        } else {
            true
        }
    }
}

} // verus!
