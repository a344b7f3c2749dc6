//! A list of distinct names that knows where each of them stands.

use vstd::hash_map::StringHashMap;
use vstd::prelude::*;

verus! {

/// Distinct names in the order in which they came.
pub struct NameList {
    names: Vec<String>,
    positions: StringHashMap<usize>,
}

impl View for NameList {
    type V = Seq<Seq<char>>;

    closed spec fn view(&self) -> Seq<Seq<char>> {
        self.names.deep_view()
    }
}

impl NameList {
    /// Whether the positions are those at which the names stand.
    pub closed spec fn wf(self) -> bool {
        &&& forall|i: int|
            0 <= i < self@.len() ==> self.positions@.contains_key(#[trigger] self@[i])
                && self.positions@[self@[i]] == i
        &&& forall|name: Seq<char>| #[trigger]
            self.positions@.contains_key(name) ==> self.positions@[name] < self@.len()
                && self@[self.positions@[name] as int] == name
    }

    /// No name stands in the list twice.
    pub proof fn lemma_distinct(self)
        requires
            self.wf(),
        ensures
            self@.no_duplicates(),
    {
    }

    pub fn new() -> (list: NameList)
        ensures
            list.wf(),
            list@ == Seq::<Seq<char>>::empty(),
    {
        let list = NameList { names: Vec::new(), positions: StringHashMap::new() };
        assert(list@ =~= Seq::<Seq<char>>::empty());
        list
    }

    pub fn len(&self) -> (length: usize)
        ensures
            length == self@.len(),
    {
        self.names.len()
    }

    /// The name at a position.
    pub fn name(&self, position: usize) -> (name: &String)
        requires
            position < self@.len(),
        ensures
            name@ == self@[position as int],
    {
        &self.names[position]
    }

    /// Where the name stands.
    pub fn position(&self, name: &str) -> (position: Option<usize>)
        requires
            self.wf(),
        ensures
            match position {
                Some(position) => position < self@.len() && self@[position as int] == name@,
                None => !self@.contains(name@),
            },
    {
        match self.positions.get(name) {
            Some(position) => Some(*position),
            None => None,
        }
    }

    pub fn contains(&self, name: &str) -> (found: bool)
        requires
            self.wf(),
        ensures
            found == self@.contains(name@),
    {
        self.position(name).is_some()
    }

    /// Takes the name into the list, unless it stands there, and tells where it stands.
    pub fn intern(&mut self, name: &str) -> (position: usize)
        requires
            old(self).wf(),
        ensures
            final(self).wf(),
            final(self)@ == (if old(self)@.contains(name@) {
                old(self)@
            } else {
                old(self)@.push(name@)
            }),
            position < final(self)@.len(),
            final(self)@[position as int] == name@,
    {
        match self.position(name) {
            Some(position) => position,
            None => {
                let position: usize = self.names.len();
                self.names.push(name.to_owned());
                self.positions.insert(name.to_owned(), position);
                assert(self@ =~= old(self)@.push(name@));
                assert forall|i: int| 0 <= i < self@.len() implies self.positions@.contains_key(
                    #[trigger] self@[i],
                ) && self.positions@[self@[i]] == i by {
                    if i < position {
                        assert(self@[i] == old(self)@[i]);
                        assert(old(self)@.contains(old(self)@[i]));
                    }
                }
                assert forall|key: Seq<char>| #[trigger]
                    self.positions@.contains_key(key) implies self.positions@[key] < self@.len()
                    && self@[self.positions@[key] as int] == key by {
                    if key != name@ {
                        assert(old(self).positions@.contains_key(key));
                    }
                }
                position
            },
        }
    }
}

/// What interning a name does to what the list contains.
pub proof fn lemma_interned(before: Seq<Seq<char>>, after: Seq<Seq<char>>, name: Seq<char>)
    requires
        after == (if before.contains(name) {
            before
        } else {
            before.push(name)
        }),
    ensures
        before.is_prefix_of(after),
        forall|other: Seq<char>| #[trigger]
            after.contains(other) <==> before.contains(other) || other == name,
{
    assert forall|other: Seq<char>| #[trigger] after.contains(other) <==> before.contains(other)
        || other == name by {
        if before.contains(other) {
            let at = choose|at: int| 0 <= at < before.len() && before[at] == other;
            assert(after[at] == other);
        }
        if other == name && !before.contains(name) {
            assert(after[before.len() as int] == name);
        }
    }
}

} // verus!
