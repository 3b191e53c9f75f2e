//! Hash indexes from names and paths to positions.

use vstd::prelude::*;

verus! {

/// A `hashbrown::HashMap` from owned names to positions.
///
/// The map is opaque; what it holds is `index_contents`.
#[verifier::external_body]
pub struct NameIndex {
    map: hashbrown::HashMap<String, usize>,
}

/// The name-to-position pairs that an index holds.
pub uninterp spec fn index_contents(index: NameIndex) -> Map<Seq<char>, usize>;

/// The contents of an index that holds nothing.
pub open spec fn no_names() -> Map<Seq<char>, usize> {
    Map::empty()
}

impl NameIndex {
    /// `hashbrown::HashMap::new`: the new map holds nothing.
    #[verifier::external_body]
    pub(crate) fn new() -> (fresh: NameIndex)
        ensures
            index_contents(fresh) == no_names(),
    {
        NameIndex { map: hashbrown::HashMap::new() }
    }

    /// `hashbrown::HashMap::insert`: the name maps to the position afterwards, other names
    /// keep theirs, and the position it had before, if any, is handed back.
    #[verifier::external_body]
    pub(crate) fn insert(&mut self, name: &str, position: usize) -> (previous: Option<usize>)
        ensures
            index_contents(*final(self)) == index_contents(*old(self)).insert(name@, position),
            previous == (if index_contents(*old(self)).contains_key(name@) {
                Some(index_contents(*old(self))[name@])
            } else {
                None
            }),
    {
        self.map.insert(name.to_string(), position)
    }

    /// `hashbrown::HashMap::remove`: the name maps to nothing afterwards, other names keep their
    /// positions, and the position it had before, if any, is handed back.
    #[verifier::external_body]
    pub(crate) fn remove(&mut self, name: &str) -> (previous: Option<usize>)
        ensures
            index_contents(*final(self)) == index_contents(*old(self)).remove(name@),
            previous == (if index_contents(*old(self)).contains_key(name@) {
                Some(index_contents(*old(self))[name@])
            } else {
                None
            }),
    {
        self.map.remove(name)
    }

    /// `hashbrown::HashMap::get`: the position stored under the name, if there is one.
    #[verifier::external_body]
    pub(crate) fn get(&self, name: &str) -> (position: Option<usize>)
        ensures
            position == (if index_contents(*self).contains_key(name@) {
                Some(index_contents(*self)[name@])
            } else {
                None
            }),
    {
        self.map.get(name).copied()
    }
}

/// A `hashbrown::HashMap` from names to nothing, as a set of names.
///
/// The map is opaque; what it holds is `set_members`.
#[verifier::external_body]
pub struct NameSet {
    map: hashbrown::HashMap<String, ()>,
}

/// The names that a set holds.
pub uninterp spec fn set_members(set: NameSet) -> Set<Seq<char>>;

/// The members of a set that holds nothing.
pub open spec fn no_members() -> Set<Seq<char>> {
    Set::empty()
}

impl NameSet {
    /// `hashbrown::HashMap::new`: the new map holds nothing.
    #[verifier::external_body]
    pub(crate) fn new() -> (fresh: NameSet)
        ensures
            set_members(fresh) == no_members(),
    {
        NameSet { map: hashbrown::HashMap::new() }
    }

    /// `hashbrown::HashMap::insert`: the name is in the map afterwards, with the others.
    #[verifier::external_body]
    pub(crate) fn insert(&mut self, name: &str)
        ensures
            set_members(*final(self)) == set_members(*old(self)).insert(name@),
    {
        self.map.insert(name.to_string(), ());
    }

    /// `hashbrown::HashMap::remove`: the name is not in the map afterwards, the others are.
    #[verifier::external_body]
    pub(crate) fn remove(&mut self, name: &str)
        ensures
            set_members(*final(self)) == set_members(*old(self)).remove(name@),
    {
        self.map.remove(name);
    }

    /// `hashbrown::HashMap::keys`: the first name that the map hands out, if it holds any.  Which
    /// one comes first is not said: it depends on the order in which the map is walked.
    #[verifier::external_body]
    pub(crate) fn any(&self) -> (name: Option<String>)
        ensures
            match name {
                Some(s) => set_members(*self).contains(s@),
                None => set_members(*self) == no_members(),
            },
    {
        self.map.keys().next().cloned()
    }

    /// `hashbrown::HashMap::len`: how many names the map holds.
    #[verifier::external_body]
    pub(crate) fn len(&self) -> (n: usize)
        ensures
            n == set_members(*self).len(),
    {
        self.map.len()
    }
}

/// A `hashbrown::HashMap` from coded paths to positions.
///
/// The map is opaque; what it holds is `path_index_contents`.
#[verifier::external_body]
pub struct PathIndex {
    map: hashbrown::HashMap<Vec<(u8, String)>, usize>,
}

/// A coded path: a tag and a text per component.
pub open spec fn coded(key: Seq<(u8, String)>) -> Seq<(u8, Seq<char>)> {
    key.map_values(|c: (u8, String)| (c.0, c.1@))
}

/// The path-to-position pairs that an index holds.
pub uninterp spec fn path_index_contents(index: PathIndex) -> Map<Seq<(u8, Seq<char>)>, usize>;

/// The contents of a path index that holds nothing.
pub open spec fn no_paths() -> Map<Seq<(u8, Seq<char>)>, usize> {
    Map::empty()
}

impl PathIndex {
    /// `hashbrown::HashMap::new`: the new map holds nothing.
    #[verifier::external_body]
    pub(crate) fn new() -> (fresh: PathIndex)
        ensures
            path_index_contents(fresh) == no_paths(),
    {
        PathIndex { map: hashbrown::HashMap::new() }
    }

    /// `hashbrown::HashMap::insert`: the path maps to the position afterwards, and other paths
    /// keep theirs.  The position it had before is not handed on.
    #[verifier::external_body]
    pub(crate) fn insert(&mut self, key: Vec<(u8, String)>, position: usize)
        ensures
            path_index_contents(*final(self)) == path_index_contents(*old(self)).insert(
                coded(key@),
                position,
            ),
    {
        self.map.insert(key, position);
    }

    /// `hashbrown::HashMap::get`: the position stored under the path, if there is one.
    #[verifier::external_body]
    pub(crate) fn get(&self, key: &Vec<(u8, String)>) -> (position: Option<usize>)
        ensures
            position == (if path_index_contents(*self).contains_key(coded(key@)) {
                Some(path_index_contents(*self)[coded(key@)])
            } else {
                None
            }),
    {
        self.map.get(key).copied()
    }
}

} // verus!
