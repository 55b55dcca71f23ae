//! Hashed lookup of paths: which position a target path has, and whether
//! a path is one of the leaf objects.

use vstd::prelude::*;

verus! {

/// A map from target paths to positions: a `hashbrown::HashMap` with
/// `String` keys. What it holds is known to the verifier only through
/// `index_entries`.
#[verifier::external_body]
pub struct PathIndex {
    map: hashbrown::HashMap<String, usize>,
}

/// A set of paths: a `hashbrown::HashSet` of `String`. What it holds is
/// known to the verifier only through `set_members`.
#[verifier::external_body]
pub struct PathSet {
    set: hashbrown::HashSet<String>,
}

/// The position recorded for each path of an index.
pub uninterp spec fn index_entries(index: PathIndex) -> Map<Seq<char>, usize>;

/// The paths that a set holds.
pub uninterp spec fn set_members(set: PathSet) -> Set<Seq<char>>;

impl View for PathIndex {
    type V = Map<Seq<char>, usize>;

    open spec fn view(&self) -> Map<Seq<char>, usize> {
        index_entries(*self)
    }
}

impl View for PathSet {
    type V = Set<Seq<char>>;

    open spec fn view(&self) -> Set<Seq<char>> {
        set_members(*self)
    }
}

impl PathIndex {
    /// `hashbrown::HashMap::new` creates a map without entries.
    #[verifier::external_body]
    pub(crate) fn new() -> (fresh: PathIndex)
        ensures
            index_entries(fresh).dom() == Set::<Seq<char>>::empty(),
    {
        PathIndex { map: hashbrown::HashMap::new() }
    }

    /// `hashbrown::HashMap::insert` records the value for the key and
    /// replaces the value of a key that is already present.
    #[verifier::external_body]
    pub(crate) fn insert(&mut self, path: String, position: usize)
        ensures
            index_entries(*final(self)) == index_entries(*old(self)).insert(path@, position),
    {
        self.map.insert(path, position);
    }

    /// `hashbrown::HashMap::get` returns the value recorded for the key,
    /// or `None` when the key is absent. The value is copied out.
    #[verifier::external_body]
    pub(crate) fn get(&self, path: &str) -> (position: Option<usize>)
        ensures
            position == (if index_entries(*self).contains_key(path@) {
                Some(index_entries(*self)[path@])
            } else {
                None
            }),
    {
        self.map.get(path).copied()
    }
}

impl PathSet {
    /// `hashbrown::HashSet::new` creates a set without members.
    #[verifier::external_body]
    pub(crate) fn new() -> (fresh: PathSet)
        ensures
            set_members(fresh) == Set::<Seq<char>>::empty(),
    {
        PathSet { set: hashbrown::HashSet::new() }
    }

    /// `hashbrown::HashSet::insert` adds the value to the set.
    #[verifier::external_body]
    pub(crate) fn insert(&mut self, path: String)
        ensures
            set_members(*final(self)) == set_members(*old(self)).insert(path@),
    {
        self.set.insert(path);
    }

    /// `hashbrown::HashSet::contains` tells whether the value is a member.
    #[verifier::external_body]
    pub(crate) fn contains(&self, path: &str) -> (found: bool)
        ensures
            found == set_members(*self).contains(path@),
    {
        self.set.contains(path)
    }
}

} // verus!
