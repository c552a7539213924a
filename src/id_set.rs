//! The set of player ids that a scoreboard knows, held in the engine's hash set.

use vstd::prelude::*;

verus! {

/// A set of player ids backed by `bevy::utils::HashSet`.
#[verifier::external_body]
pub struct IdSet {
    inner: bevy::utils::HashSet<usize>,
}

/// The ids that an `IdSet` holds.
pub uninterp spec fn id_set_contents(s: IdSet) -> Set<usize>;

impl IdSet {
    /// Relies on `hashbrown::HashSet::default`: a new set is empty.
    #[verifier::external_body]
    pub(crate) fn new() -> (r: IdSet)
        ensures
            id_set_contents(r) == Set::<usize>::empty(),
    {
        IdSet { inner: bevy::utils::HashSet::default() }
    }

    /// Relies on `hashbrown::HashSet::contains`: true exactly for a held id.
    #[verifier::external_body]
    pub(crate) fn contains(&self, id: usize) -> (r: bool)
        ensures
            r == id_set_contents(*self).contains(id),
    {
        self.inner.contains(&id)
    }

    /// Relies on `hashbrown::HashSet::insert`: the id is held afterwards, and nothing else changes.
    #[verifier::external_body]
    pub(crate) fn insert(&mut self, id: usize)
        ensures
            id_set_contents(*final(self)) == id_set_contents(*old(self)).insert(id),
    {
        self.inner.insert(id);
    }

    /// Relies on `hashbrown::HashSet::remove`: the id is no longer held, and nothing else changes.
    #[verifier::external_body]
    pub(crate) fn remove(&mut self, id: usize)
        ensures
            id_set_contents(*final(self)) == id_set_contents(*old(self)).remove(id),
    {
        self.inner.remove(&id);
    }

    /// Relies on `hashbrown::HashSet::clear`: the set is empty afterwards.
    #[verifier::external_body]
    pub(crate) fn clear(&mut self)
        ensures
            id_set_contents(*final(self)) == Set::<usize>::empty(),
    {
        self.inner.clear();
    }
}

} // verus!
