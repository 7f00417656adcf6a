//! The resource store: at most one value per resource kind, independent of
//! any entity.

use std::collections::hash_map::Entry;
use std::collections::HashMap;
use vstd::prelude::*;

verus! {

/// A store that holds at most one resource of each kind.
pub struct ResourceMap<R> {
    data: HashMap<usize, R>,
}

impl<R> View for ResourceMap<R> {
    type V = Map<usize, R>;

    closed spec fn view(&self) -> Map<usize, R> {
        self.data@
    }
}

impl<R> ResourceMap<R> {
    /// A store without resources.
    pub fn new() -> (resources: Self)
        ensures
            resources@ == Map::<usize, R>::empty(),
    {
        ResourceMap { data: HashMap::new() }
    }

    /// The resource of `kind`, if there is one.
    pub fn get(&self, kind: usize) -> (resource: Option<&R>)
        ensures
            match resource {
                Some(resource) => self@.contains_key(kind) && self@[kind] == *resource,
                None => !self@.contains_key(kind),
            },
    {
        self.data.get(&kind)
    }

    /// Mutable access to the resource of `kind`, if there is one. Whatever is
    /// written through the reference replaces that resource and nothing else.
    pub fn get_mut(&mut self, kind: usize) -> (resource: Option<&mut R>)
        ensures
            match resource {
                Some(resource) => {
                    &&& old(self)@.contains_key(kind)
                    &&& old(self)@[kind] == *resource
                    &&& final(self)@ == old(self)@.insert(kind, *final(resource))
                },
                None => !old(self)@.contains_key(kind) && final(self)@ == old(self)@,
            },
    {
        match self.data.entry(kind) {
            Entry::Occupied(entry) => Some(entry.into_mut()),
            Entry::Vacant(_) => None,
        }
    }

    /// Stores `value` as the resource of `kind`, in place of any earlier one.
    pub fn add(&mut self, kind: usize, value: R)
        ensures
            final(self)@ == old(self)@.insert(kind, value),
    {
        self.data.insert(kind, value);
    }

    /// Discards the resource of `kind`, if there is one.
    pub fn remove(&mut self, kind: usize)
        ensures
            final(self)@ == old(self)@.remove(kind),
    {
        self.data.remove(&kind);
    }
}

impl<R> Default for ResourceMap<R> {
    fn default() -> (resources: Self)
        ensures
            resources@ == Map::<usize, R>::empty(),
    {
        ResourceMap::new()
    }
}

} // verus!
