//! The store of meshes, each under a number of its own.

use vstd::prelude::*;
use std::collections::HashMap;
use crate::mesh::Mesh;

verus! {

/// The name a mesh has in the store. Entities carry it to say what they
/// look like.
#[derive(Clone, Copy, Debug, PartialEq, Eq, Structural, Hash)]
pub struct MeshId(u32);

/// Meshes by their ids: the ids count up from zero in the order in which the
/// meshes came.
pub struct MeshRepo {
    entries: HashMap<u32, Mesh>,
    n_meshes: u32,
}

impl MeshId {
    /// Which mesh this is: zero for the first one stored.
    pub closed spec fn view(&self) -> u32 {
        self.0
    }

    /// Which mesh this is: zero for the first one stored.
    pub fn index(&self) -> (n: u32)
        ensures
            n == self@,
    {
        self.0
    }
}

impl MeshRepo {
    /// The meshes in the store, by the number of their id.
    pub closed spec fn view(&self) -> Map<u32, Mesh> {
        self.entries@
    }

    /// How many meshes were stored.
    pub closed spec fn count(&self) -> u32 {
        self.n_meshes
    }

    /// Whether the ids given out so far are exactly those below the count.
    pub closed spec fn well_formed(&self) -> bool {
        forall|n: u32| self.entries@.contains_key(n) <==> n < self.n_meshes
    }

    /// How many meshes were stored.
    pub fn len(&self) -> (n: u32)
        ensures
            n == self.count(),
    {
        self.n_meshes
    }

    /// A store without meshes.
    pub fn new() -> (repo: Self)
        ensures
            repo.well_formed(),
            repo@ == Map::<u32, Mesh>::empty(),
            repo.count() == 0,
    {
        MeshRepo { entries: HashMap::new(), n_meshes: 0 }
    }

    /// Stores `mesh` under the next id, and returns that id.
    pub fn insert(&mut self, mesh: Mesh) -> (id: MeshId)
        requires
            old(self).well_formed(),
            old(self).count() < u32::MAX,
        ensures
            final(self).well_formed(),
            id@ == old(self).count(),
            final(self).count() == old(self).count() + 1,
            final(self)@ == old(self)@.insert(id@, mesh),
            !old(self)@.contains_key(id@),
    {
        broadcast use vstd::std_specs::hash::group_hash_axioms;

        let id = MeshId(self.n_meshes);
        self.entries.insert(self.n_meshes, mesh);
        self.n_meshes += 1;
        id
    }

    /// The mesh stored under `id`, if this store gave `id` out.
    pub fn get(&mut self, id: &MeshId) -> (mesh: Option<&Mesh>)
        ensures
            final(self)@ == old(self)@,
            final(self).count() == old(self).count(),
            final(self).well_formed() == old(self).well_formed(),
            match mesh {
                Some(found) => old(self)@.contains_key(id@) && *found == old(self)@[id@],
                None => !old(self)@.contains_key(id@),
            },
            old(self).well_formed() ==> (mesh.is_some() <==> id@ < old(self).count()),
    {
        broadcast use vstd::std_specs::hash::group_hash_axioms;

        self.entries.get(&id.0)
    }
}

} // verus!
