//! The container every entity lives in.
use vstd::prelude::*;
use crate::entity::{Entities, Entity, EntityTable};

verus! {

/// Owner of all entities.
///
/// A world is a plain value: several can coexist, and a handle is only
/// meaningful in the world that produced it.
pub struct World {
    entities: Entities,
}

impl View for World {
    type V = EntityTable;

    closed spec fn view(&self) -> EntityTable {
        self.entities@
    }
}

impl World {
    #[verifier::type_invariant]
    spec fn well_formed(self) -> bool {
        self.entities.inv()
    }

    /// Creates an empty world.
    pub fn new() -> (w: World)
        ensures
            w@ == EntityTable::empty(),
            w@.wf(),
    {
        let entities = Entities::new();
        proof {
            entities.lemma_inv_wf();
        }
        World { entities }
    }

    /// Creates an entity with no components and returns its handle, which is
    /// valid until `despawn` is called with it.
    pub fn spawn_empty(&mut self) -> (e: Entity)
        requires
            old(self)@.can_allocate(),
        ensures
            final(self)@.wf(),
            (final(self)@, e@) == old(self)@.allocate(),
            final(self)@.len() == old(self)@.len() + 1,
            final(self)@.contains(e@),
    {
        proof {
            use_type_invariant(&*self);
            self.entities.lemma_inv_wf();
        }
        let mut entities = Entities::new();
        std::mem::swap(&mut entities, &mut self.entities);
        let e = entities.allocate();
        proof {
            entities.lemma_inv_wf();
        }
        self.entities = entities;
        e
    }

    /// Removes an entity, invalidating every handle to it. Returns whether
    /// the entity existed; a stale handle is rejected rather than despawning
    /// whatever now occupies its index.
    pub fn despawn(&mut self, entity: Entity) -> (r: bool)
        ensures
            final(self)@.wf(),
            (final(self)@, r) == old(self)@.free(entity@),
            r ==> final(self)@.len() + 1 == old(self)@.len(),
            !r ==> final(self)@ == old(self)@,
    {
        proof {
            use_type_invariant(&*self);
            self.entities.lemma_inv_wf();
        }
        let mut entities = Entities::new();
        std::mem::swap(&mut entities, &mut self.entities);
        let r = entities.free(entity);
        proof {
            entities.lemma_inv_wf();
        }
        self.entities = entities;
        r
    }

    /// Whether another entity can be spawned: an index is free or a fresh one
    /// remains, and the live count stays representable.
    pub fn can_spawn(&self) -> (r: bool)
        ensures
            self@.wf(),
            r == self@.can_allocate(),
    {
        proof {
            use_type_invariant(self);
            self.entities.lemma_inv_wf();
        }
        self.entities.can_allocate()
    }

    /// Whether the handle names an entity that is alive.
    pub fn contains(&self, entity: Entity) -> (r: bool)
        ensures
            self@.wf(),
            r == self@.contains(entity@),
    {
        proof {
            use_type_invariant(self);
            self.entities.lemma_inv_wf();
        }
        self.entities.contains(entity)
    }

    /// How many entities are alive.
    pub fn entity_count(&self) -> (r: u32)
        ensures
            self@.wf(),
            r as nat == self@.len(),
    {
        proof {
            use_type_invariant(self);
            self.entities.lemma_inv_wf();
        }
        self.entities.len()
    }
}

impl Default for World {
    fn default() -> (w: World)
        ensures
            w@ == EntityTable::empty(),
    {
        World::new()
    }
}

} // verus!
