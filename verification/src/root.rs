use std::collections::HashMap;

use vstd::prelude::*;

use crate::error::CoreError;

verus! {

broadcast use vstd::std_specs::hash::group_hash_axioms;

/// The per-root state of one UI root: the scene entity the root lives on and
/// the forward mapping from opaque UI node ids to scene entities.
///
/// Node ids are meaningful only within one root's address space; every root
/// owns its own map.  Id `0` is reserved and bound to the root entity itself
/// at construction time.  Every id a mutation references must have been bound
/// by an earlier mutation of the same root (or be `0`); resolving an unbound
/// id is a fatal contract violation, never a recoverable condition.
pub struct DioxusRoot {
    root_entity: usize,
    element_map: HashMap<usize, usize>,
}

impl DioxusRoot {
    /// The id-to-entity mapping, as a mathematical map.
    pub closed spec fn id_map(self) -> Map<usize, usize> {
        self.element_map@
    }

    /// The scene entity this root lives on.
    pub closed spec fn spec_root_entity(self) -> usize {
        self.root_entity
    }

    /// Creates the state for a fresh root: id `0` is bound to the root
    /// entity, nothing else is bound.
    pub fn new(root_entity: usize) -> (r: Self)
        ensures
            r.id_map() == Map::<usize, usize>::empty().insert(0, root_entity),
            r.spec_root_entity() == root_entity,
    {
        let mut element_map = HashMap::new();
        element_map.insert(0, root_entity);
        DioxusRoot { root_entity, element_map }
    }

    /// Binds a UI node id to a scene entity, replacing any earlier binding of
    /// the same id.
    pub fn assign_entity_to_id(&mut self, id: usize, entity: usize)
        ensures
            final(self).id_map() == old(self).id_map().insert(id, entity),
            final(self).spec_root_entity() == old(self).spec_root_entity(),
    {
        self.element_map.insert(id, entity);
    }

    /// Resolves a UI node id to the scene entity it is bound to.  Fails
    /// exactly on ids that were never bound.
    pub fn id_to_entity(&self, id: usize) -> (r: Result<usize, CoreError>)
        ensures
            self.id_map().contains_key(id) ==> r == Ok::<usize, CoreError>(self.id_map()[id]),
            !self.id_map().contains_key(id) ==> r == Err::<usize, CoreError>(
                CoreError::UnknownId { id },
            ),
    {
        match self.element_map.get(&id) {
            Some(entity) => Ok(*entity),
            None => Err(CoreError::UnknownId { id }),
        }
    }

    /// The entity id `0` resolves to.
    pub fn root_entity(&self) -> (r: usize)
        ensures
            r == self.spec_root_entity(),
    {
        self.root_entity
    }
}

/// Law: after binding an id to an entity, resolving that id returns exactly
/// that entity, and every id that was not bound before and is not the bound
/// one still fails resolution.
pub proof fn lemma_bind_then_resolve(m: Map<usize, usize>, id: usize, entity: usize)
    ensures
        m.insert(id, entity).contains_key(id),
        m.insert(id, entity)[id] == entity,
        forall|other: usize|
            other != id && !m.contains_key(other) ==> !m.insert(id, entity).contains_key(other),
{
}

} // verus!
