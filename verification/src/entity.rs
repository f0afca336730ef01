use vstd::prelude::*;

use crate::assoc::{
    assoc_keys_unique, assoc_map, lemma_assoc_map_at, lemma_assoc_map_contains,
    lemma_assoc_map_push,
};

verus! {

/// An opaque handle identifying one entity.
#[derive(Debug, Clone, Copy, PartialEq, Eq, Structural, Hash)]
pub struct Entity(pub(crate) u64);

impl Entity {
    /// The numeric identity behind the handle.
    pub closed spec fn id_view(&self) -> u64 {
        self.0
    }
}

/// Hands out entities with increasing identities, wrapping around only after
/// every identity has been used.
#[derive(Debug)]
pub struct EntityFactory {
    next_entity: u64,
}

impl EntityFactory {
    /// The identity the next entity will get.
    pub closed spec fn next_view(&self) -> u64 {
        self.next_entity
    }

    pub fn new_entity(&mut self) -> (r: Entity)
        ensures
            r.id_view() == old(self).next_view(),
            final(self).next_view() == old(self).next_view().wrapping_add(1),
    {
        let e = Entity(self.next_entity);
        self.next_entity = self.next_entity.wrapping_add(1);
        e
    }
}

impl Default for EntityFactory {
    fn default() -> (r: Self)
        ensures
            r.next_view() == 0,
    {
        EntityFactory { next_entity: 0 }
    }
}

/// The on-disk form of an entity identity.
#[derive(Debug, Clone, Copy, PartialEq, Eq, Structural, Hash)]
pub struct SerializableEntity(pub u64);

/// Maps stored entity identities to fresh entities of the running process, so
/// that restored data keeps its identity structure without clashing with live
/// entities.
#[derive(Debug)]
pub struct EntitySerializationMap {
    map: Vec<(SerializableEntity, Entity)>,
    factory: EntityFactory,
}

impl EntitySerializationMap {
    spec fn pairs(&self) -> Seq<(u64, Entity)> {
        self.map@.map_values(|p: (SerializableEntity, Entity)| (p.0.0, p.1))
    }

    /// Well-formedness: no stored identity appears twice. Constructors
    /// establish it and every method keeps it.
    pub closed spec fn wf(&self) -> bool {
        assoc_keys_unique(self.pairs())
    }

    /// The association built so far.
    pub closed spec fn map_view(&self) -> Map<u64, Entity> {
        assoc_map(self.pairs())
    }

    pub fn new() -> (r: Self)
        ensures
            r.wf(),
            r.map_view() == Map::<u64, Entity>::empty(),
    {
        let r = EntitySerializationMap { map: Vec::new(), factory: EntityFactory::default() };
        proof {
            assert(r.pairs() =~= Seq::<(u64, Entity)>::empty());
            assert(r.map_view() =~= Map::<u64, Entity>::empty());
        }
        r
    }

    /// Returns the entity already associated with `id`, or associates a fresh
    /// one and returns it.
    pub fn deserialize_entity(&mut self, id: SerializableEntity) -> (r: Entity)
        requires
            old(self).wf(),
        ensures
            final(self).wf(),
            final(self).map_view() == old(self).map_view().insert(id.0, r),
            old(self).map_view().contains_key(id.0) ==> {
                &&& r == old(self).map_view()[id.0]
                &&& final(self).map_view() == old(self).map_view()
            },
    {
        let n = self.map.len();
        let mut i: usize = 0;
        while i < n
            invariant
                self.wf(),
                n == self.map@.len(),
                i <= n,
                forall|j: int| 0 <= j < i ==> (#[trigger] self.map@[j]).0.0 != id.0,
            decreases n - i,
        {
            if self.map[i].0.0 == id.0 {
                let r = self.map[i].1;
                proof {
                    assert(self.pairs()[i as int] == (id.0, r));
                    lemma_assoc_map_at(self.pairs(), i as int);
                    assert(self.map_view().insert(id.0, r) =~= self.map_view());
                }
                return r;
            }
            i = i + 1;
        }
        let e = self.factory.new_entity();
        proof {
            assert(forall|j: int|
                0 <= j < self.pairs().len() ==> (#[trigger] self.pairs()[j]).0 == self.map@[j].0.0);
            lemma_assoc_map_contains(self.pairs(), id.0);
            lemma_assoc_map_push(self.pairs(), id.0, e);
        }
        let ghost old_pairs = self.pairs();
        self.map.push((id, e));
        proof {
            assert(self.pairs() =~= old_pairs.push((id.0, e)));
        }
        e
    }
}

} // verus!
