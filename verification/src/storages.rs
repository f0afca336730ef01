use vstd::prelude::*;

use crate::entity::Entity;

verus! {

/// The positions, in storage order, of the entities of `es` that own a
/// component in `other`, each with the component's position there.
pub open spec fn matched_indices<B>(es: Seq<Entity>, other: VecStorage<B>) -> Seq<(int, int)>
    decreases es.len(),
{
    if es.len() == 0 {
        Seq::empty()
    } else {
        let rest = matched_indices(es.drop_last(), other);
        match other.get_index_spec(es.last()) {
            Some(j) => rest.push((es.len() - 1, j)),
            None => rest,
        }
    }
}

/// Stores components in a vector, one per entity, with a parallel vector of
/// the owning entities.
#[derive(Debug)]
pub struct VecStorage<Component> {
    components: Vec<Component>,
    entities: Vec<Entity>,
}

impl<Component> VecStorage<Component> {
    /// Well-formedness: one component per entity, and no entity twice.
    /// Constructors establish it and every method keeps it.
    pub open spec fn wf(&self) -> bool {
        &&& self.components_view().len() == self.entities_view().len()
        &&& forall|i: int, j: int|
            0 <= i < j < self.entities_view().len() ==> #[trigger] self.entities_view()[i]
                != #[trigger] self.entities_view()[j]
    }

    /// The entities that own a component, in insertion order.
    pub closed spec fn entities_view(&self) -> Seq<Entity> {
        self.entities@
    }

    /// The stored components, aligned with `entities_view`.
    pub closed spec fn components_view(&self) -> Seq<Component> {
        self.components@
    }

    pub fn new() -> (r: Self)
        ensures
            r.wf(),
            r.entities_view() == Seq::<Entity>::empty(),
            r.components_view() == Seq::<Component>::empty(),
    {
        let r = Self { components: Vec::new(), entities: Vec::new() };
        proof {
            assert(r.entities_view() =~= Seq::<Entity>::empty());
            assert(r.components_view() =~= Seq::<Component>::empty());
        }
        r
    }

    pub fn len(&self) -> (r: usize)
        ensures
            r == self.components_view().len(),
    {
        self.components.len()
    }

    pub fn is_empty(&self) -> (r: bool)
        ensures
            r == (self.components_view().len() == 0),
    {
        self.components.is_empty()
    }

    /// The position of the component owned by `id`, if any.
    pub fn get_index(&self, id: Entity) -> (r: Option<usize>)
        ensures
            match r {
                Some(i) => 0 <= i < self.entities_view().len() && self.entities_view()[i as int]
                    == id,
                None => forall|j: int|
                    0 <= j < self.entities_view().len() ==> self.entities_view()[j] != id,
            },
    {
        let n = self.entities.len();
        let mut i: usize = 0;
        while i < n
            invariant
                n == self.entities@.len(),
                i <= n,
                forall|j: int| 0 <= j < i ==> self.entities@[j] != id,
            decreases n - i,
        {
            if self.entities[i] == id {
                return Some(i);
            }
            i = i + 1;
        }
        None
    }

    pub fn get_component(&self, id: Entity) -> (r: Option<&Component>)
        requires
            self.wf(),
        ensures
            match r {
                Some(c) => exists|i: int|
                    0 <= i < self.entities_view().len() && self.entities_view()[i] == id && c
                        == #[trigger] self.components_view()[i],
                None => forall|j: int|
                    0 <= j < self.entities_view().len() ==> self.entities_view()[j] != id,
            },
    {
        match self.get_index(id) {
            Some(i) => {
                proof {
                    assert(self.entities_view()[i as int] == id && &self.components@[i as int]
                        == #[trigger] self.components_view()[i as int]);
                }
                Some(&self.components[i])
            },
            None => None,
        }
    }

    pub fn get_component_mut(&mut self, id: Entity) -> (r: Option<&mut Component>)
        requires
            old(self).wf(),
        ensures
            final(self).wf(),
            final(self).entities_view() == old(self).entities_view(),
            match r {
                Some(c) => exists|i: int|
                    {
                        &&& 0 <= i < old(self).entities_view().len()
                        &&& old(self).entities_view()[i] == id
                        &&& *c == old(self).components_view()[i]
                        &&& final(self).components_view() == old(
                            self,
                        ).components_view().update(i, *final(c))
                    },
                None => {
                    &&& final(self).components_view() == old(self).components_view()
                    &&& forall|j: int|
                        0 <= j < old(self).entities_view().len() ==> old(self).entities_view()[j]
                            != id
                },
            },
    {
        match self.get_index(id) {
            Some(i) => Some(&mut self.components[i]),
            None => None,
        }
    }

    /// Inserts a component for `id`, replacing any component `id` already
    /// owned, and returns its position in the storage.
    pub fn insert(&mut self, id: Entity, component: Component) -> (r: usize)
        requires
            old(self).wf(),
        ensures
            final(self).wf(),
            match old(self).get_index_spec(id) {
                Some(i) => {
                    &&& r == i
                    &&& final(self).entities_view() == old(self).entities_view()
                    &&& final(self).components_view() == old(self).components_view().update(
                        i,
                        component,
                    )
                },
                None => {
                    &&& r == old(self).entities_view().len()
                    &&& final(self).entities_view() == old(self).entities_view().push(id)
                    &&& final(self).components_view() == old(self).components_view().push(
                        component,
                    )
                },
            },
    {
        match self.get_index(id) {
            Some(i) => {
                proof {
                    self.lemma_get_index_unique(id, i as int);
                }
                self.components[i] = component;
                i
            },
            None => {
                proof {
                    assert(forall|j: int|
                        0 <= j < self.entities@.len() ==> #[trigger] self.entities@[j]
                            == self.entities_view()[j]);
                    assert(old(self).get_index_spec(id) is None);
                }
                let i = self.entities.len();
                self.entities.push(id);
                self.components.push(component);
                i
            },
        }
    }

    /// The position of `id` in the storage, as `get_index` reports it.
    pub open spec fn get_index_spec(&self, id: Entity) -> Option<int> {
        if exists|i: int| 0 <= i < self.entities_view().len() && self.entities_view()[i] == id {
            Some(
                choose|i: int|
                    0 <= i < self.entities_view().len() && self.entities_view()[i] == id,
            )
        } else {
            None
        }
    }

    pub(crate) proof fn lemma_get_index_unique(&self, id: Entity, i: int)
        requires
            self.wf(),
            0 <= i < self.entities_view().len(),
            self.entities_view()[i] == id,
        ensures
            self.get_index_spec(id) == Some(i),
    {
        let k = choose|k: int| 0 <= k < self.entities@.len() && self.entities@[k] == id;
        if k != i {
            assert(self.entities@[k] != self.entities@[i]);
        }
    }

    /// Removes every component and entity.
    pub fn clear(&mut self)
        ensures
            final(self).wf(),
            final(self).entities_view() == Seq::<Entity>::empty(),
            final(self).components_view() == Seq::<Component>::empty(),
    {
        self.entities.clear();
        self.components.clear();
        proof {
            assert(self.entities_view() =~= Seq::<Entity>::empty());
            assert(self.components_view() =~= Seq::<Component>::empty());
        }
    }

    pub fn components(&self) -> (r: &[Component])
        ensures
            r@ == self.components_view(),
    {
        self.components.as_slice()
    }

    pub fn components_mut(&mut self) -> (r: &mut [Component])
        ensures
            r@ == old(self).components_view(),
            final(self).components_view() == final(r)@,
            final(self).entities_view() == old(self).entities_view(),
            final(r)@.len() == r@.len() && old(self).wf() ==> final(self).wf(),
    {
        self.components.as_mut_slice()
    }

    pub fn entities(&self) -> (r: &[Entity])
        ensures
            r@ == self.entities_view(),
    {
        self.entities.as_slice()
    }

    /// Pairs every entity of this storage with its component, in storage
    /// order.
    pub fn join<'a>(&'a self) -> (r: Vec<(Entity, &'a Component)>)
        requires
            self.wf(),
        ensures
            r@.len() == self.entities_view().len(),
            forall|k: int|
                0 <= k < r@.len() ==> (#[trigger] r@[k]).0 == self.entities_view()[k] && r@[k].1
                    == self.components_view()[k],
    {
        let n = self.entities.len();
        let mut r: Vec<(Entity, &'a Component)> = Vec::new();
        let mut i: usize = 0;
        while i < n
            invariant
                self.wf(),
                n == self.entities@.len(),
                i <= n,
                r@.len() == i,
                forall|k: int|
                    0 <= k < i ==> (#[trigger] r@[k]).0 == self.entities@[k] && r@[k].1
                        == self.components@[k],
            decreases n - i,
        {
            r.push((self.entities[i], &self.components[i]));
            i = i + 1;
        }
        r
    }

    /// Joins this storage with another: for each entity of this storage
    /// that also owns a component there, in storage order, both components.
    pub fn join_with<'a, B>(&'a self, other: &'a VecStorage<B>) -> (r: Vec<
        (Entity, &'a Component, &'a B),
    >)
        requires
            self.wf(),
            other.wf(),
        ensures
            r@.len() == matched_indices(self.entities_view(), *other).len(),
            forall|k: int|
                0 <= k < r@.len() ==> {
                    let m = matched_indices(self.entities_view(), *other)[k];
                    &&& (#[trigger] r@[k]).0 == self.entities_view()[m.0]
                    &&& r@[k].1 == self.components_view()[m.0]
                    &&& r@[k].2 == other.components_view()[m.1]
                },
    {
        let ghost es = self.entities_view();
        let n = self.entities.len();
        let mut r: Vec<(Entity, &'a Component, &'a B)> = Vec::new();
        let mut i: usize = 0;
        proof {
            assert(es.take(0) =~= Seq::<Entity>::empty());
        }
        while i < n
            invariant
                self.wf(),
                other.wf(),
                es == self.entities_view(),
                n == es.len(),
                i <= n,
                r@.len() == matched_indices(es.take(i as int), *other).len(),
                forall|k: int|
                    0 <= k < r@.len() ==> {
                        let m = matched_indices(es.take(i as int), *other)[k];
                        &&& (#[trigger] r@[k]).0 == es[m.0]
                        &&& r@[k].1 == self.components_view()[m.0]
                        &&& r@[k].2 == other.components_view()[m.1]
                    },
            decreases n - i,
        {
            let ghost prefix = es.take(i as int);
            let ghost next = es.take(i + 1);
            proof {
                assert(next.drop_last() =~= prefix);
                assert(next.last() == es[i as int]);
            }
            match other.get_index(self.entities[i]) {
                Some(j) => {
                    proof {
                        other.lemma_get_index_unique(self.entities@[i as int], j as int);
                        assert(matched_indices(next, *other) =~= matched_indices(
                            prefix,
                            *other,
                        ).push((i as int, j as int)));
                    }
                    r.push((self.entities[i], &self.components[i], &other.components[j]));
                },
                None => {
                    proof {
                        assert(other.get_index_spec(es[i as int]) is None);
                        assert(matched_indices(next, *other) =~= matched_indices(prefix, *other));
                    }
                },
            }
            i = i + 1;
        }
        proof {
            assert(es.take(n as int) =~= es);
        }
        r
    }
}

impl<Component> Default for VecStorage<Component> {
    fn default() -> (r: Self)
        ensures
            r.wf(),
            r.entities_view() == Seq::<Entity>::empty(),
            r.components_view() == Seq::<Component>::empty(),
    {
        Self::new()
    }
}

/// A storage holding a single component with no entity relation.
#[derive(Debug, Clone, Copy)]
pub struct SingularStorage<Component> {
    component: Component,
}

impl<Component> SingularStorage<Component> {
    /// The stored component.
    pub closed spec fn component_view(&self) -> Component {
        self.component
    }

    pub fn new(component: Component) -> (r: Self)
        ensures
            r.component_view() == component,
    {
        Self { component }
    }

    pub fn get_component(&self) -> (r: &Component)
        ensures
            r == self.component_view(),
    {
        &self.component
    }

    pub fn get_component_mut(&mut self) -> (r: &mut Component)
        ensures
            *r == old(self).component_view(),
            final(self).component_view() == *final(r),
    {
        &mut self.component
    }
}

impl<Component: Default> Default for SingularStorage<Component> {
    fn default() -> (r: Self) {
        Self { component: Component::default() }
    }
}

/// A storage holding a single immutable component with no entity relation.
#[derive(Debug, Clone, Copy)]
pub struct ImmutableSingularStorage<Component> {
    component: Component,
}

impl<Component> ImmutableSingularStorage<Component> {
    /// The stored component.
    pub closed spec fn component_view(&self) -> Component {
        self.component
    }

    pub fn new(component: Component) -> (r: Self)
        ensures
            r.component_view() == component,
    {
        Self { component }
    }

    pub fn get_component(&self) -> (r: &Component)
        ensures
            r == self.component_view(),
    {
        &self.component
    }
}

impl<Component: Default> Default for ImmutableSingularStorage<Component> {
    fn default() -> (r: Self) {
        Self { component: Component::default() }
    }
}

} // verus!
