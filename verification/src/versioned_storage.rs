use vstd::prelude::*;

use core::cmp::Ordering;
use core::marker::PhantomData;

use crate::entity::Entity;
use crate::storages::VecStorage;

verus! {

/// A monotonically increasing revision counter, tagged with the type whose
/// revisions it counts.
#[derive(Debug)]
pub struct Version<T> {
    version: u64,
    marker: PhantomData<T>,
}

impl<T> Version<T> {
    /// The revision count.
    pub closed spec fn version_view(&self) -> u64 {
        self.version
    }

    pub fn new() -> (r: Self)
        ensures
            r.version_view() == 0,
    {
        Self { version: 0, marker: PhantomData }
    }

    /// The next revision.
    pub fn next(&self) -> (r: Self)
        requires
            self.version_view() < u64::MAX,
        ensures
            r.version_view() == self.version_view() + 1,
    {
        Self { version: self.version + 1, marker: PhantomData }
    }

    /// Advances to the next revision in place.
    pub fn advance(&mut self)
        requires
            old(self).version_view() < u64::MAX,
        ensures
            final(self).version_view() == old(self).version_view() + 1,
    {
        self.version = self.version + 1;
    }
}

impl<T> Clone for Version<T> {
    fn clone(&self) -> (r: Self)
        ensures
            r == *self,
    {
        Self { version: self.version, marker: PhantomData }
    }
}

impl<T> Copy for Version<T> {}

impl<T> Default for Version<T> {
    fn default() -> (r: Self)
        ensures
            r.version_view() == 0,
    {
        Self::new()
    }
}

impl<T> PartialEq for Version<T> {
    fn eq(&self, other: &Self) -> bool {
        self.version == other.version
    }
}

impl<T> Eq for Version<T> {}

impl<T> vstd::std_specs::cmp::PartialEqSpecImpl for Version<T> {
    open spec fn obeys_eq_spec() -> bool {
        true
    }

    open spec fn eq_spec(&self, other: &Self) -> bool {
        self.version_view() == other.version_view()
    }
}

impl<T> PartialOrd for Version<T> {
    fn partial_cmp(&self, other: &Self) -> (r: Option<Ordering>) {
        if self.version < other.version {
            Some(Ordering::Less)
        } else if self.version == other.version {
            Some(Ordering::Equal)
        } else {
            Some(Ordering::Greater)
        }
    }
}

impl<T> vstd::std_specs::cmp::PartialOrdSpecImpl for Version<T> {
    open spec fn obeys_partial_cmp_spec() -> bool {
        true
    }

    open spec fn partial_cmp_spec(&self, other: &Self) -> Option<Ordering> {
        if self.version_view() < other.version_view() {
            Some(Ordering::Less)
        } else if self.version_view() == other.version_view() {
            Some(Ordering::Equal)
        } else {
            Some(Ordering::Greater)
        }
    }
}

/// A [`VecStorage`] that additionally tracks a revision per component and a
/// revision for the storage as a whole.
#[derive(Debug)]
pub struct VersionedVecStorage<Component> {
    storage: VecStorage<Component>,
    versions: Vec<Version<Component>>,
    storage_version: u64,
}

impl<Component> VersionedVecStorage<Component> {
    /// Well-formedness: the underlying storage is well-formed and carries one
    /// revision per component. Constructors establish it and every method
    /// keeps it.
    pub open spec fn wf(&self) -> bool {
        &&& self.inner_view().wf()
        &&& self.versions_view().len() == self.inner_view().components_view().len()
    }

    /// The underlying storage.
    pub closed spec fn inner_view(&self) -> VecStorage<Component> {
        self.storage
    }

    /// The per-component revisions, aligned with the storage's components.
    pub closed spec fn versions_view(&self) -> Seq<Version<Component>> {
        self.versions@
    }

    /// The revision of the storage as a whole.
    pub closed spec fn storage_version_view(&self) -> u64 {
        self.storage_version
    }

    pub fn len(&self) -> (r: usize)
        ensures
            r == self.inner_view().components_view().len(),
    {
        self.storage.len()
    }

    pub fn components(&self) -> (r: &[Component])
        ensures
            r@ == self.inner_view().components_view(),
    {
        self.storage.components()
    }

    pub fn entities(&self) -> (r: &[Entity])
        ensures
            r@ == self.inner_view().entities_view(),
    {
        self.storage.entities()
    }

    pub fn get_component(&self, id: Entity) -> (r: Option<&Component>)
        requires
            self.wf(),
        ensures
            match r {
                Some(c) => exists|i: int|
                    0 <= i < self.inner_view().entities_view().len()
                        && self.inner_view().entities_view()[i] == id && c == #[trigger] self.inner_view().components_view()[i],
                None => forall|j: int|
                    0 <= j < self.inner_view().entities_view().len()
                        ==> self.inner_view().entities_view()[j] != id,
            },
    {
        self.storage.get_component(id)
    }

    /// Inserts a component for the given entity and returns its position.
    ///
    /// The storage revision always advances. A replaced component's own
    /// revision advances too; a fresh component starts at revision zero.
    pub fn insert(&mut self, entity: Entity, component: Component) -> (r: usize)
        requires
            old(self).wf(),
            old(self).storage_version_view() < u64::MAX,
            match old(self).inner_view().get_index_spec(entity) {
                Some(i) => old(self).versions_view()[i].version_view() < u64::MAX,
                None => true,
            },
        ensures
            final(self).wf(),
            final(self).storage_version_view() == old(self).storage_version_view() + 1,
            match old(self).inner_view().get_index_spec(entity) {
                Some(i) => {
                    &&& r == i
                    &&& final(self).inner_view().entities_view() == old(
                        self,
                    ).inner_view().entities_view()
                    &&& final(self).inner_view().components_view() == old(
                        self,
                    ).inner_view().components_view().update(i, component)
                    &&& final(self).versions_view().len() == old(self).versions_view().len()
                    &&& final(self).versions_view()[i].version_view() == old(
                        self,
                    ).versions_view()[i].version_view() + 1
                    &&& forall|j: int|
                        0 <= j < old(self).versions_view().len() && j != i
                            ==> final(self).versions_view()[j] == old(self).versions_view()[j]
                },
                None => {
                    &&& r == old(self).inner_view().entities_view().len()
                    &&& final(self).inner_view().entities_view() == old(
                        self,
                    ).inner_view().entities_view().push(entity)
                    &&& final(self).inner_view().components_view() == old(
                        self,
                    ).inner_view().components_view().push(component)
                    &&& final(self).versions_view().len() == old(self).versions_view().len() + 1
                    &&& final(self).versions_view().last().version_view() == 0
                    &&& forall|j: int|
                        0 <= j < old(self).versions_view().len()
                            ==> final(self).versions_view()[j] == old(self).versions_view()[j]
                },
            },
    {
        self.storage_version = self.storage_version + 1;
        let idx = self.storage.insert(entity, component);
        if idx < self.versions.len() {
            let bumped = self.versions[idx].next();
            self.versions[idx] = bumped;
        } else {
            self.versions.push(Version::new());
        }
        idx
    }

    /// Returns a mutable reference to the component owned by `id`.
    ///
    /// On a hit, the storage revision and the component's revision advance.
    pub fn get_component_mut(&mut self, id: Entity) -> (r: Option<&mut Component>)
        requires
            old(self).wf(),
            match old(self).inner_view().get_index_spec(id) {
                Some(i) => old(self).storage_version_view() < u64::MAX && old(
                    self,
                ).versions_view()[i].version_view() < u64::MAX,
                None => true,
            },
        ensures
            final(self).wf(),
            final(self).inner_view().entities_view() == old(self).inner_view().entities_view(),
            match old(self).inner_view().get_index_spec(id) {
                Some(i) => {
                    &&& r is Some
                    &&& *r->0 == old(self).inner_view().components_view()[i]
                    &&& final(self).inner_view().components_view() == old(
                        self,
                    ).inner_view().components_view().update(i, *final(r->0))
                    &&& final(self).storage_version_view() == old(self).storage_version_view()
                        + 1
                    &&& final(self).versions_view().len() == old(self).versions_view().len()
                    &&& final(self).versions_view()[i].version_view() == old(
                        self,
                    ).versions_view()[i].version_view() + 1
                    &&& forall|j: int|
                        0 <= j < old(self).versions_view().len() && j != i
                            ==> final(self).versions_view()[j] == old(self).versions_view()[j]
                },
                None => {
                    &&& r is None
                    &&& *final(self) == *old(self)
                },
            },
    {
        match self.storage.get_index(id) {
            Some(i) => {
                proof {
                    self.storage.lemma_get_index_unique(id, i as int);
                }
                self.storage_version = self.storage_version + 1;
                let bumped = self.versions[i].next();
                self.versions[i] = bumped;
                match self.storage.get_component_mut(id) {
                    Some(c) => Some(c),
                    None => None,
                }
            },
            None => None,
        }
    }

    /// Returns a mutable slice of all components.
    ///
    /// The storage revision and every component revision advance.
    pub fn components_mut(&mut self) -> (r: &mut [Component])
        requires
            old(self).wf(),
            old(self).storage_version_view() < u64::MAX,
            forall|i: int|
                0 <= i < old(self).versions_view().len()
                    ==> (#[trigger] old(self).versions_view()[i]).version_view() < u64::MAX,
        ensures
            r@ == old(self).inner_view().components_view(),
            final(self).inner_view().components_view() == final(r)@,
            final(self).inner_view().entities_view() == old(self).inner_view().entities_view(),
            final(self).storage_version_view() == old(self).storage_version_view() + 1,
            final(self).versions_view().len() == old(self).versions_view().len(),
            forall|i: int|
                0 <= i < old(self).versions_view().len()
                    ==> (#[trigger] final(self).versions_view()[i]).version_view() == old(
                    self,
                ).versions_view()[i].version_view() + 1,
            final(r)@.len() == r@.len() ==> final(self).wf(),
    {
        self.storage_version = self.storage_version + 1;
        let n = self.versions.len();
        proof {
            assert(forall|j: int|
                0 <= j < n ==> (#[trigger] old(self).versions@[j]).version_view() == old(
                    self,
                ).versions_view()[j].version_view());
        }
        let mut i: usize = 0;
        while i < n
            invariant
                n == self.versions@.len(),
                i <= n,
                self.storage == old(self).storage,
                self.storage_version == old(self).storage_version + 1,
                forall|j: int|
                    0 <= j < i ==> (#[trigger] self.versions@[j]).version_view() == old(
                        self,
                    ).versions@[j].version_view() + 1,
                forall|j: int| i <= j < n ==> self.versions@[j] == old(self).versions@[j],
                forall|j: int|
                    0 <= j < n ==> (#[trigger] old(self).versions@[j]).version_view() < u64::MAX,
            decreases n - i,
        {
            let bumped = self.versions[i].next();
            self.versions[i] = bumped;
            i = i + 1;
        }
        self.storage.components_mut()
    }

    /// The revision of the component owned by `id`, if any.
    pub fn get_component_version(&self, id: Entity) -> (r: Option<Version<Component>>)
        requires
            self.wf(),
        ensures
            match r {
                Some(v) => exists|i: int|
                    0 <= i < self.inner_view().entities_view().len()
                        && self.inner_view().entities_view()[i] == id && v
                        == #[trigger] self.versions_view()[i],
                None => forall|j: int|
                    0 <= j < self.inner_view().entities_view().len()
                        ==> self.inner_view().entities_view()[j] != id,
            },
    {
        match self.storage.get_index(id) {
            Some(i) => {
                proof {
                    assert(self.versions_view()[i as int] == self.versions@[i as int]);
                }
                Some(self.versions[i])
            },
            None => None,
        }
    }

    /// The revision of the storage as a whole.
    pub fn storage_version(&self) -> (r: Version<Self>)
        ensures
            r.version_view() == self.storage_version_view(),
    {
        Version { version: self.storage_version, marker: PhantomData }
    }

    /// Pairs every entity of this storage with its component, in storage
    /// order; reads nothing mutably, so no revision advances.
    pub fn join<'a>(&'a self) -> (r: Vec<(Entity, &'a Component)>)
        requires
            self.wf(),
        ensures
            r@.len() == self.inner_view().entities_view().len(),
            forall|k: int|
                0 <= k < r@.len() ==> (#[trigger] r@[k]).0 == self.inner_view().entities_view()[k]
                    && r@[k].1 == self.inner_view().components_view()[k],
    {
        self.storage.join()
    }

    pub fn versions(&self) -> (r: &[Version<Component>])
        ensures
            r@ == self.versions_view(),
    {
        self.versions.as_slice()
    }
}

impl<Component> Default for VersionedVecStorage<Component> {
    fn default() -> (r: Self)
        ensures
            r.wf(),
            r.inner_view().entities_view() == Seq::<Entity>::empty(),
            r.inner_view().components_view() == Seq::<Component>::empty(),
            r.versions_view() == Seq::<Version<Component>>::empty(),
            r.storage_version_view() == 0,
    {
        let r = Self { storage: VecStorage::new(), versions: Vec::new(), storage_version: 0 };
        proof {
            assert(r.versions_view() =~= Seq::<Version<Component>>::empty());
        }
        r
    }
}

} // verus!
