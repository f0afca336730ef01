use dynamecs::{Entity, EntityFactory, EntitySerializationMap, SerializableEntity, VecStorage, VersionedVecStorage};

#[derive(Debug, Clone, Copy, PartialEq, Eq)]
struct A(i32);

#[derive(Debug, Clone, Copy, PartialEq, Eq)]
struct B(i32);

#[derive(Debug, Clone, Copy, PartialEq, Eq)]
struct C(i32);

fn three_entities() -> (Entity, Entity, Entity) {
    let mut factory = EntityFactory::default();
    (factory.new_entity(), factory.new_entity(), factory.new_entity())
}

#[test]
fn test_basic_use() {
    let (e1, e2, e3) = three_entities();
    let mut storage: VersionedVecStorage<A> = VersionedVecStorage::default();

    storage.insert(e1, A(1));
    storage.insert(e2, A(2));
    storage.insert(e3, A(3));

    let [v1, v2, v3] =
        [e1, e2, e3].map(|entity| storage.get_component_version(entity).unwrap());
    let v_storage = storage.storage_version();
    assert_eq!(storage.components(), &[A(1), A(2), A(3)][..]);
    assert_eq!(storage.entities(), &[e1, e2, e3][..]);
    assert_eq!(storage.versions(), &[v1, v2, v3][..]);
    assert_eq!(storage.storage_version(), v_storage);

    // Access components mutably: leads to version bump for all components
    assert_eq!(storage.components_mut(), &mut [A(1), A(2), A(3)][..]);
    assert_eq!(storage.entities(), &[e1, e2, e3][..]);
    assert!(storage.storage_version() > v_storage);
    for (v_old, v_new) in [v1, v2, v3].iter().zip(storage.versions()) {
        assert!(v_new > v_old);
    }

    let [v1, v2, v3] =
        [e1, e2, e3].map(|entity| storage.get_component_version(entity).unwrap());
    let v_storage = storage.storage_version();
    // Accessing a single component mutably should advance the version of the
    // component, plus the version of the storage
    let _c2 = storage.get_component_mut(e2);
    assert!(v_storage < storage.storage_version());
    // Check that only the second element got a version bump
    assert_eq!(v1, storage.get_component_version(e1).unwrap());
    assert_eq!(v3, storage.get_component_version(e3).unwrap());
    assert!(v2 < storage.get_component_version(e2).unwrap());
}

#[test]
fn join_compiles() {
    // Just check that the join helpers compile and give expected types
    let a_storage: VecStorage<A> = VecStorage::new();
    let b_storage: VecStorage<B> = VecStorage::new();
    let c_storage: VecStorage<C> = VecStorage::new();

    for tuple in a_storage.join() {
        let _: (Entity, &A) = tuple;
    }
    for tuple in a_storage.join_with(&b_storage) {
        let _: (Entity, &A, &B) = tuple;
    }
    for tuple in b_storage.join_with(&c_storage) {
        let _: (Entity, &B, &C) = tuple;
    }
}

#[test]
fn join_multiple_storages() {
    // Construct several storages, join combinations and compare with
    // expected results
    let mut factory = EntityFactory::default();
    let v = factory.new_entity();
    let x = factory.new_entity();
    let y = factory.new_entity();
    let z = factory.new_entity();

    let mut a_storage: VecStorage<A> = VecStorage::new();
    a_storage.insert(v, A(1));
    a_storage.insert(x, A(2));
    a_storage.insert(y, A(3));
    a_storage.insert(z, A(4));

    let mut b_storage: VecStorage<B> = VecStorage::new();
    b_storage.insert(v, B(1));
    b_storage.insert(x, B(2));
    b_storage.insert(z, B(3));

    let a_joined = a_storage.join();
    assert_eq!(a_joined.len(), 4);
    assert_eq!((a_joined[0].0, *a_joined[0].1), (v, A(1)));
    assert_eq!((a_joined[1].0, *a_joined[1].1), (x, A(2)));
    assert_eq!((a_joined[2].0, *a_joined[2].1), (y, A(3)));
    assert_eq!((a_joined[3].0, *a_joined[3].1), (z, A(4)));

    let ab = a_storage.join_with(&b_storage);
    assert_eq!(ab.len(), 3);
    assert_eq!((ab[0].0, *ab[0].1, *ab[0].2), (v, A(1), B(1)));
    assert_eq!((ab[1].0, *ab[1].1, *ab[1].2), (x, A(2), B(2)));
    assert_eq!((ab[2].0, *ab[2].1, *ab[2].2), (z, A(4), B(3)));

    let ba = b_storage.join_with(&a_storage);
    assert_eq!(ba.len(), 3);
    assert_eq!((ba[0].0, *ba[0].1, *ba[0].2), (v, B(1), A(1)));
    assert_eq!((ba[1].0, *ba[1].1, *ba[1].2), (x, B(2), A(2)));
    assert_eq!((ba[2].0, *ba[2].1, *ba[2].2), (z, B(3), A(4)));
}

#[test]
fn test_versioned_vec_storage_join() {
    let mut factory = EntityFactory::default();
    let e1 = factory.new_entity();
    let e2 = factory.new_entity();

    let empty: VersionedVecStorage<A> = VersionedVecStorage::default();
    assert_eq!(empty.join().len(), 0);

    let mut versioned: VersionedVecStorage<A> = VersionedVecStorage::default();
    versioned.insert(e1, A(1));
    versioned.insert(e2, A(2));
    let joined = versioned.join();
    assert_eq!(joined.len(), 2);
    assert_eq!((joined[0].0, *joined[0].1), (e1, A(1)));
    assert_eq!((joined[1].0, *joined[1].1), (e2, A(2)));
}

#[test]
fn vec_storage_insert_replaces() {
    let (e1, e2, _) = three_entities();
    let mut storage: VecStorage<A> = VecStorage::new();
    assert!(storage.is_empty());
    assert_eq!(storage.insert(e1, A(1)), 0);
    assert_eq!(storage.insert(e2, A(2)), 1);
    assert_eq!(storage.insert(e1, A(7)), 0);
    assert_eq!(storage.len(), 2);
    assert_eq!(storage.get_component(e1), Some(&A(7)));
    assert_eq!(storage.get_index(e2), Some(1));
    storage.clear();
    assert_eq!(storage.len(), 0);
    assert_eq!(storage.get_component(e1), None);
}

#[test]
fn entity_serialization_map_is_consistent() {
    let mut map = EntitySerializationMap::new();
    let a = map.deserialize_entity(SerializableEntity(10));
    let b = map.deserialize_entity(SerializableEntity(20));
    let a_again = map.deserialize_entity(SerializableEntity(10));
    assert_eq!(a, a_again);
    assert_ne!(a, b);
}
