use std::sync::atomic::{AtomicU32, Ordering};
use structecs::{Archetype, ExtractionMetadata, Heap, TypeKey};

fn leaf(key: TypeKey) -> ExtractionMetadata {
    ExtractionMetadata::new(key, 0)
}

#[test]
fn test_archetype_insert_get() {
    #[derive(Debug, PartialEq, Eq)]
    struct TestEntity {
        id: u32,
    }

    #[derive(Debug, PartialEq, Eq)]
    struct NamedEntity {
        name: String,
        entity: TestEntity,
    }
    const TEST_ENTITY: TypeKey = 600;
    const NAMED: TypeKey = 601;

    let mut heap = Heap::new();
    let mut archetype = Archetype::new(TEST_ENTITY);
    let named_entity = NamedEntity {
        name: "Test".to_string(),
        entity: TestEntity { id: 1 },
    };
    let metadata = vec![leaf(NAMED), ExtractionMetadata::new_nested(TEST_ENTITY, 24, vec![leaf(TEST_ENTITY)])];
    let inserted = archetype.insert(&mut heap, 1, NAMED, &metadata, named_entity);
    assert!(inserted.is_some());
    let retrieved = archetype.get(&mut heap, 1).unwrap();
    assert_eq!(retrieved.component(), TEST_ENTITY);
    assert_eq!(retrieved.offset(), 24);
    let extracted = retrieved.extract(&mut heap, NAMED).unwrap();
    assert_eq!(
        *extracted.get(&heap).unwrap(),
        NamedEntity {
            name: "Test".to_string(),
            entity: TestEntity { id: 1 },
        }
    );
}

#[test]
fn is_compileerror_when_inserting_wrong_type() {
    struct AnotherEntity {
        value: u32,
    }
    const TEST_ENTITY: TypeKey = 610;
    const ANOTHER: TypeKey = 611;

    let mut heap = Heap::new();
    let mut archetype = Archetype::new(TEST_ENTITY);
    let another_entity = AnotherEntity { value: 42 };
    assert_eq!(another_entity.value, 42);
    // AnotherEntity does not declare TestEntity: the insertion is refused.
    assert!(archetype.insert(&mut heap, 2, ANOTHER, &[leaf(ANOTHER)], another_entity).is_none());
    assert!(archetype.is_empty());
}

/// Test removing non-existent keys
#[test]
fn test_archetype_remove_nonexistent() {
    #[derive(Debug)]
    struct Entity {
        id: u32,
    }
    const ENTITY: TypeKey = 620;

    let mut heap = Heap::new();
    let mut archetype = Archetype::new(ENTITY);

    // Remove from empty archetype
    assert!(archetype.remove(&mut heap, 1).is_none());
    assert!(archetype.remove(&mut heap, 999).is_none());

    // Insert and remove
    let h = archetype.insert(&mut heap, 1, ENTITY, &[leaf(ENTITY)], Entity { id: 1 }).unwrap();
    assert_eq!(h.get(&heap).unwrap().id, 1);
    assert!(archetype.remove(&mut heap, 1).is_some());

    // Remove again - should be None
    assert!(archetype.remove(&mut heap, 1).is_none());
}

/// Test getting non-existent keys
#[test]
fn test_archetype_get_nonexistent() {
    #[derive(Debug)]
    struct Entity {
        id: u32,
    }
    const ENTITY: TypeKey = 630;

    let mut heap = Heap::new();
    let mut archetype = Archetype::new(ENTITY);

    // Get from empty archetype
    assert!(archetype.get(&mut heap, 1).is_none());
    assert!(archetype.get(&mut heap, 999).is_none());

    archetype.insert(&mut heap, 1, ENTITY, &[leaf(ENTITY)], Entity { id: 1 });

    // Get existing key
    let got = archetype.get(&mut heap, 1);
    assert!(got.is_some());
    assert_eq!(got.unwrap().get(&heap).unwrap().id, 1);

    // Get non-existent key
    assert!(archetype.get(&mut heap, 2).is_none());
}

/// Test inserting large number of entities
#[test]
fn test_archetype_large_insert() {
    #[derive(Debug)]
    struct Entity {
        value: usize,
    }
    const ENTITY: TypeKey = 640;

    let mut heap = Heap::new();
    let mut archetype = Archetype::new(ENTITY);

    for i in 0..1000 {
        let h = archetype.insert(&mut heap, i as u32, ENTITY, &[leaf(ENTITY)], Entity { value: i * 10 }).unwrap();
        h.release(&mut heap);
    }

    // Verify all entities
    for i in 0..1000 {
        let h = archetype.get(&mut heap, i as u32).unwrap();
        assert_eq!(h.get(&heap).unwrap().value, i * 10);
        h.release(&mut heap);
    }
    assert_eq!(archetype.len(), 1000);
}

/// Test archetype memory cleanup
#[test]
fn test_archetype_memory_cleanup() {
    static DROP_COUNT: AtomicU32 = AtomicU32::new(0);

    struct Entity {
        _data: Vec<u32>,
    }

    impl Drop for Entity {
        fn drop(&mut self) {
            DROP_COUNT.fetch_add(1, Ordering::SeqCst);
        }
    }
    const ENTITY: TypeKey = 650;

    DROP_COUNT.store(0, Ordering::SeqCst);

    {
        let mut heap = Heap::new();
        let mut archetype = Archetype::new(ENTITY);

        for i in 0..10 {
            let h = archetype
                .insert(
                    &mut heap,
                    i,
                    ENTITY,
                    &[leaf(ENTITY)],
                    Entity {
                        _data: vec![1, 2, 3],
                    },
                )
                .unwrap();
            h.release(&mut heap);
        }

        // Remove half
        for i in 0..5 {
            if let Some(h) = archetype.remove(&mut heap, i) {
                h.release(&mut heap);
            }
        }

        assert_eq!(DROP_COUNT.load(Ordering::SeqCst), 5);
    }

    // Archetype dropped - remaining entities should be cleaned up
    assert_eq!(DROP_COUNT.load(Ordering::SeqCst), 10);
}

/// Test archetype with nested extractable entities
#[test]
fn test_archetype_nested_entities() {
    #[derive(Debug)]
    struct Base {
        id: u32,
    }

    #[derive(Debug)]
    struct Extended {
        name: String,
        base: Base,
    }
    const BASE: TypeKey = 660;
    const EXTENDED: TypeKey = 661;

    let metadata = vec![leaf(EXTENDED), ExtractionMetadata::new_nested(BASE, 24, vec![leaf(BASE)])];
    let mut heap = Heap::new();
    let mut archetype = Archetype::new(EXTENDED);

    archetype.insert(
        &mut heap,
        1,
        EXTENDED,
        &metadata,
        Extended {
            name: "First".to_string(),
            base: Base { id: 100 },
        },
    );

    archetype.insert(
        &mut heap,
        2,
        EXTENDED,
        &metadata,
        Extended {
            name: "Second".to_string(),
            base: Base { id: 200 },
        },
    );

    let entity1 = archetype.get(&mut heap, 1).unwrap();
    assert_eq!(entity1.get(&heap).unwrap().name, "First");

    // Extract nested component
    let base1 = entity1.extract(&mut heap, BASE).unwrap();
    assert_eq!(base1.offset(), 24);
    assert_eq!(base1.get(&heap).unwrap().base.id, 100);
    let entity2 = archetype.get(&mut heap, 2).unwrap();
    assert_eq!(entity2.get(&heap).unwrap().base.id, 200);
}

/// Test archetype with multiple overwrites
#[test]
fn test_archetype_multiple_overwrites() {
    #[derive(Debug)]
    struct Entity {
        value: u32,
    }
    const ENTITY: TypeKey = 670;

    let mut heap = Heap::new();
    let mut archetype = Archetype::new(ENTITY);

    // Insert, overwrite multiple times
    archetype.insert(&mut heap, 1, ENTITY, &[leaf(ENTITY)], Entity { value: 100 });
    archetype.insert(&mut heap, 1, ENTITY, &[leaf(ENTITY)], Entity { value: 200 });
    archetype.insert(&mut heap, 1, ENTITY, &[leaf(ENTITY)], Entity { value: 300 });

    assert_eq!(archetype.get(&mut heap, 1).unwrap().get(&heap).unwrap().value, 300);
    assert_eq!(archetype.len(), 1);
}

/// Test archetype key access
#[test]
fn test_archetype_inner_access() {
    #[derive(Debug)]
    struct Entity {
        id: u32,
    }
    const ENTITY: TypeKey = 680;

    let mut heap = Heap::new();
    let mut archetype = Archetype::new(ENTITY);

    let a = archetype.insert(&mut heap, 1, ENTITY, &[leaf(ENTITY)], Entity { id: 10 }).unwrap();
    let b = archetype.insert(&mut heap, 2, ENTITY, &[leaf(ENTITY)], Entity { id: 20 }).unwrap();
    assert_eq!(a.get(&heap).unwrap().id, 10);
    assert_eq!(b.get(&heap).unwrap().id, 20);

    assert_eq!(archetype.len(), 2);
    assert!(archetype.contains_key(1));
    assert!(archetype.contains_key(2));
    let mut keys = archetype.keys();
    keys.sort();
    assert_eq!(keys, vec![1, 2]);
}

/// Test archetype extractable base type retrieval
#[test]
fn test_archetype_base_type_retrieval() {
    #[derive(Debug, PartialEq)]
    struct Base {
        id: u32,
    }

    #[derive(Debug)]
    struct DerivedA {
        name: String,
        base: Base,
    }

    #[derive(Debug)]
    struct DerivedB {
        value: i32,
        base: Base,
    }

    enum Derived {
        A(DerivedA),
        B(DerivedB),
    }

    fn base_of(d: &Derived) -> &Base {
        match d {
            Derived::A(a) => &a.base,
            Derived::B(b) => &b.base,
        }
    }
    const BASE: TypeKey = 690;
    const DERIVED_A: TypeKey = 691;
    const DERIVED_B: TypeKey = 692;

    let mut heap = Heap::new();
    let mut archetype = Archetype::new(BASE);

    archetype.insert(
        &mut heap,
        1,
        DERIVED_A,
        &[leaf(DERIVED_A), ExtractionMetadata::new_nested(BASE, 24, vec![leaf(BASE)])],
        Derived::A(DerivedA {
            name: "A".to_string(),
            base: Base { id: 100 },
        }),
    );

    archetype.insert(
        &mut heap,
        2,
        DERIVED_B,
        &[leaf(DERIVED_B), ExtractionMetadata::new_nested(BASE, 4, vec![leaf(BASE)])],
        Derived::B(DerivedB {
            value: 42,
            base: Base { id: 200 },
        }),
    );

    // Both should be retrievable as Base
    let base1 = archetype.get(&mut heap, 1).unwrap();
    assert_eq!(base1.component(), BASE);
    assert_eq!(base_of(base1.get(&heap).unwrap()).id, 100);

    let base2 = archetype.get(&mut heap, 2).unwrap();
    assert_eq!(base2.offset(), 4);
    assert_eq!(base_of(base2.get(&heap).unwrap()).id, 200);
    if let Derived::B(b) = base2.get(&heap).unwrap() {
        assert_eq!(b.value, 42);
    }
    if let Derived::A(a) = base1.get(&heap).unwrap() {
        assert_eq!(a.name, "A");
    }
}
