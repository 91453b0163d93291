use structecs::{Acquirable, ExtractionMetadata, Extractor, Heap, TypeKey};

fn leaf(key: TypeKey) -> ExtractionMetadata {
    ExtractionMetadata::new(key, 0)
}

fn nested(key: TypeKey, offset: usize) -> ExtractionMetadata {
    ExtractionMetadata::new_nested(key, offset, vec![leaf(key)])
}

/// Test basic offset calculation with simple struct
#[test]
fn test_extractor_simple_offset() {
    #[derive(PartialEq, Debug)]
    struct Simple {
        a: u32,
        b: u64,
        c: String,
    }
    const SIMPLE: TypeKey = 300;

    let simple = Simple {
        a: 42,
        b: 100,
        c: "test".to_string(),
    };

    let mut heap = Heap::new();
    let acquirable = Acquirable::new(&mut heap, SIMPLE, &[leaf(SIMPLE)], simple);
    let extracted = acquirable.extract(&mut heap, SIMPLE).unwrap();
    assert_eq!(extracted.offset(), 0);
    let value = extracted.get(&heap).unwrap();

    assert_eq!(value.a, 42);
    assert_eq!(value.b, 100);
    assert_eq!(value.c, "test");
}

/// Test offset calculation with nested structures
#[test]
fn test_extractor_nested_offset() {
    #[derive(PartialEq, Debug)]
    struct Inner {
        value: i32,
    }

    #[derive(PartialEq, Debug)]
    struct Middle {
        data: String,
        inner: Inner,
    }

    #[derive(PartialEq, Debug)]
    struct Outer {
        id: u64,
        middle: Middle,
    }
    const INNER: TypeKey = 310;
    const MIDDLE: TypeKey = 311;
    const OUTER: TypeKey = 312;

    let outer = Outer {
        id: 999,
        middle: Middle {
            data: "test".to_string(),
            inner: Inner { value: -42 },
        },
    };
    let middle_metadata = vec![leaf(MIDDLE), nested(INNER, 24)];
    let metadata = vec![leaf(OUTER), ExtractionMetadata::new_nested(MIDDLE, 8, middle_metadata)];

    let extractor = Extractor::new(&metadata);
    assert_eq!(extractor.offset(INNER), Some(32));
    assert_eq!(extractor.offset(MIDDLE), Some(8));
    assert_eq!(extractor.offset(OUTER), Some(0));

    let mut heap = Heap::new();
    let acquirable = Acquirable::new(&mut heap, OUTER, &metadata, outer);

    // Extract from each level
    let inner = acquirable.extract(&mut heap, INNER).unwrap();
    assert_eq!(inner.get(&heap).unwrap().middle.inner.value, -42);

    let middle = acquirable.extract(&mut heap, MIDDLE).unwrap();
    assert_eq!(middle.get(&heap).unwrap().middle.data, "test");
    assert_eq!(middle.get(&heap).unwrap().middle.inner.value, -42);

    let outer = acquirable.extract(&mut heap, OUTER).unwrap();
    assert_eq!(outer.get(&heap).unwrap().id, 999);
}

/// Test offset calculation with multiple fields at same level
#[test]
fn test_extractor_multiple_fields() {
    #[derive(PartialEq, Debug)]
    struct ComponentA {
        a: u8,
    }

    #[derive(PartialEq, Debug)]
    struct ComponentB {
        b: u16,
    }

    #[derive(PartialEq, Debug)]
    struct ComponentC {
        c: u32,
    }

    #[derive(PartialEq, Debug)]
    struct Entity {
        id: u64,
        comp_a: ComponentA,
        comp_b: ComponentB,
        comp_c: ComponentC,
    }
    const COMP_A: TypeKey = 320;
    const COMP_B: TypeKey = 321;
    const COMP_C: TypeKey = 322;
    const ENTITY: TypeKey = 323;

    let entity = Entity {
        id: 123,
        comp_a: ComponentA { a: 1 },
        comp_b: ComponentB { b: 2 },
        comp_c: ComponentC { c: 3 },
    };
    let metadata = vec![leaf(ENTITY), nested(COMP_A, 14), nested(COMP_B, 12), nested(COMP_C, 8)];

    let mut heap = Heap::new();
    let acquirable = Acquirable::new(&mut heap, ENTITY, &metadata, entity);

    // Extract all components in different order
    let comp_c = acquirable.extract(&mut heap, COMP_C).unwrap();
    assert_eq!(comp_c.get(&heap).unwrap().comp_c.c, 3);

    let comp_a = acquirable.extract(&mut heap, COMP_A).unwrap();
    assert_eq!(comp_a.get(&heap).unwrap().comp_a.a, 1);

    let comp_b = acquirable.extract(&mut heap, COMP_B).unwrap();
    assert_eq!(comp_b.get(&heap).unwrap().comp_b.b, 2);

    let entity = acquirable.extract(&mut heap, ENTITY).unwrap();
    assert_eq!(entity.get(&heap).unwrap().id, 123);
}

/// Test offset calculation with complex alignment requirements
#[test]
fn test_extractor_alignment() {
    #[derive(PartialEq, Debug)]
    struct Aligned16 {
        data: [u8; 16],
    }

    #[derive(PartialEq, Debug)]
    struct Container {
        small: u8,
        aligned: Aligned16,
    }
    const ALIGNED: TypeKey = 330;
    const CONTAINER: TypeKey = 331;

    let mut data = [0u8; 16];
    (0..16).for_each(|i| {
        data[i] = i as u8;
    });

    let container = Container {
        small: 42,
        aligned: Aligned16 { data },
    };
    let metadata = vec![leaf(CONTAINER), nested(ALIGNED, 0)];

    let mut heap = Heap::new();
    let acquirable = Acquirable::new(&mut heap, CONTAINER, &metadata, container);

    let aligned = acquirable.extract(&mut heap, ALIGNED).unwrap();
    assert_eq!(aligned.get(&heap).unwrap().aligned.data[0], 0);
    assert_eq!(aligned.get(&heap).unwrap().aligned.data[15], 15);

    let container = acquirable.extract(&mut heap, CONTAINER).unwrap();
    assert_eq!(container.get(&heap).unwrap().small, 42);
}

/// Test offset calculation with large nested structures
#[test]
fn test_extractor_large_nested() {
    #[derive(PartialEq, Debug)]
    struct Level1 {
        buffer: [u64; 10],
    }

    #[derive(PartialEq, Debug)]
    struct Level2 {
        data: Vec<u32>,
        level1: Level1,
    }

    #[derive(PartialEq, Debug)]
    struct Level3 {
        flag: bool,
        level2: Level2,
    }
    const L1: TypeKey = 340;
    const L2: TypeKey = 341;
    const L3: TypeKey = 342;

    let mut buffer = [0u64; 10];
    (0..10).for_each(|i| {
        buffer[i] = i as u64 * 100;
    });

    let entity = Level3 {
        flag: true,
        level2: Level2 {
            data: vec![1, 2, 3, 4, 5],
            level1: Level1 { buffer },
        },
    };
    let level2_metadata = vec![leaf(L2), nested(L1, 24)];
    let metadata = vec![leaf(L3), ExtractionMetadata::new_nested(L2, 0, level2_metadata)];

    let mut heap = Heap::new();
    let acquirable = Acquirable::new(&mut heap, L3, &metadata, entity);

    let level1 = acquirable.extract(&mut heap, L1).unwrap();
    assert_eq!(level1.get(&heap).unwrap().level2.level1.buffer[5], 500);

    let level2 = acquirable.extract(&mut heap, L2).unwrap();
    assert_eq!(level2.get(&heap).unwrap().level2.data, vec![1, 2, 3, 4, 5]);

    let level3 = acquirable.extract(&mut heap, L3).unwrap();
    assert!(level3.get(&heap).unwrap().flag);
}

/// Test that extraction fails for non-existent types
#[test]
fn test_extractor_wrong_type() {
    struct EntityA {
        id: u32,
    }
    const ENTITY_A: TypeKey = 350;
    const ENTITY_B: TypeKey = 351;
    const ENTITY_C: TypeKey = 352;

    let mut heap = Heap::new();
    let entity = Acquirable::new(&mut heap, ENTITY_A, &[leaf(ENTITY_A)], EntityA { id: 1 });

    // Should succeed for EntityA
    assert!(entity.extract(&mut heap, ENTITY_A).is_some());
    assert_eq!(entity.get(&heap).unwrap().id, 1);

    // Should fail for EntityB and EntityC
    assert!(entity.extract(&mut heap, ENTITY_B).is_none());
    assert!(entity.extract(&mut heap, ENTITY_C).is_none());
}

/// Test offset calculation with mixed sized fields
#[test]
fn test_extractor_mixed_sizes() {
    #[derive(PartialEq, Debug)]
    struct Tiny {
        a: u8,
    }

    #[derive(PartialEq, Debug)]
    struct Small {
        b: u16,
    }

    #[derive(PartialEq, Debug)]
    struct Medium {
        c: u32,
    }

    #[derive(PartialEq, Debug)]
    struct Large {
        d: u64,
    }

    #[derive(PartialEq, Debug)]
    struct MixedSize {
        tiny: Tiny,
        small: Small,
        medium: Medium,
        large: Large,
    }
    const TINY: TypeKey = 360;
    const SMALL: TypeKey = 361;
    const MEDIUM: TypeKey = 362;
    const LARGE: TypeKey = 363;
    const MIXED: TypeKey = 364;

    let entity = MixedSize {
        tiny: Tiny { a: 1 },
        small: Small { b: 2 },
        medium: Medium { c: 3 },
        large: Large { d: 4 },
    };
    let metadata = vec![leaf(MIXED), nested(TINY, 14), nested(SMALL, 12), nested(MEDIUM, 8), nested(LARGE, 0)];

    let mut heap = Heap::new();
    let acquirable = Acquirable::new(&mut heap, MIXED, &metadata, entity);

    let tiny = acquirable.extract(&mut heap, TINY).unwrap();
    assert_eq!(tiny.get(&heap).unwrap().tiny.a, 1);
    let small = acquirable.extract(&mut heap, SMALL).unwrap();
    assert_eq!(small.get(&heap).unwrap().small.b, 2);
    let medium = acquirable.extract(&mut heap, MEDIUM).unwrap();
    assert_eq!(medium.get(&heap).unwrap().medium.c, 3);
    let large = acquirable.extract(&mut heap, LARGE).unwrap();
    assert_eq!(large.get(&heap).unwrap().large.d, 4);
}

/// Test offset calculation with tuple-like structs
#[test]
fn test_extractor_tuple_struct() {
    #[derive(PartialEq, Debug)]
    struct Point(i32, i32);
    const POINT: TypeKey = 370;

    let point = Point(10, 20);
    let mut heap = Heap::new();
    let acquirable = Acquirable::new(&mut heap, POINT, &[leaf(POINT)], point);
    let extracted = acquirable.extract(&mut heap, POINT).unwrap();

    assert_eq!(extracted.get(&heap).unwrap().0, 10);
    assert_eq!(extracted.get(&heap).unwrap().1, 20);
}

/// Test offset calculation across multiple extractions
#[test]
fn test_extractor_multiple_extractions() {
    #[derive(PartialEq, Debug)]
    struct Component {
        value: i32,
    }

    #[derive(PartialEq, Debug)]
    struct Entity {
        id: u64,
        component: Component,
    }
    const COMPONENT: TypeKey = 380;
    const ENTITY: TypeKey = 381;

    let entity = Entity {
        id: 999,
        component: Component { value: 42 },
    };

    let mut heap = Heap::new();
    let acquirable = Acquirable::new(&mut heap, ENTITY, &[leaf(ENTITY), nested(COMPONENT, 8)], entity);

    // Multiple extractions should all work correctly
    for _ in 0..10 {
        let comp = acquirable.extract(&mut heap, COMPONENT).unwrap();
        assert_eq!(comp.get(&heap).unwrap().component.value, 42);
        comp.release(&mut heap);

        let ent = acquirable.extract(&mut heap, ENTITY).unwrap();
        assert_eq!(ent.get(&heap).unwrap().id, 999);
        ent.release(&mut heap);
    }
    assert_eq!(acquirable.strong_count(&heap), 1);
}

/// Test offset calculation with Option fields
#[test]
fn test_extractor_option_fields() {
    #[derive(PartialEq, Debug)]
    struct Entity {
        required: u32,
        optional: Option<String>,
    }
    const ENTITY: TypeKey = 390;

    let entity1 = Entity {
        required: 42,
        optional: Some("test".to_string()),
    };

    let mut heap = Heap::new();
    let acquirable1 = Acquirable::new(&mut heap, ENTITY, &[leaf(ENTITY)], entity1);
    let extracted1 = acquirable1.extract(&mut heap, ENTITY).unwrap();
    assert_eq!(extracted1.get(&heap).unwrap().required, 42);
    assert_eq!(extracted1.get(&heap).unwrap().optional, Some("test".to_string()));

    let entity2 = Entity {
        required: 100,
        optional: None,
    };

    let acquirable2 = Acquirable::new(&mut heap, ENTITY, &[leaf(ENTITY)], entity2);
    let extracted2 = acquirable2.extract(&mut heap, ENTITY).unwrap();
    assert_eq!(extracted2.get(&heap).unwrap().required, 100);
    assert_eq!(extracted2.get(&heap).unwrap().optional, None);
}

/// Test offset calculation with Vec fields
#[test]
fn test_extractor_vec_fields() {
    #[derive(PartialEq, Debug)]
    struct Entity {
        id: u32,
        items: Vec<i32>,
    }
    const ENTITY: TypeKey = 400;

    let entity = Entity {
        id: 1,
        items: vec![10, 20, 30, 40, 50],
    };

    let mut heap = Heap::new();
    let acquirable = Acquirable::new(&mut heap, ENTITY, &[leaf(ENTITY)], entity);
    let extracted = acquirable.extract(&mut heap, ENTITY).unwrap();

    assert_eq!(extracted.get(&heap).unwrap().id, 1);
    assert_eq!(extracted.get(&heap).unwrap().items, vec![10, 20, 30, 40, 50]);
}
