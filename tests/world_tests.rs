use structecs::{
    offsets_fit_from, Acquirable, Entity, EntityId, ExtractionMetadata, Extractable, Heap, Player, World,
    WorldError,
};

enum Thing {
    Hero(Player),
    Plain(Entity),
}

fn name_of(t: &Thing) -> &str {
    match t {
        Thing::Hero(p) => &p.entity.name,
        Thing::Plain(e) => &e.name,
    }
}

fn entity(name: &str) -> Thing {
    Thing::Plain(Entity { name: name.to_string() })
}

fn add_plain(world: &mut World<Thing>, name: &str) -> EntityId {
    world.add_entity(Entity::type_key(), &Entity::metadata(), entity(name)).unwrap()
}

#[test]
fn end_to_end_player_and_zombie() {
    let mut world = World::new();
    let a = world
        .add_entity(
            Player::type_key(),
            &Player::metadata(),
            Thing::Hero(Player {
                entity: Entity { name: "Hero".to_string() },
                health: 100,
            }),
        )
        .unwrap();
    let b = add_plain(&mut world, "Zombie");
    assert_eq!(world.archetype_count(), 2);

    let mut q = world.query(Entity::type_key());
    assert_eq!(q.len(), 2);
    let mut names: Vec<(u32, String)> = Vec::new();
    while let Some((id, h)) = q.next() {
        assert_eq!(h.component(), Entity::type_key());
        names.push((id.id(), name_of(h.get(world.heap()).unwrap()).to_string()));
        world.release(h);
    }
    names.sort();
    assert_eq!(names, vec![(a.id(), "Hero".to_string()), (b.id(), "Zombie".to_string())]);

    let mut q = world.query(Player::type_key());
    assert_eq!(q.len(), 1);
    let (id, h) = q.next().unwrap();
    assert_eq!(id, a);
    match h.get(world.heap()).unwrap() {
        Thing::Hero(p) => assert_eq!(p.health, 100),
        Thing::Plain(_) => panic!("expected the player"),
    }
    world.release(h);
    world.finish_query(q);

    let zombie = world.extract_component(b, Entity::type_key()).unwrap();
    assert_eq!(name_of(zombie.get(world.heap()).unwrap()), "Zombie");
    match world.extract_component(b, Player::type_key()) {
        Err(WorldError::ComponentNotFound { entity_id, component }) => {
            assert_eq!(entity_id, b);
            assert_eq!(component, Player::type_key());
        },
        _ => panic!("expected ComponentNotFound"),
    }
}

#[test]
fn round_trip_extract_after_add() {
    let mut world = World::new();
    let id = add_plain(&mut world, "Alice");
    let h = world.extract_component(id, Entity::type_key()).unwrap();
    assert_eq!(name_of(h.get(world.heap()).unwrap()), "Alice");
    assert_eq!(h.strong_count(world.heap()), 2);
}

#[test]
fn reachability_of_declared_types() {
    let mut world = World::new();
    let id = world
        .add_entity(
            Player::type_key(),
            &Player::metadata(),
            Thing::Hero(Player {
                entity: Entity { name: "Alice".to_string() },
                health: 7,
            }),
        )
        .unwrap();
    assert!(world.extract_component(id, Player::type_key()).is_ok());
    assert!(world.extract_component(id, Entity::type_key()).is_ok());
    assert!(matches!(
        world.extract_component(id, structecs::samples::BUFF_KEY),
        Err(WorldError::ComponentNotFound { .. })
    ));
}

#[test]
fn refcount_after_clones_and_releases() {
    let mut heap = Heap::new();
    let root = Acquirable::new(&mut heap, 1, &[ExtractionMetadata::new(1, 0)], 5u8);
    let mut clones = Vec::new();
    for _ in 0..4 {
        clones.push(root.clone(&mut heap).unwrap());
    }
    assert_eq!(root.strong_count(&heap), 5);
    for _ in 0..3 {
        clones.pop().unwrap().release(&mut heap);
    }
    assert_eq!(root.strong_count(&heap), 2);
    assert_eq!(*root.get(&heap).unwrap(), 5);
}

#[test]
fn weak_handles_leave_strong_count_alone() {
    let mut heap = Heap::new();
    let root = Acquirable::new(&mut heap, 1, &[ExtractionMetadata::new(1, 0)], 9u8);
    let weak = root.downgrade(&mut heap).unwrap();
    assert_eq!(root.strong_count(&heap), 1);
    assert_eq!(root.weak_count(&heap), 1);
    let probe = root.clone(&mut heap).unwrap();
    root.release(&mut heap);
    assert_eq!(probe.strong_count(&heap), 1);
    probe.release(&mut heap);
    assert!(weak.upgrade(&mut heap).is_none());
    assert_eq!(weak.upgrade(&mut heap).map(|h| h.component()), None);
    weak.release(&mut heap);
    // the freed slot is reused for a new value
    let again = Acquirable::new(&mut heap, 1, &[ExtractionMetadata::new(1, 0)], 3u8);
    assert_eq!(*again.get(&heap).unwrap(), 3);
    assert_eq!(again.strong_count(&heap), 1);
}

#[test]
fn removal_of_unknown_and_twice() {
    let mut world = World::new();
    let id = add_plain(&mut world, "Gone");
    match world.remove_entity(EntityId::from_raw(9999)) {
        Err(WorldError::EntityNotFound(e)) => assert_eq!(e.id(), 9999),
        _ => panic!("expected EntityNotFound"),
    }
    assert!(world.remove_entity(id).is_ok());
    assert!(matches!(world.remove_entity(id), Err(WorldError::EntityNotFound(_))));
    assert!(!world.contains_entity(id));
}

#[test]
fn removed_entity_survives_outside_handle() {
    let mut world = World::new();
    let id = add_plain(&mut world, "Kept");
    let h = world.extract_component(id, Entity::type_key()).unwrap();
    world.remove_entity(id).unwrap();
    assert_eq!(name_of(h.get(world.heap()).unwrap()), "Kept");
    assert!(matches!(world.extract_component(id, Entity::type_key()), Err(WorldError::EntityNotFound(_))));
}

#[test]
fn partial_batch_removal() {
    let mut world = World::new();
    let ids: Vec<EntityId> = (0..3).map(|i| add_plain(&mut world, &format!("P{}", i))).collect();
    let before = world.entity_count();
    let batch = vec![ids[0], EntityId::from_raw(9000), ids[1], EntityId::from_raw(9001), ids[2]];
    match world.try_remove_entities(&batch) {
        Err(WorldError::PartialRemoval { succeeded, failed }) => {
            assert_eq!(succeeded, ids);
            assert_eq!(failed, vec![EntityId::from_raw(9000), EntityId::from_raw(9001)]);
        },
        _ => panic!("expected PartialRemoval"),
    }
    assert_eq!(world.entity_count(), before - 3);
}

#[test]
fn batch_removal_all_present() {
    let mut world = World::new();
    let ids: Vec<EntityId> = (0..5).map(|i| add_plain(&mut world, &format!("Player{}", i))).collect();
    assert_eq!(world.entity_count(), 5);
    assert!(world.try_remove_entities(&ids[0..3]).is_ok());
    assert_eq!(world.entity_count(), 2);
    let mut rest = ids[3..].to_vec();
    rest.push(EntityId::from_raw(9999));
    world.remove_entities(&rest);
    assert_eq!(world.entity_count(), 0);
}

#[test]
fn query_snapshot_yields_each_once() {
    let mut world = World::new();
    let ids: Vec<EntityId> = (0..4).map(|i| add_plain(&mut world, &format!("E{}", i))).collect();
    let mut q = world.query(Entity::type_key());
    // a new concrete type added after the query began is not observed
    world
        .add_entity(
            Player::type_key(),
            &Player::metadata(),
            Thing::Hero(Player {
                entity: Entity { name: "Late".to_string() },
                health: 1,
            }),
        )
        .unwrap();
    let mut seen = Vec::new();
    while let Some((id, h)) = q.next() {
        seen.push(id);
        world.release(h);
    }
    seen.sort_by_key(|e| e.id());
    assert_eq!(seen, ids);
    assert!(q.is_empty());
}

#[test]
fn query_unknown_component_is_empty() {
    let mut world: World<Thing> = World::new();
    add_plain(&mut world, "Solo");
    assert_eq!(world.query(structecs::samples::BUFF_KEY).len(), 0);
}

#[test]
fn ids_not_reused_after_clear() {
    let mut world = World::new();
    let first = add_plain(&mut world, "One");
    let second = add_plain(&mut world, "Two");
    assert_eq!((first.id(), second.id()), (0, 1));
    world.clear();
    assert_eq!(world.entity_count(), 0);
    assert_eq!(world.archetype_count(), 0);
    let third = add_plain(&mut world, "Three");
    assert_eq!(third.id(), 2);
}

#[test]
fn add_entities_assigns_contiguous_ids() {
    let mut world = World::new();
    let lone = add_plain(&mut world, "Lone");
    let ids = world
        .add_entities(Entity::type_key(), &Entity::metadata(), vec![entity("a"), entity("b"), entity("c")])
        .unwrap();
    assert_eq!(ids.iter().map(|e| e.id()).collect::<Vec<_>>(), vec![lone.id() + 1, lone.id() + 2, lone.id() + 3]);
    let b = world.extract_component(ids[1], Entity::type_key()).unwrap();
    assert_eq!(name_of(b.get(world.heap()).unwrap()), "b");
    assert_eq!(world.add_entities(Entity::type_key(), &Entity::metadata(), Vec::new()).unwrap().len(), 0);
}

#[test]
fn add_with_handle_and_refused_type() {
    let mut world = World::new();
    let (id, h) = world.add_entity_with_acquirable(Entity::type_key(), &Entity::metadata(), entity("Held")).unwrap();
    assert_eq!(h.strong_count(world.heap()), 2);
    assert!(world.contains_entity(id));
    // a registration that does not declare the type itself is refused
    let refused = world.add_entity(77, &[ExtractionMetadata::new(78, 0)], entity("Odd"));
    assert!(refused.is_none());
    assert_eq!(world.entity_count(), 1);
}

#[test]
fn metadata_flatten_and_fit() {
    let list = Player::metadata();
    let flat = ExtractionMetadata::flatten(&list);
    assert_eq!(flat.len(), 2);
    assert_eq!(flat[&Entity::type_key()], 0);
    assert!(offsets_fit_from(&list, 0));
    let big = vec![ExtractionMetadata::new_nested(1, usize::MAX, vec![ExtractionMetadata::new(2, 1)])];
    assert!(!offsets_fit_from(&big, 0));
    let later_wins = vec![ExtractionMetadata::new(5, 3), ExtractionMetadata::new(5, 8)];
    assert_eq!(ExtractionMetadata::flatten(&later_wins)[&5], 8);
}

#[test]
fn finish_query_releases_unread_handles() {
    let mut world = World::new();
    let id = add_plain(&mut world, "Idle");
    let probe = world.extract_component(id, Entity::type_key()).unwrap();
    assert_eq!(probe.strong_count(world.heap()), 2);
    let q = world.query(Entity::type_key());
    assert_eq!(probe.strong_count(world.heap()), 3);
    world.finish_query(q);
    assert_eq!(probe.strong_count(world.heap()), 2);
}

#[test]
fn refused_registration_is_not_kept() {
    let mut world = World::new();
    assert!(world.add_entity(77, &[ExtractionMetadata::new(78, 0)], entity("Odd")).is_none());
    let id = world.add_entity(77, &[ExtractionMetadata::new(77, 0)], entity("Even")).unwrap();
    let h = world.extract_component(id, 77).unwrap();
    assert_eq!(name_of(h.get(world.heap()).unwrap()), "Even");
}

#[test]
fn clear_keeps_outside_handles_valid() {
    let mut world = World::new();
    let id = add_plain(&mut world, "Survivor");
    let h = world.extract_component(id, Entity::type_key()).unwrap();
    world.clear();
    assert_eq!(h.strong_count(world.heap()), 1);
    assert_eq!(name_of(h.get(world.heap()).unwrap()), "Survivor");
}
