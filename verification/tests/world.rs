use rgine::world::World;

#[test]
fn spawned_entity_is_contained_until_despawned() {
    let mut world = World::new();

    let entity = world.spawn_empty();
    assert!(world.contains(entity));
    assert_eq!(world.entity_count(), 1);

    assert!(world.despawn(entity));
    assert!(!world.contains(entity));
    assert_eq!(world.entity_count(), 0);
}

#[test]
fn despawning_twice_reports_the_second_attempt_as_a_miss() {
    let mut world = World::new();
    let entity = world.spawn_empty();

    assert!(world.despawn(entity));
    assert!(!world.despawn(entity));
}

#[test]
fn a_stale_handle_does_not_despawn_the_entity_that_reused_its_index() {
    let mut world = World::new();
    let stale = world.spawn_empty();
    world.despawn(stale);

    let current = world.spawn_empty();
    assert_eq!(stale.index(), current.index());

    assert!(!world.despawn(stale));
    assert!(world.contains(current));
}

#[test]
fn worlds_are_independent() {
    let mut a = World::default();
    let mut b = World::new();
    let ea = a.spawn_empty();
    let _ = b.spawn_empty();
    let eb = b.spawn_empty();
    assert_eq!(a.entity_count(), 1);
    assert_eq!(b.entity_count(), 2);
    assert!(!a.contains(eb));
    assert!(b.contains(ea));
    assert!(a.despawn(ea));
    assert!(b.contains(ea));
}

#[test]
fn a_live_handle_survives_other_spawns_and_despawns() {
    let mut world = World::new();
    assert!(world.can_spawn());
    let kept = world.spawn_empty();
    let mut others = Vec::new();
    for _ in 0..5 {
        others.push(world.spawn_empty());
    }
    for other in &others {
        assert!(world.despawn(*other));
        assert!(world.contains(kept));
    }
    let again = world.spawn_empty();
    assert_ne!(again, kept);
    assert!(world.contains(kept));
    assert_eq!(world.entity_count(), 2);
}
