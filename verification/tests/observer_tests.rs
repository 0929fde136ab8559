use entity_observer::{CloneBehavior, EntityClonerBuilder, ObservedBy, World};

/// Event kind used by these tests.
const E: u64 = 1;

/// Component kind used by the component-scoped tests.
const C: u64 = 7;

#[test]
fn clone_entity_with_observer() {
    let mut world = World::default();
    let mut num: u64 = 0;

    let e = world.spawn_empty();
    let _observer = world.observe(e, E);
    world.flush();

    num += world.trigger_targets(E, &vec![e]);

    let e_clone = world.spawn_empty();
    EntityClonerBuilder::new().add_observers(true).clone_entity(&mut world, e, e_clone);

    num += world.trigger_targets(E, &vec![e, e_clone]);

    assert_eq!(num, 3);
}

#[test]
fn observe_registers_bidirectionally() {
    let mut world = World::default();
    let e = world.spawn_empty();
    let o = world.observe(e, E);
    let back = world.get_observed_by(e).unwrap();
    assert_eq!(back.get(), &[o][..]);
    let descriptor = world.get_observer(o).unwrap();
    assert_eq!(descriptor.entities, vec![e]);
    assert_eq!(descriptor.events, vec![E]);
    assert!(descriptor.components.is_empty());
    assert_eq!(descriptor.despawned_watched_entities, 0);
}

#[test]
fn despawn_cascades_observer() {
    let mut world = World::default();
    let e = world.spawn_empty();
    let o = world.observe(e, E);
    assert_eq!(world.trigger_targets(E, &vec![e]), 1);
    world.despawn(e);
    assert!(!world.is_alive(e));
    assert!(!world.is_alive(o));
    // a stale index binding for the removed entity never fires a reaction
    assert_eq!(world.trigger_targets(E, &vec![e]), 0);
}

#[test]
fn cascade_waits_for_last_subject() {
    let mut world = World::default();
    let e1 = world.spawn_empty();
    let e2 = world.spawn_empty();
    let o = world.observe_many(&vec![e1, e2], E);
    world.despawn(e1);
    assert!(world.is_alive(o));
    assert_eq!(world.get_observer(o).unwrap().despawned_watched_entities, 1);
    world.despawn(e2);
    assert!(!world.is_alive(o));
}

#[test]
fn repeated_despawn_counts_once() {
    let mut world = World::default();
    let e1 = world.spawn_empty();
    let e2 = world.spawn_empty();
    let o = world.observe_many(&vec![e1, e2], E);
    world.despawn(e1);
    world.despawn(e1);
    world.despawn(e1);
    assert!(world.is_alive(o));
    assert_eq!(world.get_observer(o).unwrap().despawned_watched_entities, 1);
}

#[test]
fn clone_copies_registration() {
    let mut world = World::default();
    let e = world.spawn_empty();
    let o = world.observe(e, E);
    let e_clone = world.spawn_empty();
    EntityClonerBuilder::new().add_observers(true).clone_entity(&mut world, e, e_clone);
    assert_eq!(
        world.get_observed_by(e_clone).unwrap().get(),
        world.get_observed_by(e).unwrap().get()
    );
    assert_eq!(world.get_observer(o).unwrap().entities, vec![e, e_clone]);
    assert_eq!(world.get_observer(o).unwrap().despawned_watched_entities, 0);
    assert!(world.entity_bucket(E, e_clone).is_some());
    assert_eq!(world.entity_bucket(E, e_clone), world.entity_bucket(E, e));
}

#[test]
fn clone_is_independent_of_source() {
    let mut world = World::default();
    let e = world.spawn_empty();
    let o = world.observe(e, E);
    let e_clone = world.spawn_empty();
    EntityClonerBuilder::new().add_observers(true).clone_entity(&mut world, e, e_clone);
    world.despawn(e);
    assert!(world.is_alive(o));
    assert_eq!(world.trigger_targets(E, &vec![e_clone]), 1);
    world.despawn(e_clone);
    assert!(!world.is_alive(o));
}

#[test]
fn clone_without_propagation_leaves_no_registration() {
    let mut world = World::default();
    let e = world.spawn_empty();
    let _o = world.observe(e, E);
    let e_clone = world.spawn_empty();
    EntityClonerBuilder::new().clone_entity(&mut world, e, e_clone);
    assert!(world.get_observed_by(e_clone).is_none());
    assert_eq!(world.trigger_targets(E, &vec![e_clone]), 0);
}

#[test]
fn propagation_toggle_can_be_reverted() {
    let mut world = World::default();
    let e = world.spawn_empty();
    let _o = world.observe(e, E);
    let e_clone = world.spawn_empty();
    EntityClonerBuilder::new().add_observers(true).add_observers(false).clone_entity(
        &mut world, e, e_clone,
    );
    assert!(world.get_observed_by(e_clone).is_none());
}

#[test]
fn component_scoped_clone_copies_binding() {
    let mut world = World::default();
    let e = world.spawn_empty();
    let o = world.observe_scoped(e, E, C);
    let e_clone = world.spawn_empty();
    EntityClonerBuilder::new().add_observers(true).clone_entity(&mut world, e, e_clone);
    assert!(world.component_bucket(E, C, e_clone).is_some());
    assert_eq!(
        world.component_bucket(E, C, e_clone),
        world.component_bucket(E, C, e)
    );
    assert_eq!(world.get_observer(o).unwrap().entities, vec![e, e_clone]);
    assert_eq!(world.get_observer(o).unwrap().components, vec![C]);
    assert!(world.entity_bucket(E, e_clone).is_none());
}

#[test]
fn cascade_skips_already_removed_observer() {
    let mut world = World::default();
    let e = world.spawn_empty();
    let o = world.observe(e, E);
    world.despawn(o);
    assert!(!world.is_alive(o));
    world.despawn(e);
    assert!(!world.is_alive(e));
}

#[test]
fn cascade_reaches_observers_of_observers() {
    let mut world = World::default();
    let e = world.spawn_empty();
    let o1 = world.observe(e, E);
    let o2 = world.observe(o1, E);
    world.despawn(e);
    assert!(!world.is_alive(o1));
    assert!(!world.is_alive(o2));
}

#[test]
fn trigger_counter_scenario() {
    let mut world = World::default();
    let mut num: u64 = 0;
    let e = world.spawn_empty();
    let _o = world.observe(e, E);
    num += world.trigger_targets(E, &vec![e]);
    assert_eq!(num, 1);
    num += world.trigger_targets(E, &vec![e]);
    assert_eq!(num, 2);
    world.despawn(e);
    let other = world.spawn_empty();
    num += world.trigger_targets(E, &vec![other]);
    num += world.trigger_targets(E, &vec![e]);
    assert_eq!(num, 2);
}

#[test]
fn observed_by_clone_behavior_is_ignore() {
    assert!(matches!(ObservedBy::clone_behavior(), CloneBehavior::Ignore));
}

#[test]
fn builder_does_not_propagate_by_default() {
    assert!(!EntityClonerBuilder::new().add_observers);
    assert!(EntityClonerBuilder::new().add_observers(true).add_observers);
}

#[test]
fn empty_observed_by_lists_nothing() {
    let record = ObservedBy::default();
    assert!(record.get().is_empty());
    let world = World::new();
    assert_eq!(world.num_entities(), 0);
}
