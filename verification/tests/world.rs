use ecs::world::World;
use ecs::storage::StorageKind;
use ecs::EcsError;

#[derive(Clone, Copy, Debug, PartialEq)]
struct Health(u32);

impl ecs::Component for Health {}

const HEALTH: u32 = 7;

fn world_with_health() -> World<Health> {
    let mut w: World<Health> = World::new();
    w.register_component(HEALTH).unwrap();
    w
}

#[test]
fn store_then_fetch_returns_stored_value() {
    let mut w = world_with_health();
    w.insert_comp(HEALTH, 0, Health(42)).unwrap();
    assert_eq!(w.get_comp(HEALTH, 0), Ok(Health(42)));
}

#[test]
fn fetch_without_value_is_lookup_miss() {
    let mut w = world_with_health();
    w.insert_comp(HEALTH, 0, Health(42)).unwrap();
    assert_eq!(w.get_comp(HEALTH, 1), Err(EcsError::Missing));
}

#[test]
fn unregistered_component_type_is_config_error() {
    let mut w = world_with_health();
    assert_eq!(w.get_comp(99, 0), Err(EcsError::Unregistered));
    assert_eq!(w.insert_comp(99, 0, Health(1)), Err(EcsError::Unregistered));
    assert_eq!(w.remove_comp(99, 0), Err(EcsError::Unregistered));
}

#[test]
fn double_registration_is_refused() {
    let mut w = world_with_health();
    assert_eq!(w.register_component(HEALTH), Err(EcsError::AlreadyRegistered));
    assert_eq!(
        w.add_storage(HEALTH, StorageKind::Dense),
        Err(EcsError::AlreadyRegistered)
    );
}

#[test]
fn put_overwrites_existing_value() {
    let mut w = world_with_health();
    w.insert_comp(HEALTH, 3, Health(1)).unwrap();
    w.insert_comp(HEALTH, 3, Health(2)).unwrap();
    assert_eq!(w.get_comp(HEALTH, 3), Ok(Health(2)));
}

#[test]
fn remove_hands_the_value_out() {
    let mut w = world_with_health();
    w.insert_comp(HEALTH, 5, Health(9)).unwrap();
    assert_eq!(w.remove_comp(HEALTH, 5), Ok(Health(9)));
    assert_eq!(w.get_comp(HEALTH, 5), Err(EcsError::Missing));
    assert_eq!(w.remove_comp(HEALTH, 5), Err(EcsError::Missing));
}

#[test]
fn dense_storage_behaves_like_keyed_storage() {
    let mut w: World<Health> = World::new();
    w.add_storage(HEALTH, StorageKind::Dense).unwrap();
    assert_eq!(w.get_comp(HEALTH, 4), Err(EcsError::Missing));
    w.insert_comp(HEALTH, 4, Health(8)).unwrap();
    assert_eq!(w.get_comp(HEALTH, 4), Ok(Health(8)));
    assert_eq!(w.get_comp(HEALTH, 0), Err(EcsError::Missing));
    w.insert_comp(HEALTH, 4, Health(9)).unwrap();
    assert_eq!(w.remove_comp(HEALTH, 4), Ok(Health(9)));
    assert_eq!(w.get_comp(HEALTH, 4), Err(EcsError::Missing));
}

#[test]
fn second_exclusive_view_conflicts() {
    let mut w = world_with_health();
    w.insert_comp(HEALTH, 0, Health(10)).unwrap();
    let mut g = w.get_comp_mut(HEALTH, 0).unwrap();
    g.set_value(Health(11));
    match w.get_comp_mut(HEALTH, 0) {
        Err(EcsError::Conflict) => (),
        other => panic!("expected a conflict, got {:?}", other.map(|v| v.value())),
    }
    assert_eq!(w.get_comp(HEALTH, 0), Err(EcsError::Conflict));
    w.release_write(g).unwrap();
    assert_eq!(w.get_comp(HEALTH, 0), Ok(Health(11)));
}

#[test]
fn shared_views_coexist_and_exclude_writers() {
    let mut w = world_with_health();
    w.insert_comp(HEALTH, 0, Health(10)).unwrap();
    let a = w.get_component(HEALTH, 0).unwrap();
    let b = w.get_component(HEALTH, 0).unwrap();
    assert_eq!(a.value(), Health(10));
    assert_eq!(b.value(), Health(10));
    assert_eq!(w.get_comp(HEALTH, 0), Ok(Health(10)));
    match w.get_comp_mut(HEALTH, 0) {
        Err(EcsError::Conflict) => (),
        other => panic!("expected a conflict, got {:?}", other.map(|v| v.value())),
    }
    w.release_read(a).unwrap();
    match w.get_comp_mut(HEALTH, 0) {
        Err(EcsError::Conflict) => (),
        other => panic!("expected a conflict, got {:?}", other.map(|v| v.value())),
    }
    w.release_read(b).unwrap();
    let g = w.get_comp_mut(HEALTH, 0).unwrap();
    w.release_write(g).unwrap();
}

#[test]
fn mutations_through_exclusive_views_are_not_lost() {
    let mut w = world_with_health();
    w.insert_comp(HEALTH, 2, Health(1)).unwrap();
    let mut g = w.get_comp_mut(HEALTH, 2).unwrap();
    assert_eq!(g.value(), Health(1));
    assert_eq!(g.entity_id(), 2);
    assert_eq!(g.component_id(), HEALTH);
    g.set_value(Health(99));
    w.release_write(g).unwrap();
    assert_eq!(w.get_comp(HEALTH, 2), Ok(Health(99)));
}

#[test]
fn removal_of_a_viewed_slot_conflicts() {
    let mut w = world_with_health();
    w.insert_comp(HEALTH, 0, Health(3)).unwrap();
    let g = w.get_component(HEALTH, 0).unwrap();
    assert_eq!(w.remove_comp(HEALTH, 0), Err(EcsError::Conflict));
    assert_eq!(w.insert_comp(HEALTH, 0, Health(4)), Err(EcsError::Conflict));
    w.release_read(g).unwrap();
    assert_eq!(w.remove_comp(HEALTH, 0), Ok(Health(3)));
}

#[test]
fn builder_chains_components_and_tags() {
    let w = world_with_health();
    let b = w.new_entity();
    let w = b.add(HEALTH, Health(5)).tag(1).tag(2).done();
    assert_eq!(w.get_comp(HEALTH, 0), Ok(Health(5)));
    assert_eq!(w.entities_with_tag(1), vec![0]);
    assert_eq!(w.entities_with_tag(2), vec![0]);
}

#[test]
fn builder_reopens_an_existing_entity() {
    let w = world_with_health();
    let w = w.new_entity().add(HEALTH, Health(5)).tag(1).done();
    let mut b = ecs::world::EntityBuilder::from_id(w, 0);
    b.add_component(HEALTH, Health(6));
    b.remove_tag(1);
    b.add_tag(3);
    let w = b.done();
    assert_eq!(w.get_comp(HEALTH, 0), Ok(Health(6)));
    assert!(w.entities_with_tag(1).is_empty());
    assert_eq!(w.entities_with_tag(3), vec![0]);
}

#[test]
fn tag_then_untag_restores_membership() {
    let w = world_with_health();
    let w = w.new_entity().tag(4).done();
    let w = w.new_entity().tag(4).done();
    let before = w.entities_with_tag(4);
    let mut b = ecs::world::EntityBuilder::from_id(w, 2);
    b.add_tag(4);
    b.remove_tag(4);
    let w = b.done();
    assert_eq!(w.entities_with_tag(4), before);
}

#[test]
fn tagging_twice_keeps_one_occurrence() {
    let w = world_with_health();
    let w = w.new_entity().tag(4).tag(4).done();
    assert_eq!(w.entities_with_tag(4), vec![0]);
}

#[test]
fn empty_and_unknown_tags_answer_with_empty_sequences() {
    let w = world_with_health();
    assert!(w.entities_with_tag(123).is_empty());
    let w = w.new_entity().tag(5).done();
    let mut b = ecs::world::EntityBuilder::from_id(w, 0);
    b.remove_tag(5);
    let w = b.done();
    assert!(w.entities_with_tag(5).is_empty());
}

#[test]
fn releasing_a_view_into_an_unborrowed_slot_conflicts() {
    let mut a = world_with_health();
    a.insert_comp(HEALTH, 0, Health(1)).unwrap();
    let g = a.get_component(HEALTH, 0).unwrap();
    let mut b = world_with_health();
    b.insert_comp(HEALTH, 0, Health(2)).unwrap();
    assert_eq!(b.release_read(g), Err(EcsError::Conflict));
    assert_eq!(b.get_comp(HEALTH, 0), Ok(Health(2)));
}

#[test]
fn dense_storage_enforces_the_same_borrow_discipline() {
    let mut w: World<Health> = World::new();
    w.add_storage(HEALTH, StorageKind::Dense).unwrap();
    w.insert_comp(HEALTH, 2, Health(7)).unwrap();
    let mut g = w.get_comp_mut(HEALTH, 2).unwrap();
    assert_eq!(w.get_comp(HEALTH, 2), Err(EcsError::Conflict));
    match w.get_comp_mut(HEALTH, 2) {
        Err(EcsError::Conflict) => (),
        other => panic!("expected a conflict, got {:?}", other.map(|v| v.value())),
    }
    g.set_value(Health(8));
    w.release_write(g).unwrap();
    assert_eq!(w.get_comp(HEALTH, 2), Ok(Health(8)));
}

#[test]
fn tag_query_hands_out_an_independent_snapshot() {
    let w = world_with_health();
    let w = w.new_entity().tag(6).done();
    let mut snapshot = w.entities_with_tag(6);
    snapshot.push(999);
    assert_eq!(w.entities_with_tag(6), vec![0]);
}

#[test]
fn tag_membership_keeps_insertion_order() {
    let w = world_with_health();
    let w = w.new_entity().tag(9).done();
    let w = w.new_entity().tag(9).done();
    let w = w.new_entity().tag(9).done();
    assert_eq!(w.entities_with_tag(9), vec![0, 1, 2]);
}
