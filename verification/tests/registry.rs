use manufacture_core::entity::Registry;
use manufacture_core::world::World;

#[test]
fn spawned_token_is_live() {
    let mut reg = Registry::new();
    let t = reg.spawn();
    assert!(reg.token_valid(t));
    assert!(reg.contains(t.id()));
}

#[test]
fn despawn_invalidates_token() {
    let mut reg = Registry::new();
    let t = reg.spawn();
    reg.despawn(t.id());
    assert!(!reg.token_valid(t));
    assert!(!reg.contains(t.id()));
}

#[test]
fn stale_token_stays_stale_after_id_reuse() {
    let mut reg = Registry::new();
    let t1 = reg.spawn();
    reg.despawn(t1.id());
    let t2 = reg.spawn();
    // the freed slot is reused under a larger generation
    assert_eq!(t2.id(), t1.id());
    assert!(t2.generation() > t1.generation());
    assert!(reg.token_valid(t2));
    assert!(!reg.token_valid(t1));
}

#[test]
fn despawn_with_token_checks_generation() {
    let mut reg = Registry::new();
    let t1 = reg.spawn();
    reg.despawn(t1.id());
    let t2 = reg.spawn();
    // the stale token must not despawn the new occupant
    assert!(!reg.despawn_with_token(t1));
    assert!(reg.token_valid(t2));
    // the live token does
    assert!(reg.despawn_with_token(t2));
    assert!(!reg.token_valid(t2));
}

#[test]
fn fresh_ids_when_no_slot_is_free() {
    let mut reg = Registry::new();
    let a = reg.spawn();
    let b = reg.spawn();
    let c = reg.spawn();
    assert_eq!(a.id(), 0);
    assert_eq!(b.id(), 1);
    assert_eq!(c.id(), 2);
    assert_eq!(reg.slot_count(), 3);
}

#[test]
fn world_spawn_and_despawn() {
    let mut world: World<u64, u64, u64> = World::new();
    let t = world.spawn();
    assert!(world.entities.token_valid(t));
    world.despawn(t.id());
    assert!(!world.entities.token_valid(t));
    let t2 = world.spawn();
    assert_eq!(t2.id(), t.id());
    assert!(!world.entities.token_valid(t));
    assert!(world.entities.token_valid(t2));
}

#[test]
fn world_despawn_with_token_is_a_noop_on_stale_tokens() {
    let mut world: World<u64, u64, u64> = World::new();
    let t = world.spawn();
    world.despawn(t.id());
    let t2 = world.spawn();
    assert!(!world.despawn_with_token(t));
    assert!(world.entities.token_valid(t2));
    assert!(world.despawn_with_token(t2));
}
