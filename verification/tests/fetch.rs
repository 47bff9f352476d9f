use manufacture_core::builders::EntityBuilder;
use manufacture_core::query::Query;
use manufacture_core::request::{Commands, ReqAccess, Request, Triggers};
use manufacture_core::query::AccessMode;
use manufacture_core::storage::StorageFlavor;
use manufacture_core::world::{CommandKind, World};

fn two_comp_world() -> (World<u64, u64, u64>, usize, usize) {
    let mut world: World<u64, u64, u64> = World::new();
    let a = world.register_component("A".to_owned(), StorageFlavor::Ordered).ok().unwrap();
    let b = world.register_component("B".to_owned(), StorageFlavor::Dense).ok().unwrap();
    (world, a, b)
}

#[test]
fn duplicate_component_registration_is_refused() {
    let mut world: World<u64, u64, u64> = World::new();
    assert!(world.register_component("A".to_owned(), StorageFlavor::Ordered).is_ok());
    assert!(world.register_component("A".to_owned(), StorageFlavor::Dense).is_err());
    assert!(world.register_resource("R".to_owned(), 7).is_ok());
    assert!(world.register_resource("R".to_owned(), 8).is_err());
    assert!(world.register_event("E".to_owned()).is_ok());
    assert!(world.register_event("E".to_owned()).is_err());
}

#[test]
fn disjoint_tuple_fetch_succeeds() {
    let (mut world, a, b) = two_comp_world();
    let q = Query::new().read(a).read(b);
    let guard = q.fetch(&mut world).ok().unwrap();
    guard.release(&mut world);
    // exclusive on disjoint components is fine too
    let q2 = Query::new().write(a).write(b);
    let guard2 = q2.fetch(&mut world).ok().unwrap();
    guard2.release(&mut world);
}

#[test]
fn conflicting_fetch_of_the_same_component_fails() {
    let (mut world, a, _b) = two_comp_world();
    let q = Query::new().read(a).write(a);
    let conflict = match q.fetch(&mut world) {
        Ok(_) => panic!("shared then exclusive on one component must fail"),
        Err(c) => c,
    };
    assert_eq!(conflict.index, 1);
    // nothing was left claimed: a fresh disjoint fetch still succeeds
    let q2 = Query::new().write(a);
    assert!(q2.fetch(&mut world).is_ok());
}

#[test]
fn exclusive_then_shared_fails_and_shared_twice_succeeds() {
    let (mut world, a, _b) = two_comp_world();
    let q = Query::new().write(a).read(a);
    assert!(q.fetch(&mut world).is_err());
    let q2 = Query::new().read(a).read(a);
    assert!(q2.fetch(&mut world).is_ok());
}

#[test]
fn get_returns_nothing_for_an_unknown_entity() {
    let (mut world, a, b) = two_comp_world();
    let q = Query::new().read(a).read(b);
    let guard = q.fetch(&mut world).ok().unwrap();
    assert!(guard.get(&world, 0).is_none());
}

#[test]
fn get_returns_nothing_for_a_despawned_entity() {
    let (mut world, a, _b) = two_comp_world();
    let t = world.spawn();
    world.insert_comp(a, t.id(), 5);
    world.despawn(t.id());
    let q = Query::new().read(a);
    let guard = q.fetch(&mut world).ok().unwrap();
    assert!(guard.get(&world, t.id()).is_none());
}

#[test]
fn get_is_all_or_nothing_per_entity() {
    // register A and B; E1 has A but no B: the pair query yields nothing,
    // and after inserting B it yields both values
    let (mut world, a, b) = two_comp_world();
    let t = world.spawn();
    world.insert_comp(a, t.id(), 1);
    let q = Query::new().read(a).read(b);
    let guard = q.fetch(&mut world).ok().unwrap();
    assert!(guard.get(&world, t.id()).is_none());
    guard.release(&mut world);
    world.insert_comp(b, t.id(), 2);
    let guard2 = q.fetch(&mut world).ok().unwrap();
    let values = guard2.get(&world, t.id()).unwrap();
    assert_eq!(values.len(), 2);
    assert_eq!(*values[0], 1);
    assert_eq!(*values[1], 2);
}

#[test]
fn stale_token_query_yields_nothing_even_after_id_reuse() {
    let (mut world, a, _b) = two_comp_world();
    let t1 = world.spawn();
    world.insert_comp(a, t1.id(), 5);
    world.despawn(t1.id());
    let t2 = world.spawn();
    world.insert_comp(a, t2.id(), 6);
    assert_eq!(t1.id(), t2.id());
    let q = Query::new().read(a);
    let guard = q.fetch(&mut world).ok().unwrap();
    // the slot is live again and holds data, but the old token is stale
    assert!(guard.get_token(&world, t1).is_none());
    let values = guard.get_token(&world, t2).unwrap();
    assert_eq!(*values[0], 6);
}

#[test]
fn entity_builder_attaches_components_on_finish() {
    let (mut world, a, b) = two_comp_world();
    let builder: EntityBuilder<u64> = world.build_entity().with(a, 1).with(b, 2).with(a, 3);
    let t = builder.token;
    // nothing is attached until finish runs
    assert_eq!(world.comp_get(a, t.id()), None);
    builder.finish(&mut world);
    // the later value for a component wins
    assert_eq!(world.comp_get(a, t.id()), Some(&3));
    assert_eq!(world.comp_get(b, t.id()), Some(&2));
    assert!(world.entities.token_valid(t));
}

#[test]
fn despawn_leaves_component_data_unswept() {
    // despawning removes the entity from the registry only: its component
    // entries stay behind until overwritten or removed explicitly
    let (mut world, a, _b) = two_comp_world();
    let t = world.spawn();
    world.insert_comp(a, t.id(), 5);
    world.despawn(t.id());
    assert_eq!(world.comp_get(a, t.id()), Some(&5));
}

#[test]
fn guard_set_writes_through_an_exclusive_element() {
    let (mut world, a, _b) = two_comp_world();
    let t = world.spawn();
    world.insert_comp(a, t.id(), 1);
    let q = Query::new().write(a);
    let guard = q.fetch(&mut world).ok().unwrap();
    assert!(guard.set(&mut world, 0, t.id(), 9));
    guard.release(&mut world);
    assert_eq!(world.comp_get(a, t.id()), Some(&9));
    // the same gate as get: a missing entity is not written
    let guard2 = q.fetch(&mut world).ok().unwrap();
    assert!(!guard2.set(&mut world, 0, 77, 3));
}

#[test]
fn storage_flavors_share_one_meaning() {
    for flavor in [StorageFlavor::Dense, StorageFlavor::Ordered, StorageFlavor::Hashed] {
        let mut world: World<u64, u64, u64> = World::new();
        let c = world.register_component("C".to_owned(), flavor).ok().unwrap();
        assert_eq!(world.comp_get(c, 3), None);
        world.insert_comp(c, 3, 30);
        world.insert_comp(c, 1, 10);
        assert_eq!(world.comp_get(c, 3), Some(&30));
        assert_eq!(world.comp_get(c, 1), Some(&10));
        // overwrite semantics
        world.insert_comp(c, 3, 31);
        assert_eq!(world.comp_get(c, 3), Some(&31));
        assert_eq!(world.remove_comp(c, 3), Some(31));
        assert_eq!(world.comp_get(c, 3), None);
        assert_eq!(world.remove_comp(c, 3), None);
    }
}

#[test]
fn request_fetch_follows_the_same_xor_rule() {
    let mut world: World<u64, u64, u64> = World::new();
    let r = world.register_resource("R".to_owned(), 7).ok().unwrap();
    let e = world.register_event("E".to_owned()).ok().unwrap();
    // two shared reads of one resource are fine
    let req = Request::new()
        .with(ReqAccess::Res(r, AccessMode::Shared))
        .with(ReqAccess::Res(r, AccessMode::Shared));
    let g = req.fetch(&mut world).ok().unwrap();
    g.release(&mut world);
    // reader and writer of one event stream conflict
    let req2 = Request::new()
        .with(ReqAccess::EventRead(e))
        .with(ReqAccess::EventWrite(e));
    assert!(req2.fetch(&mut world).is_err());
    // the command writer is exclusive
    let req3 = Request::new().with(Commands::access()).with(Commands::access());
    assert!(req3.fetch(&mut world).is_err());
    // distinct queues do not contend
    let req4 = Request::new().with(Commands::access()).with(Triggers::access());
    let g4 = req4.fetch(&mut world).ok().unwrap();
    g4.release(&mut world);
}

#[test]
fn world_arbiter_enforces_readers_xor_writer_per_container() {
    let mut world: World<u64, u64, u64> = World::new();
    let c = world.register_component("C".to_owned(), StorageFlavor::Ordered).ok().unwrap();
    let r = world.register_resource("R".to_owned(), 1).ok().unwrap();
    let e = world.register_event("E".to_owned()).ok().unwrap();
    // components: many readers, then no writer until all release
    assert!(world.fetch(c));
    assert!(world.fetch(c));
    assert!(!world.fetch_mut(c));
    world.release(c);
    assert!(!world.fetch_mut(c));
    world.release(c);
    assert!(world.fetch_mut(c));
    assert!(!world.fetch(c));
    world.release(c);
    // resources and events track their claims independently
    assert!(world.fetch_res_mut(r));
    assert!(!world.fetch_res(r));
    assert!(world.get_event_reader(e));
    assert!(!world.get_event_writer(e));
    world.release_res(r);
    world.release_event(e);
    // the queue writers are exclusive singletons
    assert!(world.get_command_writer());
    assert!(!world.get_command_writer());
    world.release_command_writer();
    assert!(world.get_trigger_writer());
    world.release_trigger_writer();
}

#[test]
fn events_append_and_read_in_order() {
    let mut world: World<u64, u64, u64> = World::new();
    let e = world.register_event("E".to_owned()).ok().unwrap();
    world.send_event(e, 10);
    world.send_event(e, 20);
    let q = world.read_events(e);
    assert_eq!(q, &vec![10, 20]);
}

#[test]
fn command_and_trigger_queues_drain() {
    let mut world: World<u64, u64, u64> = World::new();
    world.push_command(CommandKind::Spawn);
    world.push_command(CommandKind::DespawnId(3));
    let cmds = world.take_commands();
    assert_eq!(cmds, vec![CommandKind::Spawn, CommandKind::DespawnId(3)]);
    assert!(world.take_commands().is_empty());
    world.push_trigger("poke".to_owned());
    let triggers = world.take_triggers();
    assert_eq!(triggers, vec!["poke".to_owned()]);
}
