use manufacture_core::commands::{DespawnID, DespawnToken, Spawn};
use manufacture_core::comp::{CMDSprite, Component, CoreComp, PlayerController, Tags};
use manufacture_core::dispatcher::DispatcherBuilder;
use manufacture_core::events::{CoreEvent, Event, EntityDespawned, EntitySpawned, ExitApp};
use manufacture_core::init;
use manufacture_core::resources::{CMDInput, CoreRes, DeltaT, InputKey, Key, Resource};
use manufacture_core::systems::CMDInputHandler;
use manufacture_core::world::World;

#[test]
fn init_registers_the_core_types() {
    let mut world: World<CoreComp, CoreRes, CoreEvent> = World::new();
    let mut builder = DispatcherBuilder::new();
    init(&mut world, &mut builder);
    assert!(world.has_component(&"CMDSprite".to_owned()));
    assert!(world.has_component(&"PlayerController".to_owned()));
    assert!(world.has_component(&"Tags".to_owned()));
    assert!(world.has_event(&"EntitySpawned".to_owned()));
    assert!(world.has_event(&"EntityDespawned".to_owned()));
    assert!(world.has_event(&"_APP_EXIT".to_owned()));
    assert!(world.has_resource(&"CMDInputData".to_owned()));
    assert!(world.has_resource(&"DeltaT".to_owned()));
    assert!(builder.has_system(&"CMDInput".to_owned()));
    // the pipeline builds without configuration errors
    assert!(builder.build().is_ok());
}

#[test]
fn component_ids_are_the_registered_names() {
    assert_eq!(Tags::id(), "Tags");
    assert_eq!(CMDSprite::id(), "CMDSprite");
    assert_eq!(PlayerController::id(), "PlayerController");
    assert_eq!(EntitySpawned::id(), "EntitySpawned");
    assert_eq!(EntityDespawned::id(), "EntityDespawned");
    assert_eq!(ExitApp::id(), "_APP_EXIT");
    assert_eq!(CMDInput::id(), "CMDInputData");
    assert_eq!(DeltaT::id(), "DeltaT");
}

#[test]
fn spawn_command_announces_the_new_token() {
    let mut world: World<u64, u64, CoreEvent> = World::new();
    let ev = world.register_event("EntitySpawned".to_owned()).ok().unwrap();
    Spawn.execute(&mut world);
    let queue = world.read_events(ev);
    assert_eq!(queue.len(), 1);
    match &queue[0] {
        CoreEvent::Spawned(EntitySpawned(t)) => {
            assert!(world.entities.token_valid(*t));
        }
        _ => panic!("a spawned announcement was expected"),
    }
}

#[test]
fn despawn_id_command_removes_and_announces() {
    let mut world: World<u64, u64, CoreEvent> = World::new();
    world.register_event("EntitySpawned".to_owned()).ok().unwrap();
    let ev = world.register_event("EntityDespawned".to_owned()).ok().unwrap();
    let t = world.spawn();
    DespawnID(t.id()).execute(&mut world);
    assert!(!world.entities.token_valid(t));
    let queue = world.read_events(ev);
    assert_eq!(queue.len(), 1);
    match &queue[0] {
        CoreEvent::Despawned(EntityDespawned(id)) => assert_eq!(*id, t.id()),
        _ => panic!("a despawned announcement was expected"),
    }
}

#[test]
fn despawn_token_command_announces_only_on_success() {
    let mut world: World<u64, u64, CoreEvent> = World::new();
    let ev = world.register_event("EntityDespawned".to_owned()).ok().unwrap();
    let t1 = world.spawn();
    world.despawn(t1.id());
    let t2 = world.spawn();
    // stale token: no mutation, no announcement
    DespawnToken(t1).execute(&mut world);
    assert!(world.entities.token_valid(t2));
    assert_eq!(world.read_events(ev).len(), 0);
    // live token: removed and announced
    DespawnToken(t2).execute(&mut world);
    assert!(!world.entities.token_valid(t2));
    assert_eq!(world.read_events(ev).len(), 1);
}

#[test]
fn cmd_input_stores_and_resets_keys() {
    let mut input = CMDInput::new();
    assert_eq!(input.get(), InputKey { code: Key::Null, modifiers: 0 });
    input.set(InputKey { code: Key::Char('w'), modifiers: 1 });
    assert_eq!(input.get(), InputKey { code: Key::Char('w'), modifiers: 1 });
    input.reset();
    assert_eq!(input.get(), InputKey { code: Key::Null, modifiers: 0 });
}

#[test]
fn input_handler_applies_polled_keys() {
    let mut handler = CMDInputHandler::new();
    let mut input = CMDInput::new();
    handler.apply(&mut input, Some(InputKey { code: Key::Up, modifiers: 0 }));
    assert_eq!(input.get(), InputKey { code: Key::Up, modifiers: 0 });
    handler.apply(&mut input, None);
    assert_eq!(input.get(), InputKey { code: Key::Null, modifiers: 0 });
}

#[test]
fn input_handler_registration_record() {
    let info = CMDInputHandler::info();
    assert_eq!(info.id, "CMDInput");
    assert!(info.depends.is_empty());
    assert!(info.run_ord.is_empty());
}

#[test]
fn delta_t_starts_at_zero_and_records() {
    let mut dt = DeltaT::new();
    assert_eq!(dt.delta_frame(), 0);
    assert_eq!(dt.delta_logic(), 0);
    dt.record(16, 50);
    assert_eq!(dt.delta_frame(), 16);
    assert_eq!(dt.delta_logic(), 50);
}
