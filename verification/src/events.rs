use vstd::prelude::*;

use crate::entity::Token;

verus! {

/// Identifies an event kind by its process-wide unique string id.
pub trait Event: Sized {
    /// The id the event is registered under in the world.
    fn id() -> String;
}

/// Announces what entity has just spawned, with its token for systems to
/// copy.
pub struct EntitySpawned(pub Token);

impl Event for EntitySpawned {
    fn id() -> String {
        "EntitySpawned".to_owned()
    }
}

/// Announces what entity id has just despawned.
pub struct EntityDespawned(pub usize);

impl Event for EntityDespawned {
    fn id() -> String {
        "EntityDespawned".to_owned()
    }
}

/// Announces to the surrounding application that it is to shut down, with
/// an exit code. Exiting itself is a collaborator's job, not the core's.
pub struct ExitApp(pub i32);

impl Event for ExitApp {
    fn id() -> String {
        "_APP_EXIT".to_owned()
    }
}

/// The event value type the core registers its worlds with: one variant
/// per core event kind.
pub enum CoreEvent {
    Spawned(EntitySpawned),
    Despawned(EntityDespawned),
    Exit(ExitApp),
}

} // verus!
