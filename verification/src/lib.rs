use vstd::prelude::*;

pub mod borrow;
pub mod builders;
pub mod commands;
pub mod comp;
pub mod dispatcher;
pub mod entity;
pub mod events;
pub mod query;
pub mod request;
pub mod resources;
pub mod schedule;
pub mod storage;
pub mod systems;
pub mod world;

pub use entity::Token;

use crate::comp::CoreComp;
use crate::dispatcher::DispatcherBuilder;
use crate::events::CoreEvent;
use crate::resources::{CMDInput, CoreRes, DeltaT, Resource};
use crate::storage::StorageFlavor;
use crate::systems::CMDInputHandler;
use crate::world::World;

verus! {

/// Wire the core into a world and a dispatcher builder: register the core
/// component, event and resource types and the input-handling system. The
/// engine relies on these registrations; they must happen once, at
/// bootstrap, before the dispatcher is built.
pub fn init(world: &mut World<CoreComp, CoreRes, CoreEvent>, disp_build: &mut DispatcherBuilder)
    requires
        old(world).wf(),
        !old(world).spec_has_comp("CMDSprite"@),
        !old(world).spec_has_comp("PlayerController"@),
        !old(world).spec_has_comp("Tags"@),
        !old(world).spec_has_event("EntitySpawned"@),
        !old(world).spec_has_event("EntityDespawned"@),
        !old(world).spec_has_event("_APP_EXIT"@),
        !old(world).spec_has_res("CMDInputData"@),
        !old(world).spec_has_res("DeltaT"@),
        !old(disp_build).spec_has_system("CMDInput"@),
    ensures
        final(world).wf(),
        final(world).spec_has_comp("CMDSprite"@),
        final(world).spec_has_comp("PlayerController"@),
        final(world).spec_has_comp("Tags"@),
        final(world).spec_has_event("EntitySpawned"@),
        final(world).spec_has_event("EntityDespawned"@),
        final(world).spec_has_event("_APP_EXIT"@),
        final(world).spec_has_res("CMDInputData"@),
        final(world).spec_has_res("DeltaT"@),
        final(disp_build).spec_has_system("CMDInput"@),
{
    proof {
        reveal_strlit("CMDSprite");
        reveal_strlit("PlayerController");
        reveal_strlit("Tags");
        reveal_strlit("EntitySpawned");
        reveal_strlit("EntityDespawned");
        reveal_strlit("_APP_EXIT");
        reveal_strlit("CMDInputData");
        reveal_strlit("DeltaT");
        reveal_strlit("CMDInput");
    }
    // -- Components --
    match world.register_component("CMDSprite".to_owned(), StorageFlavor::Hashed) {
        Ok(_) => {},
        Err(_) => {
            proof {
                assert(false);
            }
        },
    }
    proof {
        assert("CMDSprite"@.len() == 9);
        assert("PlayerController"@.len() == 16);
        assert("Tags"@.len() == 4);
        assert(!world.spec_has_comp("PlayerController"@));
        assert(!world.spec_has_comp("Tags"@));
    }
    match world.register_component("PlayerController".to_owned(), StorageFlavor::Dense) {
        Ok(_) => {},
        Err(_) => {
            proof {
                assert(false);
            }
        },
    }
    match world.register_component("Tags".to_owned(), StorageFlavor::Hashed) {
        Ok(_) => {},
        Err(_) => {
            proof {
                assert(false);
            }
        },
    }
    // -- Events --
    proof {
        assert("EntitySpawned"@.len() == 13);
        assert("EntityDespawned"@.len() == 15);
        assert("_APP_EXIT"@.len() == 9);
    }
    match world.register_event("EntitySpawned".to_owned()) {
        Ok(_) => {},
        Err(_) => {
            proof {
                assert(false);
            }
        },
    }
    match world.register_event("EntityDespawned".to_owned()) {
        Ok(_) => {},
        Err(_) => {
            proof {
                assert(false);
            }
        },
    }
    match world.register_event("_APP_EXIT".to_owned()) {
        Ok(_) => {},
        Err(_) => {
            proof {
                assert(false);
            }
        },
    }
    // -- Resources --
    proof {
        assert("CMDInputData"@.len() == 12);
        assert("DeltaT"@.len() == 6);
    }
    match world.register_resource("CMDInputData".to_owned(), CoreRes::Input(CMDInput::new())) {
        Ok(_) => {},
        Err(_) => {
            proof {
                assert(false);
            }
        },
    }
    proof {
        assert(world.resources@[world.resources@.len() - 1].name@ == "CMDInputData"@);
        assert(world.spec_has_res("CMDInputData"@));
    }
    match world.register_resource("DeltaT".to_owned(), CoreRes::Delta(DeltaT::new())) {
        Ok(_) => {},
        Err(_) => {
            proof {
                assert(false);
            }
        },
    }
    proof {
        assert(world.resources@[world.resources@.len() - 1].name@ == "DeltaT"@);
        assert(world.resources@[world.resources@.len() - 2].name@ == "CMDInputData"@);
        assert(world.spec_has_res("DeltaT"@));
        assert(world.spec_has_res("CMDInputData"@));
    }
    // -- Systems --
    match disp_build.add(CMDInputHandler::info()) {
        Ok(_) => {},
        Err(_) => {
            proof {
                assert(false);
            }
        },
    }
    proof {
        assert(disp_build.systems@[disp_build.systems@.len() - 1].id@ == "CMDInput"@);
        assert(disp_build.spec_has_system("CMDInput"@));
    }
}

} // verus!
