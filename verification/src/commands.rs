use vstd::prelude::*;

use crate::entity::Token;
use crate::events::{CoreEvent, EntityDespawned, EntitySpawned};
use crate::world::World;

verus! {

/// Spawn a new entity and announce its token on the `EntitySpawned`
/// event stream.
pub struct Spawn;

impl Spawn {
    /// Allocate the entity and append the announcement. The spawned
    /// token, and only it, becomes live.
    pub fn execute<V, R>(&mut self, world: &mut World<V, R, CoreEvent>)
        requires
            old(world).wf(),
            old(world).entities.spec_slot_count() < usize::MAX,
            old(world).spec_has_event("EntitySpawned"@),
        ensures
            final(world).wf(),
            exists|t: Token|
                {
                    &&& final(world).entities.spec_token_live(t)
                    &&& !old(world).entities.spec_live(t.id as int)
                    &&& (forall|tok: Token|
                        final(world).entities.spec_token_live(tok) <==> (tok == t || old(
                            world,
                        ).entities.spec_token_live(tok)))
                    &&& (forall|i: int|
                        0 <= i < old(world).events@.len() && old(world).events@[i].name@
                            == "EntitySpawned"@ ==> (#[trigger] final(world).events@[i]).queue@
                            =~= old(world).events@[i].queue@.push(
                            CoreEvent::Spawned(EntitySpawned(t)),
                        ))
                },
            final(world).events@.len() == old(world).events@.len(),
            forall|i: int|
                0 <= i < old(world).events@.len() && old(world).events@[i].name@
                    != "EntitySpawned"@ ==> (#[trigger] final(world).events@[i]) == old(
                    world,
                ).events@[i],
            final(world).comps == old(world).comps,
            final(world).resources == old(world).resources,
            final(world).commands == old(world).commands,
            final(world).triggers == old(world).triggers,
    {
        let t = world.spawn();
        let name = "EntitySpawned".to_owned();
        match world.find_event(&name) {
            Some(ev) => {
                world.send_event(ev, CoreEvent::Spawned(EntitySpawned(t)));
            },
            None => {
                proof {
                    assert(false);
                }
            },
        }
    }
}

/// Despawn the entity with a raw id and announce it on the
/// `EntityDespawned` event stream, whether or not the id was live.
pub struct DespawnID(pub usize);

impl DespawnID {
    /// Remove the entity, invalidating every token for its id, and append
    /// the announcement.
    pub fn execute<V, R>(&mut self, world: &mut World<V, R, CoreEvent>)
        requires
            old(world).wf(),
            old(world).spec_has_event("EntityDespawned"@),
        ensures
            final(world).wf(),
            !final(world).entities.spec_live(old(self).0 as int),
            forall|tok: Token|
                final(world).entities.spec_token_live(tok) <==> (old(
                    world,
                ).entities.spec_token_live(tok) && tok.id != old(self).0),
            final(world).events@.len() == old(world).events@.len(),
            forall|i: int|
                0 <= i < old(world).events@.len() && old(world).events@[i].name@
                    == "EntityDespawned"@ ==> (#[trigger] final(world).events@[i]).queue@
                    =~= old(world).events@[i].queue@.push(
                    CoreEvent::Despawned(EntityDespawned(old(self).0)),
                ),
            forall|i: int|
                0 <= i < old(world).events@.len() && old(world).events@[i].name@
                    != "EntityDespawned"@ ==> (#[trigger] final(world).events@[i]) == old(
                    world,
                ).events@[i],
            final(world).comps == old(world).comps,
            final(world).resources == old(world).resources,
            final(world).commands == old(world).commands,
            final(world).triggers == old(world).triggers,
    {
        world.despawn(self.0);
        let name = "EntityDespawned".to_owned();
        match world.find_event(&name) {
            Some(ev) => {
                world.send_event(ev, CoreEvent::Despawned(EntityDespawned(self.0)));
            },
            None => {
                proof {
                    assert(false);
                }
            },
        }
    }
}

/// Despawn the entity a token refers to, but only when the token is still
/// live: the announcement is made exactly when something was removed, and
/// a stale token leaves the world untouched.
pub struct DespawnToken(pub Token);

impl DespawnToken {
    /// Remove the entity if the token's generation still matches, and
    /// append the announcement only then.
    pub fn execute<V, R>(&mut self, world: &mut World<V, R, CoreEvent>)
        requires
            old(world).wf(),
            old(world).spec_has_event("EntityDespawned"@),
        ensures
            final(world).wf(),
            !old(world).entities.spec_token_live(old(self).0) ==> *final(world) == *old(world),
            old(world).entities.spec_token_live(old(self).0) ==> {
                &&& (forall|tok: Token|
                    final(world).entities.spec_token_live(tok) <==> (old(
                        world,
                    ).entities.spec_token_live(tok) && tok.id != old(self).0.id))
                &&& final(world).events@.len() == old(world).events@.len()
                &&& (forall|i: int|
                    0 <= i < old(world).events@.len() && old(world).events@[i].name@
                        == "EntityDespawned"@ ==> (#[trigger] final(world).events@[i]).queue@
                        =~= old(world).events@[i].queue@.push(
                        CoreEvent::Despawned(EntityDespawned(old(self).0.id)),
                    ))
                &&& (forall|i: int|
                    0 <= i < old(world).events@.len() && old(world).events@[i].name@
                        != "EntityDespawned"@ ==> (#[trigger] final(world).events@[i]) == old(
                        world,
                    ).events@[i])
            },
            final(world).comps == old(world).comps,
            final(world).resources == old(world).resources,
            final(world).commands == old(world).commands,
            final(world).triggers == old(world).triggers,
    {
        if world.despawn_with_token(self.0) {
            let name = "EntityDespawned".to_owned();
            match world.find_event(&name) {
                Some(ev) => {
                    world.send_event(ev, CoreEvent::Despawned(EntityDespawned(self.0.id())));
                },
                None => {
                    proof {
                        assert(false);
                    }
                },
            }
        }
    }
}

} // verus!
