use vstd::prelude::*;

use crate::entity::Token;
use crate::world::World;

verus! {

/// The value the most recent pair for component `c` carries, if any: a
/// later `with` for the same component overwrites an earlier one.
pub open spec fn last_value_for<V>(pairs: Seq<(usize, V)>, c: usize) -> Option<V>
    decreases pairs.len(),
{
    if pairs.len() == 0 {
        None
    } else if pairs.last().0 == c {
        Some(pairs.last().1)
    } else {
        last_value_for(pairs.drop_last(), c)
    }
}

/// A safe way to construct a new entity: collect the components it should
/// start with, then attach them all to the spawned entity at once.
pub struct EntityBuilder<V> {
    pub token: Token,
    pub comps: Vec<(usize, V)>,
}

impl<V> EntityBuilder<V> {
    /// Add a component value for the entity under construction.
    pub fn with(self, comp: usize, value: V) -> (r: Self)
        ensures
            r.token == self.token,
            r.comps@ == self.comps@.push((comp, value)),
    {
        let mut b = self;
        b.comps.push((comp, value));
        b
    }

    /// Attach every collected component to the entity: each component's
    /// storage receives the most recent value listed for it, and storages
    /// not listed stay as they were.
    pub fn finish<R, E>(self, world: &mut World<V, R, E>)
        requires
            old(world).wf(),
            self.token.id < usize::MAX,
            forall|k: int|
                0 <= k < self.comps@.len() ==> ((#[trigger] self.comps@[k]).0 as int) < old(
                    world,
                ).comps@.len(),
        ensures
            final(world).wf(),
            final(world).comps@.len() == old(world).comps@.len(),
            forall|c: int|
                0 <= c < old(world).comps@.len() ==> final(world).spec_comp_contents(c) == (
                match last_value_for(self.comps@, c as usize) {
                    Some(v) => old(world).spec_comp_contents(c).insert(self.token.id, v),
                    None => old(world).spec_comp_contents(c),
                }),
            forall|c: int|
                0 <= c < old(world).comps@.len() ==> (#[trigger] final(world).comps@[c]).name
                    == old(world).comps@[c].name && final(world).comps@[c].borrow == old(
                    world,
                ).comps@[c].borrow,
            *final(world) == (World { comps: final(world).comps, ..*old(world) }),
    {
        let ghost w0 = *world;
        let ghost pairs0 = self.comps@;
        let ncomps = world.comps.len();
        proof {
            assert(w0.comps@.len() == ncomps);
        }
        let id = self.token.id;
        let mut pending = self.comps;
        let ghost k: int = 0;
        while pending.len() > 0
            invariant
                0 <= k <= pairs0.len(),
                pending@ =~= pairs0.skip(k),
                world.wf(),
                w0.wf(),
                id < usize::MAX,
                forall|p: int|
                    0 <= p < pairs0.len() ==> ((#[trigger] pairs0[p]).0 as int)
                        < w0.comps@.len(),
                world.comps@.len() == w0.comps@.len(),
                w0.comps@.len() <= usize::MAX,
                forall|c: int|
                    0 <= c < w0.comps@.len() ==> world.spec_comp_contents(c) == (
                    match last_value_for(pairs0.take(k), c as usize) {
                        Some(v) => w0.spec_comp_contents(c).insert(id, v),
                        None => w0.spec_comp_contents(c),
                    }),
                forall|c: int|
                    0 <= c < w0.comps@.len() ==> (#[trigger] world.comps@[c]).name
                        == w0.comps@[c].name && world.comps@[c].borrow == w0.comps@[c].borrow,
                *world == (World { comps: world.comps, ..w0 }),
            decreases pending@.len(),
        {
            let (comp, value) = pending.remove(0);
            proof {
                assert(pairs0.skip(k)[0] == pairs0[k]);
                assert(pairs0[k].0 == comp);
                assert(pending@ =~= pairs0.skip(k + 1));
                assert(pairs0.take(k + 1).drop_last() =~= pairs0.take(k));
                assert(pairs0.take(k + 1).last() == pairs0[k]);
            }
            let ghost wpre = *world;
            world.insert_comp(comp, id, value);
            proof {
                assert forall|c: int| 0 <= c < w0.comps@.len() implies world.spec_comp_contents(c)
                    == (match last_value_for(pairs0.take(k + 1), c as usize) {
                    Some(v) => w0.spec_comp_contents(c).insert(id, v),
                    None => w0.spec_comp_contents(c),
                }) by {
                    if c == comp as int {
                        assert(c as usize == comp);
                        assert(last_value_for(pairs0.take(k + 1), comp) == Some(value));
                        assert(world.spec_comp_contents(c) == wpre.spec_comp_contents(c).insert(
                            id,
                            value,
                        ));
                        if last_value_for(pairs0.take(k), comp) is Some {
                            assert(wpre.spec_comp_contents(c) == w0.spec_comp_contents(c).insert(
                                id,
                                last_value_for(pairs0.take(k), comp)->0,
                            ));
                            assert(w0.spec_comp_contents(c).insert(
                                id,
                                last_value_for(pairs0.take(k), comp)->0,
                            ).insert(id, value) =~= w0.spec_comp_contents(c).insert(id, value));
                        } else {
                            assert(wpre.spec_comp_contents(c) == w0.spec_comp_contents(c));
                        }
                        assert(world.spec_comp_contents(c) == w0.spec_comp_contents(c).insert(
                            id,
                            value,
                        ));
                        assert((match last_value_for(pairs0.take(k + 1), c as usize) {
                            Some(v) => w0.spec_comp_contents(c).insert(id, v),
                            None => w0.spec_comp_contents(c),
                        }) == w0.spec_comp_contents(c).insert(id, value));
                    } else {
                        assert(last_value_for(pairs0.take(k + 1), c as usize) == last_value_for(
                            pairs0.take(k),
                            c as usize,
                        ));
                        assert(world.comps@[c] == wpre.comps@[c]);
                        assert(world.spec_comp_contents(c) == wpre.spec_comp_contents(c));
                        assert(wpre.spec_comp_contents(c) == (
                        match last_value_for(pairs0.take(k), c as usize) {
                            Some(v) => w0.spec_comp_contents(c).insert(id, v),
                            None => w0.spec_comp_contents(c),
                        }));
                    }
                }
                k = k + 1;
            }
        }
        proof {
            assert(k == pairs0.len());
            assert(pairs0.take(pairs0.len() as int) =~= pairs0);
        }
    }
}

impl<V, R, E> World<V, R, E> {
    /// Spawn a new entity and hand back a builder that collects its
    /// starting components; `finish` attaches them.
    pub fn build_entity(&mut self) -> (r: EntityBuilder<V>)
        requires
            old(self).wf(),
            old(self).entities.spec_slot_count() < usize::MAX,
        ensures
            final(self).wf(),
            final(self).entities.spec_token_live(r.token),
            !old(self).entities.spec_live(r.token.id as int),
            forall|tok: Token|
                final(self).entities.spec_token_live(tok) <==> (tok == r.token || old(
                    self,
                ).entities.spec_token_live(tok)),
            r.comps@.len() == 0,
            *final(self) == (World { entities: final(self).entities, ..*old(self) }),
    {
        let token = self.spawn();
        EntityBuilder { token, comps: Vec::new() }
    }
}

} // verus!
