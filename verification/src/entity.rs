use vstd::prelude::*;

verus! {

/// An entity handle: the numeric id of a registry slot together with the
/// generation that slot had when the entity was spawned. A token whose
/// generation no longer matches the slot's is stale and never resolves
/// to live data, even after the id has been reused.
#[derive(Clone, Copy, PartialEq, Eq, Structural, Debug)]
pub struct Token {
    pub id: usize,
    pub gen: u64,
}

impl Token {
    /// The numeric id of the entity slot this token refers to.
    pub fn id(&self) -> (r: usize)
        ensures
            r == self.id,
    {
        self.id
    }

    /// The generation the slot had when this token was issued.
    pub fn generation(&self) -> (r: u64)
        ensures
            r == self.gen,
    {
        self.gen
    }
}

#[derive(Clone, Copy)]
pub(crate) struct Slot {
    pub(crate) gen: u64,
    pub(crate) live: bool,
}

/// The entity registry: issues tokens on spawn, invalidates them on despawn,
/// and reuses freed ids under a strictly larger generation. A slot whose
/// generation has reached `u64::MAX` is retired rather than reused, so the
/// generation of a live slot never wraps around.
pub struct Registry {
    pub(crate) slots: Vec<Slot>,
    pub(crate) free: Vec<usize>,
}

impl Registry {
    /// One free-list entry is sound: in bounds, dead, and still reusable.
    pub(crate) open spec fn free_ok(self, id: usize) -> bool {
        &&& (id as int) < self.slots@.len()
        &&& !self.slots@[id as int].live
        &&& self.slots@[id as int].gen < u64::MAX
    }

    /// Registry well-formedness: every free-list entry points at a dead,
    /// reusable slot, and no id is listed twice.
    pub closed spec fn wf(self) -> bool {
        &&& forall|i: int|
            0 <= i < self.free@.len() ==> self.free_ok(#[trigger] self.free@[i])
        &&& forall|i: int, j: int|
            0 <= i < j < self.free@.len() ==> self.free@[i] != self.free@[j]
    }

    /// How many slots have ever been allocated (live or dead).
    pub closed spec fn spec_slot_count(self) -> nat {
        self.slots@.len()
    }

    /// Whether the slot `id` currently holds a live entity.
    pub closed spec fn spec_live(self, id: int) -> bool {
        0 <= id < self.slots@.len() && self.slots@[id].live
    }

    /// The current generation of slot `id`.
    pub closed spec fn spec_gen(self, id: int) -> u64 {
        self.slots@[id].gen
    }

    /// Whether `t` resolves to a live entity: its slot is live and still at
    /// the generation under which `t` was issued.
    pub open spec fn spec_token_live(self, t: Token) -> bool {
        self.spec_live(t.id as int) && self.spec_gen(t.id as int) == t.gen
    }

    /// An empty registry: no slots, nothing to reuse.
    pub fn new() -> (r: Registry)
        ensures
            r.wf(),
            r.spec_slot_count() == 0,
            forall|t: Token| !r.spec_token_live(t),
    {
        Registry { slots: Vec::new(), free: Vec::new() }
    }

    /// Allocate a new entity: reuse a freed slot's id under an incremented
    /// generation if one is available, otherwise append a fresh slot. The
    /// returned token is live, and it is the only token the call makes live.
    pub fn spawn(&mut self) -> (t: Token)
        requires
            old(self).wf(),
            old(self).spec_slot_count() < usize::MAX,
        ensures
            final(self).wf(),
            final(self).spec_token_live(t),
            t.gen == final(self).spec_gen(t.id as int),
            !old(self).spec_live(t.id as int),
            (t.id as int) < old(self).spec_slot_count()
                ==> t.gen > old(self).spec_gen(t.id as int),
            forall|tok: Token|
                final(self).spec_token_live(tok)
                    <==> (tok == t || old(self).spec_token_live(tok)),
            forall|id: int|
                id != t.id ==> final(self).spec_live(id) == old(self).spec_live(id),
            forall|id: int|
                0 <= id < old(self).spec_slot_count() && id != t.id
                    ==> final(self).spec_gen(id) == old(self).spec_gen(id),
            forall|id: int|
                0 <= id < old(self).spec_slot_count()
                    ==> final(self).spec_gen(id) >= old(self).spec_gen(id),
            old(self).spec_slot_count() <= final(self).spec_slot_count()
                <= old(self).spec_slot_count() + 1,
    {
        match self.free.pop() {
            Some(id) => {
                let g = self.slots[id].gen;
                let next = g + 1;
                self.slots.set(id, Slot { gen: next, live: true });
                proof {
                    assert(forall|i: int|
                        0 <= i < self.free@.len()
                            ==> old(self).free_ok(#[trigger] self.free@[i]));
                    assert forall|i: int| 0 <= i < self.free@.len()
                        implies self.free_ok(#[trigger] self.free@[i]) by {
                        assert(old(self).free@[i] == self.free@[i]);
                        assert(self.free@[i] != id);
                    }
                }
                Token { id, gen: next }
            },
            None => {
                let id = self.slots.len();
                self.slots.push(Slot { gen: 0, live: true });
                Token { id, gen: 0 }
            },
        }
    }

    /// Remove the entity in slot `id`, if any. The slot's generation is kept,
    /// so every token issued for the removed entity turns stale; the id goes
    /// back on the free list unless its generation is exhausted.
    pub fn despawn(&mut self, id: usize)
        requires
            old(self).wf(),
        ensures
            final(self).wf(),
            !final(self).spec_live(id as int),
            final(self).spec_slot_count() == old(self).spec_slot_count(),
            forall|i: int|
                0 <= i < old(self).spec_slot_count()
                    ==> final(self).spec_gen(i) == old(self).spec_gen(i),
            forall|i: int|
                i != id ==> final(self).spec_live(i) == old(self).spec_live(i),
            forall|tok: Token|
                final(self).spec_token_live(tok)
                    <==> (old(self).spec_token_live(tok) && tok.id != id),
    {
        if id < self.slots.len() {
            let slot = self.slots[id];
            if slot.live {
                self.slots.set(id, Slot { gen: slot.gen, live: false });
                if slot.gen < u64::MAX {
                    proof {
                        assert forall|i: int| 0 <= i < self.free@.len()
                            implies self.free@[i] != id by {
                            assert(old(self).free_ok(old(self).free@[i]));
                        }
                    }
                    self.free.push(id);
                }
            }
        }
    }

    /// Remove the entity `t` refers to, but only if `t` is still live: a
    /// stale token leaves the registry untouched and reports `false`.
    pub fn despawn_with_token(&mut self, t: Token) -> (b: bool)
        requires
            old(self).wf(),
        ensures
            final(self).wf(),
            b == old(self).spec_token_live(t),
            b ==> forall|tok: Token|
                final(self).spec_token_live(tok)
                    <==> (old(self).spec_token_live(tok) && tok.id != t.id),
            !b ==> *final(self) == *old(self),
            final(self).spec_slot_count() == old(self).spec_slot_count(),
            forall|i: int|
                0 <= i < old(self).spec_slot_count()
                    ==> final(self).spec_gen(i) == old(self).spec_gen(i),
    {
        if t.id < self.slots.len() {
            let slot = self.slots[t.id];
            if slot.live && slot.gen == t.gen {
                self.despawn(t.id);
                return true;
            }
        }
        false
    }

    /// Whether the slot `id` currently holds a live entity.
    pub fn contains(&self, id: usize) -> (b: bool)
        ensures
            b == self.spec_live(id as int),
    {
        id < self.slots.len() && self.slots[id].live
    }

    /// Whether `t` still resolves to the entity it was issued for.
    pub fn token_valid(&self, t: Token) -> (b: bool)
        ensures
            b == self.spec_token_live(t),
    {
        t.id < self.slots.len() && self.slots[t.id].live && self.slots[t.id].gen == t.gen
    }

    /// How many slots the registry has ever allocated.
    pub fn slot_count(&self) -> (n: usize)
        ensures
            n == self.spec_slot_count(),
    {
        self.slots.len()
    }
}

/// A token is live immediately after the spawn that issued it, stale
/// immediately after its entity is despawned, and stays stale through any
/// later spawn — even one that reuses the same numeric id.
pub proof fn lemma_token_lifecycle(r0: Registry, r1: Registry, t: Token, r2: Registry, r3: Registry, t2: Token)
    requires
        r0.wf(),
        r0.spec_slot_count() < usize::MAX,
        // r1 is r0 after a spawn returning t
        r1.spec_token_live(t),
        t.gen == r1.spec_gen(t.id as int),
        !r0.spec_live(t.id as int),
        forall|tok: Token| r1.spec_token_live(tok) <==> (tok == t || r0.spec_token_live(tok)),
        // r2 is r1 after despawning t's id
        forall|tok: Token|
            r2.spec_token_live(tok) <==> (r1.spec_token_live(tok) && tok.id != t.id),
        forall|i: int|
            0 <= i < r1.spec_slot_count() ==> r2.spec_gen(i) == r1.spec_gen(i),
        r2.spec_slot_count() == r1.spec_slot_count(),
        // r3 is r2 after a spawn returning t2
        forall|tok: Token| r3.spec_token_live(tok) <==> (tok == t2 || r2.spec_token_live(tok)),
        (t2.id as int) < r2.spec_slot_count() ==> t2.gen > r2.spec_gen(t2.id as int),
        !r2.spec_live(t2.id as int),
    ensures
        r1.spec_token_live(t),
        !r2.spec_token_live(t),
        !r3.spec_token_live(t),
{
    assert(!r2.spec_token_live(t));
    if t2 == t {
        // t2 reuses t's id, so its generation strictly exceeds the one t was
        // issued under: the two tokens cannot be equal.
        assert((t.id as int) < r1.spec_slot_count());
        assert(t2.gen > r2.spec_gen(t.id as int));
        assert(r2.spec_gen(t.id as int) == r1.spec_gen(t.id as int));
        assert(t.gen == r1.spec_gen(t.id as int));
        assert(false);
    }
}

} // verus!
