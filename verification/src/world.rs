use vstd::prelude::*;

use crate::borrow::BorrowState;
use crate::entity::{Registry, Token};
use crate::storage::{Storage, StorageFlavor};

verus! {

/// A deferred entity-lifecycle operation, queued during a tick and applied
/// against the world later.
#[derive(Clone, Copy, PartialEq, Eq, Structural, Debug)]
pub enum CommandKind {
    Spawn,
    DespawnId(usize),
    DespawnToken(Token),
}

/// A registration mistake: a second component, resource or event type
/// under an id already in use. Fatal at bootstrap, before any tick runs.
pub enum WorldError {
    DuplicateComponent(String),
    DuplicateResource(String),
    DuplicateEvent(String),
}

/// One component type's slot in the world: its global string id, its
/// storage, and the arbiter's claim on that storage.
pub struct CompEntry<V> {
    pub name: String,
    pub store: Storage<V>,
    pub borrow: BorrowState,
}

/// One resource: a single process-wide instance of its type.
pub struct ResEntry<R> {
    pub name: String,
    pub value: R,
    pub borrow: BorrowState,
}

/// One event type: an append-only queue of values written so far.
pub struct EventEntry<E> {
    pub name: String,
    pub queue: Vec<E>,
    pub borrow: BorrowState,
}

/// The single point of truth: the entity registry and every typed
/// container, each guarded by its own borrow claim. `V`, `R` and `E` are
/// the application's component, resource and event value types;
/// individual component, resource and event types are rows registered
/// under unique string ids.
pub struct World<V, R, E> {
    pub entities: Registry,
    pub comps: Vec<CompEntry<V>>,
    pub resources: Vec<ResEntry<R>>,
    pub events: Vec<EventEntry<E>>,
    pub commands: Vec<CommandKind>,
    pub commands_borrow: BorrowState,
    pub triggers: Vec<String>,
    pub triggers_borrow: BorrowState,
}

impl<V, R, E> World<V, R, E> {
    /// A component type is registered under this id.
    pub open spec fn spec_has_comp(self, name: Seq<char>) -> bool {
        exists|i: int| 0 <= i < self.comps@.len() && (#[trigger] self.comps@[i].name@) == name
    }

    /// A resource type is registered under this id.
    pub open spec fn spec_has_res(self, name: Seq<char>) -> bool {
        exists|i: int| 0 <= i < self.resources@.len() && (#[trigger] self.resources@[i].name@)
            == name
    }

    /// An event type is registered under this id.
    pub open spec fn spec_has_event(self, name: Seq<char>) -> bool {
        exists|i: int| 0 <= i < self.events@.len() && (#[trigger] self.events@[i].name@) == name
    }

    /// What component storage `c` holds.
    pub open spec fn spec_comp_contents(self, c: int) -> Map<usize, V> {
        self.comps@[c].store.contents()
    }

    /// Well-formedness: a sound registry, and ids unique within each
    /// namespace.
    pub open spec fn wf(self) -> bool {
        &&& self.entities.wf()
        &&& forall|i: int, j: int|
            0 <= i < j < self.comps@.len() ==> (#[trigger] self.comps@[i].name@) != (
            #[trigger] self.comps@[j].name@)
        &&& forall|i: int, j: int|
            0 <= i < j < self.resources@.len() ==> (#[trigger] self.resources@[i].name@) != (
            #[trigger] self.resources@[j].name@)
        &&& forall|i: int, j: int|
            0 <= i < j < self.events@.len() ==> (#[trigger] self.events@[i].name@) != (
            #[trigger] self.events@[j].name@)
        &&& forall|i: int|
            0 <= i < self.comps@.len() ==> (#[trigger] self.comps@[i].borrow).wf_count()
        &&& forall|i: int|
            0 <= i < self.resources@.len() ==> (#[trigger] self.resources@[i].borrow).wf_count()
        &&& forall|i: int|
            0 <= i < self.events@.len() ==> (#[trigger] self.events@[i].borrow).wf_count()
        &&& self.commands_borrow.wf_count()
        &&& self.triggers_borrow.wf_count()
    }

    /// An empty world: no entities, no containers, every queue fresh.
    pub fn new() -> (r: Self)
        ensures
            r.wf(),
            r.entities.spec_slot_count() == 0,
            r.comps@.len() == 0,
            r.resources@.len() == 0,
            r.events@.len() == 0,
            r.commands@.len() == 0,
            r.triggers@.len() == 0,
            r.commands_borrow is Free,
            r.triggers_borrow is Free,
            forall|t: Token| !r.entities.spec_token_live(t),
    {
        World {
            entities: Registry::new(),
            comps: Vec::new(),
            resources: Vec::new(),
            events: Vec::new(),
            commands: Vec::new(),
            commands_borrow: BorrowState::Free,
            triggers: Vec::new(),
            triggers_borrow: BorrowState::Free,
        }
    }

    /// Register a component type under a unique id with its storage
    /// flavor; a duplicate id is refused and changes nothing. Bootstrap
    /// only.
    pub fn register_component(&mut self, name: String, flavor: StorageFlavor) -> (r: Result<
        usize,
        WorldError,
    >)
        requires
            old(self).wf(),
        ensures
            final(self).wf(),
            r is Ok <==> !old(self).spec_has_comp(name@),
            r is Err ==> *final(self) == *old(self) && r->Err_0 == WorldError::DuplicateComponent(
                name,
            ),
            r is Ok ==> r->Ok_0 == old(self).comps@.len() && final(self).comps@.len() == old(self).comps@.len() + 1 && final(self).comps@[old(self).comps@.len() as int].name == name
                && final(self).comps@[old(self).comps@.len() as int].store.contents() == Map::<
                usize,
                V,
            >::empty() && final(self).comps@[old(self).comps@.len() as int].store.spec_flavor()
                == flavor && final(self).comps@[old(self).comps@.len() as int].borrow is Free
                && forall|i: int|
                0 <= i < old(self).comps@.len() ==> final(self).comps@[i] == old(self).comps@[i],
            r is Ok ==> *final(self) == (World {
                comps: final(self).comps,
                ..*old(self)
            }),
    {
        if self.has_component(&name) {
            return Result::Err(WorldError::DuplicateComponent(name));
        }
        let id = self.comps.len();
        self.comps.push(CompEntry { name, store: Storage::new(flavor), borrow: BorrowState::Free });
        Result::Ok(id)
    }

    /// Register a resource under a unique id with its initial value; a
    /// duplicate id is refused and changes nothing. Bootstrap only.
    pub fn register_resource(&mut self, name: String, value: R) -> (r: Result<usize, WorldError>)
        requires
            old(self).wf(),
        ensures
            final(self).wf(),
            r is Ok <==> !old(self).spec_has_res(name@),
            r is Err ==> *final(self) == *old(self) && r->Err_0 == WorldError::DuplicateResource(
                name,
            ),
            r is Ok ==> r->Ok_0 == old(self).resources@.len() && final(self).resources@ == old(self).resources@.push(ResEntry { name, value, borrow: BorrowState::Free }),
            r is Ok ==> *final(self) == (World {
                resources: final(self).resources,
                ..*old(self)
            }),
    {
        if self.has_resource(&name) {
            return Result::Err(WorldError::DuplicateResource(name));
        }
        let id = self.resources.len();
        self.resources.push(ResEntry { name, value, borrow: BorrowState::Free });
        Result::Ok(id)
    }

    /// Register an event type under a unique id with an empty queue; a
    /// duplicate id is refused and changes nothing. Bootstrap only.
    pub fn register_event(&mut self, name: String) -> (r: Result<usize, WorldError>)
        requires
            old(self).wf(),
        ensures
            final(self).wf(),
            r is Ok <==> !old(self).spec_has_event(name@),
            r is Err ==> *final(self) == *old(self) && r->Err_0 == WorldError::DuplicateEvent(
                name,
            ),
            r is Ok ==> r->Ok_0 == old(self).events@.len() && final(self).events@.len() == old(self).events@.len() + 1 && final(self).events@[old(self).events@.len() as int].name == name
                && final(self).events@[old(self).events@.len() as int].queue@ =~= Seq::<
                E,
            >::empty() && final(self).events@[old(self).events@.len() as int].borrow is Free
                && forall|i: int|
                0 <= i < old(self).events@.len() ==> final(self).events@[i] == old(self).events@[i],
            r is Ok ==> *final(self) == (World {
                events: final(self).events,
                ..*old(self)
            }),
    {
        if self.has_event(&name) {
            return Result::Err(WorldError::DuplicateEvent(name));
        }
        let id = self.events.len();
        self.events.push(EventEntry { name, queue: Vec::new(), borrow: BorrowState::Free });
        Result::Ok(id)
    }

    /// Whether a component type is registered under this id.
    pub fn has_component(&self, name: &String) -> (b: bool)
        ensures
            b == self.spec_has_comp(name@),
    {
        let mut i: usize = 0;
        while i < self.comps.len()
            invariant
                i <= self.comps@.len(),
                forall|p: int| 0 <= p < i ==> (#[trigger] self.comps@[p].name@) != name@,
            decreases self.comps@.len() - i,
        {
            if self.comps[i].name == *name {
                return true;
            }
            i = i + 1;
        }
        false
    }

    /// Whether a resource is registered under this id.
    pub fn has_resource(&self, name: &String) -> (b: bool)
        ensures
            b == self.spec_has_res(name@),
    {
        let mut i: usize = 0;
        while i < self.resources.len()
            invariant
                i <= self.resources@.len(),
                forall|p: int| 0 <= p < i ==> (#[trigger] self.resources@[p].name@) != name@,
            decreases self.resources@.len() - i,
        {
            if self.resources[i].name == *name {
                return true;
            }
            i = i + 1;
        }
        false
    }

    /// Whether an event type is registered under this id.
    pub fn has_event(&self, name: &String) -> (b: bool)
        ensures
            b == self.spec_has_event(name@),
    {
        let mut i: usize = 0;
        while i < self.events.len()
            invariant
                i <= self.events@.len(),
                forall|p: int| 0 <= p < i ==> (#[trigger] self.events@[p].name@) != name@,
            decreases self.events@.len() - i,
        {
            if self.events[i].name == *name {
                return true;
            }
            i = i + 1;
        }
        false
    }

    /// Find the index a component type was registered under.
    pub fn find_component(&self, name: &String) -> (r: Option<usize>)
        ensures
            match r {
                Some(i) => (i as int) < self.comps@.len() && self.comps@[i as int].name@ == name@,
                None => !self.spec_has_comp(name@),
            },
    {
        let mut i: usize = 0;
        while i < self.comps.len()
            invariant
                i <= self.comps@.len(),
                forall|p: int| 0 <= p < i ==> (#[trigger] self.comps@[p].name@) != name@,
            decreases self.comps@.len() - i,
        {
            if self.comps[i].name == *name {
                return Some(i);
            }
            i = i + 1;
        }
        None
    }

    /// Find the index a resource was registered under.
    pub fn find_resource(&self, name: &String) -> (r: Option<usize>)
        ensures
            match r {
                Some(i) => (i as int) < self.resources@.len() && self.resources@[i as int].name@
                    == name@,
                None => !self.spec_has_res(name@),
            },
    {
        let mut i: usize = 0;
        while i < self.resources.len()
            invariant
                i <= self.resources@.len(),
                forall|p: int| 0 <= p < i ==> (#[trigger] self.resources@[p].name@) != name@,
            decreases self.resources@.len() - i,
        {
            if self.resources[i].name == *name {
                return Some(i);
            }
            i = i + 1;
        }
        None
    }

    /// Find the index an event type was registered under.
    pub fn find_event(&self, name: &String) -> (r: Option<usize>)
        ensures
            match r {
                Some(i) => (i as int) < self.events@.len() && self.events@[i as int].name@ == name@,
                None => !self.spec_has_event(name@),
            },
    {
        let mut i: usize = 0;
        while i < self.events.len()
            invariant
                i <= self.events@.len(),
                forall|p: int| 0 <= p < i ==> (#[trigger] self.events@[p].name@) != name@,
            decreases self.events@.len() - i,
        {
            if self.events[i].name == *name {
                return Some(i);
            }
            i = i + 1;
        }
        None
    }

    /// Allocate a new entity, reusing a freed id under a strictly larger
    /// generation where one is available. Only the registry changes.
    pub fn spawn(&mut self) -> (t: Token)
        requires
            old(self).wf(),
            old(self).entities.spec_slot_count() < usize::MAX,
        ensures
            final(self).wf(),
            final(self).entities.spec_token_live(t),
            !old(self).entities.spec_live(t.id as int),
            (t.id as int) < old(self).entities.spec_slot_count() ==> t.gen > old(self).entities.spec_gen(t.id as int),
            forall|tok: Token|
                final(self).entities.spec_token_live(tok) <==> (tok == t
                    || old(self).entities.spec_token_live(tok)),
            *final(self) == (World { entities: final(self).entities, ..*old(self) }),
    {
        self.entities.spawn()
    }

    /// Remove the entity in slot `id`, if any. Component data is not
    /// swept: storages keep whatever was stored under the id.
    pub fn despawn(&mut self, id: usize)
        requires
            old(self).wf(),
        ensures
            final(self).wf(),
            !final(self).entities.spec_live(id as int),
            forall|tok: Token|
                final(self).entities.spec_token_live(tok) <==> (old(self).entities.spec_token_live(tok) && tok.id != id),
            *final(self) == (World { entities: final(self).entities, ..*old(self) }),
    {
        self.entities.despawn(id);
    }

    /// Remove the entity `t` refers to only if `t` is still live; a stale
    /// token changes nothing and reports `false`.
    pub fn despawn_with_token(&mut self, t: Token) -> (b: bool)
        requires
            old(self).wf(),
        ensures
            final(self).wf(),
            b == old(self).entities.spec_token_live(t),
            b ==> forall|tok: Token|
                final(self).entities.spec_token_live(tok) <==> (old(self).entities.spec_token_live(tok) && tok.id != t.id),
            !b ==> *final(self) == *old(self),
            *final(self) == (World { entities: final(self).entities, ..*old(self) }),
    {
        self.entities.despawn_with_token(t)
    }

    /// Store a component value for an entity id, overwriting any previous
    /// one. No liveness check: that is the query layer's responsibility.
    pub fn insert_comp(&mut self, c: usize, id: usize, v: V)
        requires
            old(self).wf(),
            (c as int) < old(self).comps@.len(),
            id < usize::MAX,
        ensures
            final(self).wf(),
            final(self).comps@.len() == old(self).comps@.len(),
            final(self).spec_comp_contents(c as int) == old(self).spec_comp_contents(
                c as int,
            ).insert(id, v),
            final(self).comps@[c as int].name == old(self).comps@[c as int].name,
            final(self).comps@[c as int].borrow == old(self).comps@[c as int].borrow,
            final(self).comps@[c as int].store.spec_flavor() == old(self).comps@[c as int].store.spec_flavor(),
            forall|i: int|
                0 <= i < old(self).comps@.len() && i != c ==> final(self).comps@[i] == old(self).comps@[i],
            *final(self) == (World { comps: final(self).comps, ..*old(self) }),
    {
        let entry = &mut self.comps[c];
        entry.store.insert(id, v);
    }

    /// Look up the component value stored for an entity id, if any.
    pub fn comp_get(&self, c: usize, id: usize) -> (r: Option<&V>)
        requires
            (c as int) < self.comps@.len(),
        ensures
            match r {
                Some(v) => self.spec_comp_contents(c as int).contains_key(id) && *v
                    == self.spec_comp_contents(c as int)[id],
                None => !self.spec_comp_contents(c as int).contains_key(id),
            },
    {
        self.comps[c].store.get(id)
    }

    /// Remove and return the component value stored for an entity id, if
    /// any.
    pub fn remove_comp(&mut self, c: usize, id: usize) -> (r: Option<V>)
        requires
            old(self).wf(),
            (c as int) < old(self).comps@.len(),
        ensures
            final(self).wf(),
            final(self).comps@.len() == old(self).comps@.len(),
            final(self).spec_comp_contents(c as int) == old(self).spec_comp_contents(
                c as int,
            ).remove(id),
            match r {
                Some(v) => old(self).spec_comp_contents(c as int).contains_key(id) && v == old(self).spec_comp_contents(c as int)[id],
                None => !old(self).spec_comp_contents(c as int).contains_key(id),
            },
            final(self).comps@[c as int].name == old(self).comps@[c as int].name,
            final(self).comps@[c as int].borrow == old(self).comps@[c as int].borrow,
            forall|i: int|
                0 <= i < old(self).comps@.len() && i != c ==> final(self).comps@[i] == old(self).comps@[i],
            *final(self) == (World { comps: final(self).comps, ..*old(self) }),
    {
        let entry = &mut self.comps[c];
        entry.store.remove(id)
    }

    /// Read the single instance of resource `r`.
    pub fn res_get(&self, r: usize) -> (v: &R)
        requires
            (r as int) < self.resources@.len(),
        ensures
            *v == self.resources@[r as int].value,
    {
        &self.resources[r].value
    }

    /// Replace the single instance of resource `r`.
    pub fn res_set(&mut self, r: usize, value: R)
        requires
            old(self).wf(),
            (r as int) < old(self).resources@.len(),
        ensures
            final(self).wf(),
            final(self).resources@ == old(self).resources@.update(
                r as int,
                ResEntry {
                    name: old(self).resources@[r as int].name,
                    value,
                    borrow: old(self).resources@[r as int].borrow,
                },
            ),
            *final(self) == (World { resources: final(self).resources, ..*old(self) }),
    {
        let entry = &mut self.resources[r];
        entry.value = value;
        proof {
            assert(final(self).resources@ =~= old(self).resources@.update(
                r as int,
                ResEntry {
                    name: old(self).resources@[r as int].name,
                    value,
                    borrow: old(self).resources@[r as int].borrow,
                },
            ));
        }
    }

    /// Append a value to event queue `ev`: producers only ever append.
    pub fn send_event(&mut self, ev: usize, value: E)
        requires
            old(self).wf(),
            (ev as int) < old(self).events@.len(),
        ensures
            final(self).wf(),
            final(self).events@.len() == old(self).events@.len(),
            final(self).events@[ev as int].queue@ == old(self).events@[ev as int].queue@.push(
                value,
            ),
            final(self).events@[ev as int].name == old(self).events@[ev as int].name,
            final(self).events@[ev as int].borrow == old(self).events@[ev as int].borrow,
            forall|i: int|
                0 <= i < old(self).events@.len() && i != ev ==> final(self).events@[i] == old(self).events@[i],
            *final(self) == (World { events: final(self).events, ..*old(self) }),
    {
        let entry = &mut self.events[ev];
        entry.queue.push(value);
    }

    /// Read everything written to event queue `ev` so far.
    pub fn read_events(&self, ev: usize) -> (q: &Vec<E>)
        requires
            (ev as int) < self.events@.len(),
        ensures
            q@ == self.events@[ev as int].queue@,
    {
        &self.events[ev].queue
    }

    /// Take a shared claim on component `c`'s storage: fails exactly when
    /// a writer holds it. The claim must be handed back with `release`.
    pub fn fetch(&mut self, c: usize) -> (ok: bool)
        requires
            old(self).wf(),
            (c as int) < old(self).comps@.len(),
        ensures
            final(self).wf(),
            ok == old(self).comps@[c as int].borrow.spec_can_read(),
            ok ==> final(self).comps@ == old(self).comps@.update(
                c as int,
                CompEntry {
                    name: old(self).comps@[c as int].name,
                    store: old(self).comps@[c as int].store,
                    borrow: old(self).comps@[c as int].borrow.spec_after_shared(),
                },
            ),
            !ok ==> final(self).comps@ == old(self).comps@,
            *final(self) == (World { comps: final(self).comps, ..*old(self) }),
    {
        let entry = &mut self.comps[c];
        let ok = entry.borrow.acquire_shared();
        proof {
            if ok {
                assert(final(self).comps@ =~= old(self).comps@.update(
                    c as int,
                    CompEntry {
                        name: old(self).comps@[c as int].name,
                        store: old(self).comps@[c as int].store,
                        borrow: old(self).comps@[c as int].borrow.spec_after_shared(),
                    },
                ));
            } else {
                assert(final(self).comps@ =~= old(self).comps@);
            }
        }
        ok
    }

    /// Take the exclusive claim on component `c`'s storage: fails exactly
    /// when any claim, shared or exclusive, is outstanding.
    pub fn fetch_mut(&mut self, c: usize) -> (ok: bool)
        requires
            old(self).wf(),
            (c as int) < old(self).comps@.len(),
        ensures
            final(self).wf(),
            ok == old(self).comps@[c as int].borrow.spec_can_write(),
            ok ==> final(self).comps@ == old(self).comps@.update(
                c as int,
                CompEntry {
                    name: old(self).comps@[c as int].name,
                    store: old(self).comps@[c as int].store,
                    borrow: BorrowState::Exclusive,
                },
            ),
            !ok ==> final(self).comps@ == old(self).comps@,
            *final(self) == (World { comps: final(self).comps, ..*old(self) }),
    {
        let entry = &mut self.comps[c];
        let ok = entry.borrow.acquire_exclusive();
        proof {
            if ok {
                assert(final(self).comps@ =~= old(self).comps@.update(
                    c as int,
                    CompEntry {
                        name: old(self).comps@[c as int].name,
                        store: old(self).comps@[c as int].store,
                        borrow: BorrowState::Exclusive,
                    },
                ));
            } else {
                assert(final(self).comps@ =~= old(self).comps@);
            }
        }
        ok
    }

    /// Hand back one claim, shared or exclusive, on component `c`'s
    /// storage.
    pub fn release(&mut self, c: usize)
        requires
            old(self).wf(),
            (c as int) < old(self).comps@.len(),
            !(old(self).comps@[c as int].borrow is Free),
        ensures
            final(self).wf(),
            final(self).comps@ == old(self).comps@.update(
                c as int,
                CompEntry {
                    name: old(self).comps@[c as int].name,
                    store: old(self).comps@[c as int].store,
                    borrow: (if old(self).comps@[c as int].borrow is Exclusive {
                        BorrowState::Free
                    } else {
                        old(self).comps@[c as int].borrow.spec_after_release_shared()
                    }),
                },
            ),
            *final(self) == (World { comps: final(self).comps, ..*old(self) }),
    {
        let entry = &mut self.comps[c];
        match entry.borrow {
            BorrowState::Exclusive => entry.borrow.release_exclusive(),
            BorrowState::Shared(_) => entry.borrow.release_shared(),
            BorrowState::Free => {},
        }
        proof {
            assert(final(self).comps@ =~= old(self).comps@.update(
                c as int,
                CompEntry {
                    name: old(self).comps@[c as int].name,
                    store: old(self).comps@[c as int].store,
                    borrow: (if old(self).comps@[c as int].borrow is Exclusive {
                        BorrowState::Free
                    } else {
                        old(self).comps@[c as int].borrow.spec_after_release_shared()
                    }),
                },
            ));
        }
    }

    /// Take a shared claim on resource `r`.
    pub fn fetch_res(&mut self, r: usize) -> (ok: bool)
        requires
            old(self).wf(),
            (r as int) < old(self).resources@.len(),
        ensures
            final(self).wf(),
            ok == old(self).resources@[r as int].borrow.spec_can_read(),
            ok ==> final(self).resources@ == old(self).resources@.update(
                r as int,
                ResEntry {
                    name: old(self).resources@[r as int].name,
                    value: old(self).resources@[r as int].value,
                    borrow: old(self).resources@[r as int].borrow.spec_after_shared(),
                },
            ),
            !ok ==> final(self).resources@ == old(self).resources@,
            *final(self) == (World { resources: final(self).resources, ..*old(self) }),
    {
        let entry = &mut self.resources[r];
        let ok = entry.borrow.acquire_shared();
        proof {
            if ok {
                assert(final(self).resources@ =~= old(self).resources@.update(
                    r as int,
                    ResEntry {
                        name: old(self).resources@[r as int].name,
                        value: old(self).resources@[r as int].value,
                        borrow: old(self).resources@[r as int].borrow.spec_after_shared(),
                    },
                ));
            } else {
                assert(final(self).resources@ =~= old(self).resources@);
            }
        }
        ok
    }

    /// Take the exclusive claim on resource `r`.
    pub fn fetch_res_mut(&mut self, r: usize) -> (ok: bool)
        requires
            old(self).wf(),
            (r as int) < old(self).resources@.len(),
        ensures
            final(self).wf(),
            ok == old(self).resources@[r as int].borrow.spec_can_write(),
            ok ==> final(self).resources@ == old(self).resources@.update(
                r as int,
                ResEntry {
                    name: old(self).resources@[r as int].name,
                    value: old(self).resources@[r as int].value,
                    borrow: BorrowState::Exclusive,
                },
            ),
            !ok ==> final(self).resources@ == old(self).resources@,
            *final(self) == (World { resources: final(self).resources, ..*old(self) }),
    {
        let entry = &mut self.resources[r];
        let ok = entry.borrow.acquire_exclusive();
        proof {
            if ok {
                assert(final(self).resources@ =~= old(self).resources@.update(
                    r as int,
                    ResEntry {
                        name: old(self).resources@[r as int].name,
                        value: old(self).resources@[r as int].value,
                        borrow: BorrowState::Exclusive,
                    },
                ));
            } else {
                assert(final(self).resources@ =~= old(self).resources@);
            }
        }
        ok
    }

    /// Hand back one claim on resource `r`.
    pub fn release_res(&mut self, r: usize)
        requires
            old(self).wf(),
            (r as int) < old(self).resources@.len(),
            !(old(self).resources@[r as int].borrow is Free),
        ensures
            final(self).wf(),
            final(self).resources@ == old(self).resources@.update(
                r as int,
                ResEntry {
                    name: old(self).resources@[r as int].name,
                    value: old(self).resources@[r as int].value,
                    borrow: (if old(self).resources@[r as int].borrow is Exclusive {
                        BorrowState::Free
                    } else {
                        old(self).resources@[r as int].borrow.spec_after_release_shared()
                    }),
                },
            ),
            *final(self) == (World { resources: final(self).resources, ..*old(self) }),
    {
        let entry = &mut self.resources[r];
        match entry.borrow {
            BorrowState::Exclusive => entry.borrow.release_exclusive(),
            BorrowState::Shared(_) => entry.borrow.release_shared(),
            BorrowState::Free => {},
        }
        proof {
            assert(final(self).resources@ =~= old(self).resources@.update(
                r as int,
                ResEntry {
                    name: old(self).resources@[r as int].name,
                    value: old(self).resources@[r as int].value,
                    borrow: (if old(self).resources@[r as int].borrow is Exclusive {
                        BorrowState::Free
                    } else {
                        old(self).resources@[r as int].borrow.spec_after_release_shared()
                    }),
                },
            ));
        }
    }

    /// Take a reader's shared claim on event stream `ev`.
    pub fn get_event_reader(&mut self, ev: usize) -> (ok: bool)
        requires
            old(self).wf(),
            (ev as int) < old(self).events@.len(),
        ensures
            final(self).wf(),
            ok == old(self).events@[ev as int].borrow.spec_can_read(),
            ok ==> final(self).events@ == old(self).events@.update(
                ev as int,
                EventEntry {
                    name: old(self).events@[ev as int].name,
                    queue: old(self).events@[ev as int].queue,
                    borrow: old(self).events@[ev as int].borrow.spec_after_shared(),
                },
            ),
            !ok ==> final(self).events@ == old(self).events@,
            *final(self) == (World { events: final(self).events, ..*old(self) }),
    {
        let entry = &mut self.events[ev];
        let ok = entry.borrow.acquire_shared();
        proof {
            if ok {
                assert(final(self).events@ =~= old(self).events@.update(
                    ev as int,
                    EventEntry {
                        name: old(self).events@[ev as int].name,
                        queue: old(self).events@[ev as int].queue,
                        borrow: old(self).events@[ev as int].borrow.spec_after_shared(),
                    },
                ));
            } else {
                assert(final(self).events@ =~= old(self).events@);
            }
        }
        ok
    }

    /// Take the writer's exclusive claim on event stream `ev`.
    pub fn get_event_writer(&mut self, ev: usize) -> (ok: bool)
        requires
            old(self).wf(),
            (ev as int) < old(self).events@.len(),
        ensures
            final(self).wf(),
            ok == old(self).events@[ev as int].borrow.spec_can_write(),
            ok ==> final(self).events@ == old(self).events@.update(
                ev as int,
                EventEntry {
                    name: old(self).events@[ev as int].name,
                    queue: old(self).events@[ev as int].queue,
                    borrow: BorrowState::Exclusive,
                },
            ),
            !ok ==> final(self).events@ == old(self).events@,
            *final(self) == (World { events: final(self).events, ..*old(self) }),
    {
        let entry = &mut self.events[ev];
        let ok = entry.borrow.acquire_exclusive();
        proof {
            if ok {
                assert(final(self).events@ =~= old(self).events@.update(
                    ev as int,
                    EventEntry {
                        name: old(self).events@[ev as int].name,
                        queue: old(self).events@[ev as int].queue,
                        borrow: BorrowState::Exclusive,
                    },
                ));
            } else {
                assert(final(self).events@ =~= old(self).events@);
            }
        }
        ok
    }

    /// Hand back one claim on event stream `ev`.
    pub fn release_event(&mut self, ev: usize)
        requires
            old(self).wf(),
            (ev as int) < old(self).events@.len(),
            !(old(self).events@[ev as int].borrow is Free),
        ensures
            final(self).wf(),
            final(self).events@ == old(self).events@.update(
                ev as int,
                EventEntry {
                    name: old(self).events@[ev as int].name,
                    queue: old(self).events@[ev as int].queue,
                    borrow: (if old(self).events@[ev as int].borrow is Exclusive {
                        BorrowState::Free
                    } else {
                        old(self).events@[ev as int].borrow.spec_after_release_shared()
                    }),
                },
            ),
            *final(self) == (World { events: final(self).events, ..*old(self) }),
    {
        let entry = &mut self.events[ev];
        match entry.borrow {
            BorrowState::Exclusive => entry.borrow.release_exclusive(),
            BorrowState::Shared(_) => entry.borrow.release_shared(),
            BorrowState::Free => {},
        }
        proof {
            assert(final(self).events@ =~= old(self).events@.update(
                ev as int,
                EventEntry {
                    name: old(self).events@[ev as int].name,
                    queue: old(self).events@[ev as int].queue,
                    borrow: (if old(self).events@[ev as int].borrow is Exclusive {
                        BorrowState::Free
                    } else {
                        old(self).events@[ev as int].borrow.spec_after_release_shared()
                    }),
                },
            ));
        }
    }

    /// Take the exclusive claim on the command queue.
    pub fn get_command_writer(&mut self) -> (ok: bool)
        requires
            old(self).wf(),
        ensures
            final(self).wf(),
            ok == old(self).commands_borrow.spec_can_write(),
            ok ==> final(self).commands_borrow is Exclusive,
            !ok ==> *final(self) == *old(self),
            *final(self) == (World { commands_borrow: final(self).commands_borrow, ..*old(self) }),
    {
        self.commands_borrow.acquire_exclusive()
    }

    /// Hand back the command queue's claim.
    pub fn release_command_writer(&mut self)
        requires
            old(self).wf(),
            old(self).commands_borrow is Exclusive,
        ensures
            final(self).wf(),
            final(self).commands_borrow is Free,
            *final(self) == (World { commands_borrow: final(self).commands_borrow, ..*old(self) }),
    {
        self.commands_borrow.release_exclusive();
    }

    /// Take the exclusive claim on the trigger queue.
    pub fn get_trigger_writer(&mut self) -> (ok: bool)
        requires
            old(self).wf(),
        ensures
            final(self).wf(),
            ok == old(self).triggers_borrow.spec_can_write(),
            ok ==> final(self).triggers_borrow is Exclusive,
            !ok ==> *final(self) == *old(self),
            *final(self) == (World { triggers_borrow: final(self).triggers_borrow, ..*old(self) }),
    {
        self.triggers_borrow.acquire_exclusive()
    }

    /// Hand back the trigger queue's claim.
    pub fn release_trigger_writer(&mut self)
        requires
            old(self).wf(),
            old(self).triggers_borrow is Exclusive,
        ensures
            final(self).wf(),
            final(self).triggers_borrow is Free,
            *final(self) == (World { triggers_borrow: final(self).triggers_borrow, ..*old(self) }),
    {
        self.triggers_borrow.release_exclusive();
    }

    /// Queue a deferred command.
    pub fn push_command(&mut self, cmd: CommandKind)
        requires
            old(self).wf(),
        ensures
            final(self).wf(),
            final(self).commands@ == old(self).commands@.push(cmd),
            *final(self) == (World { commands: final(self).commands, ..*old(self) }),
    {
        self.commands.push(cmd);
    }

    /// Take every queued command, leaving the queue empty.
    pub fn take_commands(&mut self) -> (r: Vec<CommandKind>)
        requires
            old(self).wf(),
        ensures
            final(self).wf(),
            r@ == old(self).commands@,
            final(self).commands@ =~= Seq::<CommandKind>::empty(),
            *final(self) == (World { commands: final(self).commands, ..*old(self) }),
    {
        let mut out: Vec<CommandKind> = Vec::new();
        core::mem::swap(&mut out, &mut self.commands);
        out
    }

    /// Queue a trigger tag for cross-system signaling.
    pub fn push_trigger(&mut self, tag: String)
        requires
            old(self).wf(),
        ensures
            final(self).wf(),
            final(self).triggers@ == old(self).triggers@.push(tag),
            *final(self) == (World { triggers: final(self).triggers, ..*old(self) }),
    {
        self.triggers.push(tag);
    }

    /// Take every queued trigger tag, leaving the queue empty.
    pub fn take_triggers(&mut self) -> (r: Vec<String>)
        requires
            old(self).wf(),
        ensures
            final(self).wf(),
            r@ == old(self).triggers@,
            final(self).triggers@ =~= Seq::<String>::empty(),
            *final(self) == (World { triggers: final(self).triggers, ..*old(self) }),
    {
        let mut out: Vec<String> = Vec::new();
        core::mem::swap(&mut out, &mut self.triggers);
        out
    }
}

} // verus!
