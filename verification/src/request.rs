use vstd::prelude::*;

use crate::borrow::BorrowState;
use crate::query::{sim_acquire, sim_release, step_acquire, step_release, AccessMode, BorrowConflict, CompAccess};
use crate::world::World;

verus! {

/// One element of a request: a resource borrowed shared or exclusive, an
/// event stream read or written, or the command or trigger queue. Readers
/// take shared claims; every writer is exclusive.
#[derive(Clone, Copy, PartialEq, Eq, Structural, Debug)]
pub enum ReqAccess {
    Res(usize, AccessMode),
    EventRead(usize),
    EventWrite(usize),
    Commands,
    Triggers,
}

/// The marker for requesting the command queue's writer.
pub struct Commands;

impl Commands {
    /// The request element this marker stands for.
    pub fn access() -> (r: ReqAccess)
        ensures
            r == ReqAccess::Commands,
    {
        ReqAccess::Commands
    }
}

/// The marker for requesting the trigger queue's writer.
pub struct Triggers;

impl Triggers {
    /// The request element this marker stands for.
    pub fn access() -> (r: ReqAccess)
        ensures
            r == ReqAccess::Triggers,
    {
        ReqAccess::Triggers
    }
}

/// The arbiter's combined borrow row for non-component containers:
/// resources first, then event streams, then the command queue and the
/// trigger queue.
pub open spec fn req_borrows<V, R, E>(w: World<V, R, E>) -> Seq<BorrowState> {
    Seq::new(w.resources@.len(), |i: int| w.resources@[i].borrow) + Seq::new(
        w.events@.len(),
        |i: int| w.events@[i].borrow,
    ) + seq![w.commands_borrow, w.triggers_borrow]
}

/// Where one request element's claim lives in the combined row, and in
/// which mode it is taken. An element naming an unregistered resource or
/// event maps past the end of the row, where every claim fails.
pub open spec fn req_slot<V, R, E>(w: World<V, R, E>, a: ReqAccess) -> CompAccess {
    let nres = w.resources@.len();
    let nev = w.events@.len();
    match a {
        ReqAccess::Res(r, m) => if (r as int) < nres {
            CompAccess { comp: r, mode: m }
        } else {
            CompAccess { comp: usize::MAX, mode: m }
        },
        ReqAccess::EventRead(e) => if (e as int) < nev {
            CompAccess { comp: (nres + e) as usize, mode: AccessMode::Shared }
        } else {
            CompAccess { comp: usize::MAX, mode: AccessMode::Shared }
        },
        ReqAccess::EventWrite(e) => if (e as int) < nev {
            CompAccess { comp: (nres + e) as usize, mode: AccessMode::Exclusive }
        } else {
            CompAccess { comp: usize::MAX, mode: AccessMode::Exclusive }
        },
        ReqAccess::Commands => CompAccess {
            comp: (nres + nev) as usize,
            mode: AccessMode::Exclusive,
        },
        ReqAccess::Triggers => CompAccess {
            comp: (nres + nev + 1) as usize,
            mode: AccessMode::Exclusive,
        },
    }
}

/// Every element's slot, in declared order.
pub open spec fn req_slots<V, R, E>(w: World<V, R, E>, accs: Seq<ReqAccess>) -> Seq<CompAccess> {
    accs.map_values(|a: ReqAccess| req_slot(w, a))
}

/// The room the combined row needs, with both queue slots.
pub open spec fn req_fits<V, R, E>(w: World<V, R, E>) -> bool {
    w.resources@.len() + w.events@.len() + 2 < usize::MAX
}

/// A system's declared non-component needs: an ordered list of resource,
/// event and queue accesses, the generic form of a request tuple.
pub struct Request {
    pub accesses: Vec<ReqAccess>,
}

impl Request {
    /// An empty shape.
    pub fn new() -> (r: Self)
        ensures
            r.accesses@.len() == 0,
    {
        Request { accesses: Vec::new() }
    }

    /// Extend the shape with one element.
    pub fn with(self, a: ReqAccess) -> (r: Self)
        ensures
            r.accesses@ == self.accesses@.push(a),
    {
        let mut q = self;
        q.accesses.push(a);
        q
    }
}

/// Take or fail one claim at a combined-row slot. The row is wide enough
/// for every registered container; a slot past its end fails.
fn slot_acquire<V, R, E>(world: &mut World<V, R, E>, a: CompAccess) -> (ok: bool)
    requires
        old(world).wf(),
        req_fits(*old(world)),
    ensures
        final(world).wf(),
        req_fits(*final(world)),
        ok == (step_acquire(req_borrows(*old(world)), a) is Some),
        ok ==> req_borrows(*final(world)) == step_acquire(req_borrows(*old(world)), a)->0,
        !ok ==> req_borrows(*final(world)) == req_borrows(*old(world)),
        final(world).entities == old(world).entities,
        final(world).comps == old(world).comps,
        final(world).resources@.len() == old(world).resources@.len(),
        forall|i: int|
            0 <= i < old(world).resources@.len() ==> (#[trigger] final(world).resources@[i]).name
                == old(world).resources@[i].name && final(world).resources@[i].value == old(world).resources@[i].value,
        final(world).events@.len() == old(world).events@.len(),
        forall|i: int|
            0 <= i < old(world).events@.len() ==> (#[trigger] final(world).events@[i]).name == old(world).events@[i].name && final(world).events@[i].queue == old(world).events@[i].queue,
        final(world).commands == old(world).commands,
        final(world).triggers == old(world).triggers,
{
    let nres = world.resources.len();
    let nev = world.events.len();
    let ghost b0 = req_borrows(*old(world));
    if a.comp < nres {
        let entry = &mut world.resources[a.comp];
        let ok = match a.mode {
            AccessMode::Shared => entry.borrow.acquire_shared(),
            AccessMode::Exclusive => entry.borrow.acquire_exclusive(),
        };
        proof {
            assert(b0[a.comp as int] == old(world).resources@[a.comp as int].borrow);
            if ok {
                assert(req_borrows(*world) =~= step_acquire(b0, a)->0);
            } else {
                assert(req_borrows(*world) =~= b0);
            }
        }
        ok
    } else if a.comp < nres + nev {
        let entry = &mut world.events[a.comp - nres];
        let ok = match a.mode {
            AccessMode::Shared => entry.borrow.acquire_shared(),
            AccessMode::Exclusive => entry.borrow.acquire_exclusive(),
        };
        proof {
            assert(b0[a.comp as int] == old(world).events@[a.comp as int - nres as int].borrow);
            if ok {
                assert(req_borrows(*world) =~= step_acquire(b0, a)->0);
            } else {
                assert(req_borrows(*world) =~= b0);
            }
        }
        ok
    } else if a.comp == nres + nev {
        let ok = match a.mode {
            AccessMode::Shared => world.commands_borrow.acquire_shared(),
            AccessMode::Exclusive => world.commands_borrow.acquire_exclusive(),
        };
        proof {
            assert(b0[a.comp as int] == old(world).commands_borrow);
            if ok {
                assert(req_borrows(*world) =~= step_acquire(b0, a)->0);
            } else {
                assert(req_borrows(*world) =~= b0);
            }
        }
        ok
    } else if a.comp == nres + nev + 1 {
        let ok = match a.mode {
            AccessMode::Shared => world.triggers_borrow.acquire_shared(),
            AccessMode::Exclusive => world.triggers_borrow.acquire_exclusive(),
        };
        proof {
            assert(b0[a.comp as int] == old(world).triggers_borrow);
            if ok {
                assert(req_borrows(*world) =~= step_acquire(b0, a)->0);
            } else {
                assert(req_borrows(*world) =~= b0);
            }
        }
        ok
    } else {
        proof {
            assert((a.comp as int) >= b0.len());
        }
        false
    }
}

/// Hand back one claim at a combined-row slot.
fn slot_release<V, R, E>(world: &mut World<V, R, E>, a: CompAccess)
    requires
        old(world).wf(),
        req_fits(*old(world)),
        step_release(req_borrows(*old(world)), a) is Some,
    ensures
        final(world).wf(),
        req_fits(*final(world)),
        req_borrows(*final(world)) == step_release(req_borrows(*old(world)), a)->0,
        final(world).entities == old(world).entities,
        final(world).comps == old(world).comps,
        final(world).resources@.len() == old(world).resources@.len(),
        forall|i: int|
            0 <= i < old(world).resources@.len() ==> (#[trigger] final(world).resources@[i]).name
                == old(world).resources@[i].name && final(world).resources@[i].value == old(world).resources@[i].value,
        final(world).events@.len() == old(world).events@.len(),
        forall|i: int|
            0 <= i < old(world).events@.len() ==> (#[trigger] final(world).events@[i]).name == old(world).events@[i].name && final(world).events@[i].queue == old(world).events@[i].queue,
        final(world).commands == old(world).commands,
        final(world).triggers == old(world).triggers,
{
    let nres = world.resources.len();
    let nev = world.events.len();
    let ghost b0 = req_borrows(*old(world));
    if a.comp < nres {
        let entry = &mut world.resources[a.comp];
        proof {
            assert(b0[a.comp as int] == old(world).resources@[a.comp as int].borrow);
        }
        match a.mode {
            AccessMode::Shared => entry.borrow.release_shared(),
            AccessMode::Exclusive => entry.borrow.release_exclusive(),
        }
        proof {
            assert(req_borrows(*world) =~= step_release(b0, a)->0);
        }
    } else if a.comp < nres + nev {
        let entry = &mut world.events[a.comp - nres];
        proof {
            assert(b0[a.comp as int] == old(world).events@[a.comp as int - nres as int].borrow);
        }
        match a.mode {
            AccessMode::Shared => entry.borrow.release_shared(),
            AccessMode::Exclusive => entry.borrow.release_exclusive(),
        }
        proof {
            assert(req_borrows(*world) =~= step_release(b0, a)->0);
        }
    } else if a.comp == nres + nev {
        proof {
            assert(b0[a.comp as int] == old(world).commands_borrow);
        }
        match a.mode {
            AccessMode::Shared => world.commands_borrow.release_shared(),
            AccessMode::Exclusive => world.commands_borrow.release_exclusive(),
        }
        proof {
            assert(req_borrows(*world) =~= step_release(b0, a)->0);
        }
    } else {
        proof {
            assert((a.comp as int) < b0.len());
            assert(a.comp == nres + nev + 1);
            assert(b0[a.comp as int] == old(world).triggers_borrow);
        }
        match a.mode {
            AccessMode::Shared => world.triggers_borrow.release_shared(),
            AccessMode::Exclusive => world.triggers_borrow.release_exclusive(),
        }
        proof {
            assert(req_borrows(*world) =~= step_release(b0, a)->0);
        }
    }
}

/// The bundled handle a successful request fetch returns: it remembers
/// the combined-row claims and hands them all back on release.
pub struct RequestGuard {
    slots: Vec<CompAccess>,
}

impl RequestGuard {
    /// The combined-row claims this guard holds.
    pub closed spec fn view(&self) -> Seq<CompAccess> {
        self.slots@
    }

    /// Hand back every claim, last first.
    pub fn release<V, R, E>(self, world: &mut World<V, R, E>)
        requires
            old(world).wf(),
            req_fits(*old(world)),
            sim_release(req_borrows(*old(world)), self@) is Some,
        ensures
            final(world).wf(),
            req_fits(*final(world)),
            req_borrows(*final(world)) == sim_release(req_borrows(*old(world)), self@)->0,
            final(world).entities == old(world).entities,
            final(world).comps == old(world).comps,
            final(world).resources@.len() == old(world).resources@.len(),
            forall|i: int|
                0 <= i < old(world).resources@.len() ==> (#[trigger] final(world).resources@[i]).name == old(world).resources@[i].name && final(world).resources@[i].value == old(world).resources@[i].value,
            final(world).events@.len() == old(world).events@.len(),
            forall|i: int|
                0 <= i < old(world).events@.len() ==> (#[trigger] final(world).events@[i]).name
                    == old(world).events@[i].name && final(world).events@[i].queue == old(world).events@[i].queue,
            final(world).commands == old(world).commands,
            final(world).triggers == old(world).triggers,
    {
        let ghost b0 = req_borrows(*world);
        let ghost w0 = *world;
        let mut j: usize = self.slots.len();
        proof {
            assert(self@.take(j as int) =~= self@);
        }
        while j > 0
            invariant
                j <= self@.len(),
                world.wf(),
                req_fits(*world),
                w0.wf(),
                b0 == req_borrows(w0),
                sim_release(req_borrows(*world), self@.take(j as int)) == sim_release(b0, self@),
                sim_release(b0, self@) is Some,
                world.entities == w0.entities,
                world.comps == w0.comps,
                world.resources@.len() == w0.resources@.len(),
                forall|i: int|
                    0 <= i < w0.resources@.len() ==> (#[trigger] world.resources@[i]).name
                        == w0.resources@[i].name && world.resources@[i].value
                        == w0.resources@[i].value,
                world.events@.len() == w0.events@.len(),
                forall|i: int|
                    0 <= i < w0.events@.len() ==> (#[trigger] world.events@[i]).name
                        == w0.events@[i].name && world.events@[i].queue == w0.events@[i].queue,
                world.commands == w0.commands,
                world.triggers == w0.triggers,
            decreases j,
        {
            let a = self.slots[j - 1];
            proof {
                assert(self@.take(j as int).last() == self@[j as int - 1]);
                assert(self@.take(j as int).drop_last() =~= self@.take(j as int - 1));
                assert(step_release(req_borrows(*world), a) is Some);
            }
            slot_release(world, a);
            j = j - 1;
        }
        proof {
            assert(self@.take(0) =~= Seq::<CompAccess>::empty());
        }
    }
}

impl Request {
    /// Resolve the shape against the world: each element is checked in
    /// declared order against the combined row and the first conflicting
    /// element fails the whole fetch, leaving the world untouched. Only a
    /// conflict-free shape takes its claims.
    pub fn fetch<V, R, E>(&self, world: &mut World<V, R, E>) -> (r: Result<
        RequestGuard,
        BorrowConflict,
    >)
        requires
            old(world).wf(),
            req_fits(*old(world)),
        ensures
            final(world).wf(),
            req_fits(*final(world)),
            r is Ok <==> sim_acquire(
                req_borrows(*old(world)),
                req_slots(*old(world), self.accesses@),
            ) is Some,
            r is Err ==> *final(world) == *old(world),
            r is Ok ==> req_borrows(*final(world)) == sim_acquire(
                req_borrows(*old(world)),
                req_slots(*old(world), self.accesses@),
            )->0,
            r is Ok ==> r->Ok_0@ == req_slots(*old(world), self.accesses@),
            final(world).entities == old(world).entities,
            final(world).comps == old(world).comps,
            final(world).resources@.len() == old(world).resources@.len(),
            forall|i: int|
                0 <= i < old(world).resources@.len() ==> (#[trigger] final(world).resources@[i]).name == old(world).resources@[i].name && final(world).resources@[i].value == old(world).resources@[i].value,
            final(world).events@.len() == old(world).events@.len(),
            forall|i: int|
                0 <= i < old(world).events@.len() ==> (#[trigger] final(world).events@[i]).name
                    == old(world).events@[i].name && final(world).events@[i].queue == old(world).events@[i].queue,
            final(world).commands == old(world).commands,
            final(world).triggers == old(world).triggers,
    {
        let ghost w0 = *old(world);
        let ghost b0 = req_borrows(*world);
        let ghost slots_spec = req_slots(*old(world), self.accesses@);
        let nres = world.resources.len();
        let nev = world.events.len();
        // translate each element to its slot in the combined row
        let mut slots: Vec<CompAccess> = Vec::new();
        let mut i: usize = 0;
        while i < self.accesses.len()
            invariant
                *world == w0,
                i <= self.accesses@.len(),
                nres == world.resources@.len(),
                nev == world.events@.len(),
                req_fits(*world),
                slots@.len() == i,
                forall|p: int|
                    0 <= p < i ==> #[trigger] slots@[p] == req_slot(w0, self.accesses@[p]),
            decreases self.accesses@.len() - i,
        {
            let a = self.accesses[i];
            let slot = match a {
                ReqAccess::Res(r, m) => if r < nres {
                    CompAccess { comp: r, mode: m }
                } else {
                    CompAccess { comp: usize::MAX, mode: m }
                },
                ReqAccess::EventRead(e) => if e < nev {
                    CompAccess { comp: nres + e, mode: AccessMode::Shared }
                } else {
                    CompAccess { comp: usize::MAX, mode: AccessMode::Shared }
                },
                ReqAccess::EventWrite(e) => if e < nev {
                    CompAccess { comp: nres + e, mode: AccessMode::Exclusive }
                } else {
                    CompAccess { comp: usize::MAX, mode: AccessMode::Exclusive }
                },
                ReqAccess::Commands => CompAccess {
                    comp: nres + nev,
                    mode: AccessMode::Exclusive,
                },
                ReqAccess::Triggers => CompAccess {
                    comp: nres + nev + 1,
                    mode: AccessMode::Exclusive,
                },
            };
            slots.push(slot);
            i = i + 1;
        }
        proof {
            assert(slots@ =~= slots_spec);
        }
        // first pass: simulate on a scratch copy of the combined row
        let mut scratch: Vec<BorrowState> = Vec::new();
        let mut p: usize = 0;
        while p < nres
            invariant
                *world == w0,
                nres == world.resources@.len(),
                p <= nres,
                scratch@.len() == p,
                forall|q: int| 0 <= q < p ==> #[trigger] scratch@[q] == world.resources@[q].borrow,
            decreases nres - p,
        {
            scratch.push(world.resources[p].borrow);
            p = p + 1;
        }
        let mut p2: usize = 0;
        while p2 < nev
            invariant
                *world == w0,
                nres == world.resources@.len(),
                nev == world.events@.len(),
                p2 <= nev,
                scratch@.len() == nres + p2,
                forall|q: int| 0 <= q < nres ==> #[trigger] scratch@[q] == world.resources@[q].borrow,
                forall|q: int|
                    0 <= q < p2 ==> #[trigger] scratch@[nres + q] == world.events@[q].borrow,
            decreases nev - p2,
        {
            scratch.push(world.events[p2].borrow);
            p2 = p2 + 1;
        }
        scratch.push(world.commands_borrow);
        scratch.push(world.triggers_borrow);
        proof {
            assert(forall|q: int|
                0 <= q < nres ==> #[trigger] b0[q] == world.resources@[q].borrow);
            assert(forall|q: int|
                0 <= q < nev ==> #[trigger] b0[nres + q] == world.events@[q].borrow);
            assert(b0[nres as int + nev as int] == world.commands_borrow);
            assert(b0[nres as int + nev as int + 1] == world.triggers_borrow);
            assert(scratch@.len() == nres + nev + 2);
            assert(b0.len() == nres + nev + 2);
            assert forall|q: int| 0 <= q < scratch@.len() implies scratch@[q] == b0[q] by {
                if q < nres {
                    assert(scratch@[q] == world.resources@[q].borrow);
                } else if q < nres + nev {
                    assert(scratch@[nres + (q - nres)] == world.events@[q - nres].borrow);
                    assert(b0[nres + (q - nres)] == world.events@[q - nres].borrow);
                    assert(nres + (q - nres) == q);
                } else if q == nres + nev {
                    assert(scratch@[q] == world.commands_borrow);
                } else {
                    assert(scratch@[q] == world.triggers_borrow);
                }
            }
            assert(scratch@ =~= b0);
        }
        let mut k: usize = 0;
        while k < slots.len()
            invariant
                *world == w0,
                world.wf(),
                req_fits(*world),
                k <= slots@.len(),
                w0 == *old(world),
                slots_spec == req_slots(w0, self.accesses@),
                slots@ == slots_spec,
                b0 == req_borrows(*world),
                sim_acquire(b0, slots@.take(k as int)) is Some,
                scratch@ == sim_acquire(b0, slots@.take(k as int))->0,
            decreases slots@.len() - k,
        {
            proof {
                assert(slots@.take(k as int).push(slots@[k as int]) =~= slots@.take(k as int + 1));
                crate::query::lemma_sim_snoc_some(b0, slots@.take(k as int), slots@[k as int]);
            }
            let a = slots[k];
            let ghost bk = scratch@;
            let ok = if a.comp < scratch.len() {
                let mut st = scratch[a.comp];
                let ok = match a.mode {
                    AccessMode::Shared => st.acquire_shared(),
                    AccessMode::Exclusive => st.acquire_exclusive(),
                };
                if ok {
                    scratch.set(a.comp, st);
                }
                ok
            } else {
                false
            };
            if !ok {
                proof {
                    assert(step_acquire(bk, a) is None);
                    crate::query::lemma_sim_split(b0, slots@, k as int);
                    assert(slots@.skip(k as int)[0] == slots@[k as int]);
                    assert(sim_acquire(b0, slots@) is None);
                    assert(slots_spec == req_slots(*old(world), self.accesses@));
                    assert(b0 == req_borrows(*old(world)));
                    assert(sim_acquire(
                        req_borrows(*old(world)),
                        req_slots(*old(world), self.accesses@),
                    ) is None);
                }
                return Result::Err(BorrowConflict { index: k });
            }
            proof {
                assert(scratch@ =~= step_acquire(bk, a)->0);
            }
            k = k + 1;
        }
        proof {
            assert(slots@.take(slots@.len() as int) =~= slots@);
        }
        // second pass: take every claim for real
        let mut k2: usize = 0;
        while k2 < slots.len()
            invariant
                k2 <= slots@.len(),
                world.wf(),
                req_fits(*world),
                w0.wf(),
                req_fits(w0),
                b0 == req_borrows(w0),
                slots@ == slots_spec,
                sim_acquire(b0, slots@) is Some,
                sim_acquire(b0, slots@.take(k2 as int)) is Some,
                req_borrows(*world) == sim_acquire(b0, slots@.take(k2 as int))->0,
                world.entities == w0.entities,
                world.comps == w0.comps,
                world.resources@.len() == w0.resources@.len(),
                forall|i2: int|
                    0 <= i2 < w0.resources@.len() ==> (#[trigger] world.resources@[i2]).name
                        == w0.resources@[i2].name && world.resources@[i2].value
                        == w0.resources@[i2].value,
                world.events@.len() == w0.events@.len(),
                forall|i2: int|
                    0 <= i2 < w0.events@.len() ==> (#[trigger] world.events@[i2]).name
                        == w0.events@[i2].name && world.events@[i2].queue == w0.events@[i2].queue,
                world.commands == w0.commands,
                world.triggers == w0.triggers,
            decreases slots@.len() - k2,
        {
            let ghost bk = req_borrows(*world);
            proof {
                assert(slots@.take(k2 as int).push(slots@[k2 as int]) =~= slots@.take(
                    k2 as int + 1,
                ));
                crate::query::lemma_sim_snoc_some(b0, slots@.take(k2 as int), slots@[k2 as int]);
                crate::query::lemma_sim_split(b0, slots@, k2 as int + 1);
                assert(sim_acquire(b0, slots@.take(k2 as int + 1)) is Some);
                assert(step_acquire(bk, slots@[k2 as int]) is Some);
            }
            let a = slots[k2];
            let ok = slot_acquire(world, a);
            proof {
                assert(ok);
            }
            k2 = k2 + 1;
        }
        proof {
            assert(slots@.take(slots@.len() as int) =~= slots@);
        }
        Result::Ok(RequestGuard { slots })
    }
}

} // verus!
