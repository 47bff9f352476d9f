use vstd::prelude::*;

use crate::borrow::BorrowState;
use crate::world::World;

verus! {

/// How one element of a declared data shape touches its container:
/// shared read access or exclusive write access.
#[derive(Clone, Copy, PartialEq, Eq, Structural, Debug)]
pub enum AccessMode {
    Shared,
    Exclusive,
}

/// One element of a query: which component index it touches and how.
#[derive(Clone, Copy, PartialEq, Eq, Structural, Debug)]
pub struct CompAccess {
    pub comp: usize,
    pub mode: AccessMode,
}

/// One acquisition step against a row of borrow states: `None` when the
/// element's claim would violate "many readers XOR one writer".
pub open spec fn step_acquire(borrows: Seq<BorrowState>, a: CompAccess) -> Option<
    Seq<BorrowState>,
> {
    if a.comp as int >= borrows.len() {
        None
    } else {
        let b = borrows[a.comp as int];
        match a.mode {
            AccessMode::Shared => if b.spec_can_read() {
                Some(borrows.update(a.comp as int, b.spec_after_shared()))
            } else {
                None
            },
            AccessMode::Exclusive => if b.spec_can_write() {
                Some(borrows.update(a.comp as int, BorrowState::Exclusive))
            } else {
                None
            },
        }
    }
}

/// Acquiring a whole access list, eagerly and in declared order: the
/// first conflicting element fails the whole fetch.
pub open spec fn sim_acquire(borrows: Seq<BorrowState>, accs: Seq<CompAccess>) -> Option<
    Seq<BorrowState>,
>
    decreases accs.len(),
{
    if accs.len() == 0 {
        Some(borrows)
    } else {
        match step_acquire(borrows, accs[0]) {
            Some(b2) => sim_acquire(b2, accs.skip(1)),
            None => None,
        }
    }
}

/// One release step: hand back the claim one element took.
pub open spec fn step_release(borrows: Seq<BorrowState>, a: CompAccess) -> Option<
    Seq<BorrowState>,
> {
    if a.comp as int >= borrows.len() {
        None
    } else {
        let b = borrows[a.comp as int];
        match a.mode {
            AccessMode::Shared => if b is Shared {
                Some(borrows.update(a.comp as int, b.spec_after_release_shared()))
            } else {
                None
            },
            AccessMode::Exclusive => if b is Exclusive {
                Some(borrows.update(a.comp as int, BorrowState::Free))
            } else {
                None
            },
        }
    }
}

/// Releasing a whole access list, last claim first.
pub open spec fn sim_release(borrows: Seq<BorrowState>, accs: Seq<CompAccess>) -> Option<
    Seq<BorrowState>,
>
    decreases accs.len(),
{
    if accs.len() == 0 {
        Some(borrows)
    } else {
        match step_release(borrows, accs.last()) {
            Some(b2) => sim_release(b2, accs.drop_last()),
            None => None,
        }
    }
}

/// Acquisition splits at any point: run the first `k` elements, then the
/// rest from where they left off.
pub proof fn lemma_sim_split(borrows: Seq<BorrowState>, accs: Seq<CompAccess>, k: int)
    requires
        0 <= k <= accs.len(),
    ensures
        sim_acquire(borrows, accs) == (match sim_acquire(borrows, accs.take(k)) {
            Some(bk) => sim_acquire(bk, accs.skip(k)),
            None => None,
        }),
    decreases k,
{
    if k == 0 {
        assert(accs.take(0).len() == 0);
        assert(accs.skip(0) =~= accs);
    } else {
        assert(accs.take(k)[0] == accs[0]);
        match step_acquire(borrows, accs[0]) {
            Some(b2) => {
                lemma_sim_split(b2, accs.skip(1), k - 1);
                assert(accs.take(k).skip(1) =~= accs.skip(1).take(k - 1));
                assert(accs.skip(k) =~= accs.skip(1).skip(k - 1));
            },
            None => {},
        }
    }
}

/// Acquisition keeps claim counts well-formed: a shared state never drops
/// to zero readers while claims are only being taken.
pub proof fn lemma_sim_preserves_wf_count(borrows: Seq<BorrowState>, accs: Seq<CompAccess>)
    requires
        forall|i: int| 0 <= i < borrows.len() ==> (#[trigger] borrows[i]).wf_count(),
        sim_acquire(borrows, accs) is Some,
    ensures
        sim_acquire(borrows, accs)->0.len() == borrows.len(),
        forall|i: int|
            0 <= i < borrows.len() ==> (#[trigger] sim_acquire(borrows, accs)->0[i]).wf_count(),
    decreases accs.len(),
{
    if accs.len() > 0 {
        let b2 = step_acquire(borrows, accs[0])->0;
        assert(forall|i: int| 0 <= i < b2.len() ==> (#[trigger] b2[i]).wf_count());
        lemma_sim_preserves_wf_count(b2, accs.skip(1));
    }
}

/// The world's component borrow states, in registration order.
pub open spec fn borrows_of<V, R, E>(w: World<V, R, E>) -> Seq<BorrowState> {
    Seq::new(w.comps@.len(), |i: int| w.comps@[i].borrow)
}

/// The error a fetch reports when an element's claim would break the
/// aliasing rule: the position of the offending element. A conflict
/// signals a bug in the system's declared data shape, not a condition to
/// retry.
#[derive(Clone, Copy, PartialEq, Eq, Structural, Debug)]
pub struct BorrowConflict {
    pub index: usize,
}

/// A system's declared component shape: an ordered list of accesses, the
/// generic form of a tuple of `&C` / `&mut C` elements. Composition is
/// purely positional and fetch order is the declared order.
pub struct Query {
    pub accesses: Vec<CompAccess>,
}

impl Query {
    /// An empty shape.
    pub fn new() -> (r: Self)
        ensures
            r.accesses@.len() == 0,
    {
        Query { accesses: Vec::new() }
    }

    /// Extend the shape with a shared element, as `&C` would.
    pub fn read(self, comp: usize) -> (r: Self)
        ensures
            r.accesses@ == self.accesses@.push(CompAccess { comp, mode: AccessMode::Shared }),
    {
        let mut q = self;
        q.accesses.push(CompAccess { comp, mode: AccessMode::Shared });
        q
    }

    /// Extend the shape with an exclusive element, as `&mut C` would.
    pub fn write(self, comp: usize) -> (r: Self)
        ensures
            r.accesses@ == self.accesses@.push(CompAccess { comp, mode: AccessMode::Exclusive }),
    {
        let mut q = self;
        q.accesses.push(CompAccess { comp, mode: AccessMode::Exclusive });
        q
    }

    /// Resolve the shape against the world: each element is checked in
    /// declared order and the first one whose claim would violate the XOR
    /// rule fails the whole fetch, reporting its position and leaving the
    /// world untouched. Only a conflict-free shape takes its claims, all
    /// together, to be released together.
    pub fn fetch<V, R, E>(&self, world: &mut World<V, R, E>) -> (r: Result<
        QueryGuard,
        BorrowConflict,
    >)
        requires
            old(world).wf(),
        ensures
            final(world).wf(),
            r is Ok <==> sim_acquire(borrows_of(*old(world)), self.accesses@) is Some,
            r is Err ==> *final(world) == *old(world),
            r is Err ==> ({
                let k = r->Err_0.index as int;
                &&& 0 <= k < self.accesses@.len()
                &&& sim_acquire(borrows_of(*old(world)), self.accesses@.take(k)) is Some
                &&& step_acquire(
                    sim_acquire(borrows_of(*old(world)), self.accesses@.take(k))->0,
                    self.accesses@[k],
                ) is None
            }),
            r is Ok ==> borrows_of(*final(world)) == sim_acquire(
                borrows_of(*old(world)),
                self.accesses@,
            )->0,
            r is Ok ==> r->Ok_0@ == self.accesses@,
            final(world).comps@.len() == old(world).comps@.len(),
            forall|i: int|
                0 <= i < old(world).comps@.len() ==> (#[trigger] final(world).comps@[i]).name
                    == old(world).comps@[i].name && final(world).comps@[i].store == old(world).comps@[i].store,
            final(world).entities == old(world).entities,
            final(world).resources == old(world).resources,
            final(world).events == old(world).events,
            final(world).commands == old(world).commands,
            final(world).commands_borrow == old(world).commands_borrow,
            final(world).triggers == old(world).triggers,
            final(world).triggers_borrow == old(world).triggers_borrow,
    {
        let ghost b0 = borrows_of(*world);
        // first pass: simulate every claim on a scratch copy of the borrow
        // row, so a conflict is found before anything is touched
        let mut scratch: Vec<BorrowState> = Vec::new();
        let mut i: usize = 0;
        while i < world.comps.len()
            invariant
                *world == *old(world),
                world.wf(),
                i <= world.comps@.len(),
                scratch@.len() == i,
                forall|p: int| 0 <= p < i ==> #[trigger] scratch@[p] == world.comps@[p].borrow,
            decreases world.comps@.len() - i,
        {
            scratch.push(world.comps[i].borrow);
            i = i + 1;
        }
        proof {
            assert(scratch@ =~= b0);
        }
        let mut k: usize = 0;
        while k < self.accesses.len()
            invariant
                *world == *old(world),
                world.wf(),
                k <= self.accesses@.len(),
                b0 == borrows_of(*world),
                sim_acquire(b0, self.accesses@.take(k as int)) is Some,
                scratch@ == sim_acquire(b0, self.accesses@.take(k as int))->0,
            decreases self.accesses@.len() - k,
        {
            proof {
                assert(self.accesses@.take(k as int).push(self.accesses@[k as int])
                    =~= self.accesses@.take(k as int + 1));
                lemma_sim_snoc_some(b0, self.accesses@.take(k as int), self.accesses@[k as int]);
            }
            let a = self.accesses[k];
            let ghost bk = scratch@;
            let ok = if a.comp < scratch.len() {
                let mut st = scratch[a.comp];
                let ok = match a.mode {
                    AccessMode::Shared => st.acquire_shared(),
                    AccessMode::Exclusive => st.acquire_exclusive(),
                };
                if ok {
                    scratch.set(a.comp, st);
                }
                ok
            } else {
                false
            };
            if !ok {
                proof {
                    assert(step_acquire(bk, a) is None);
                    lemma_sim_split(b0, self.accesses@, k as int);
                    assert(self.accesses@.skip(k as int)[0] == self.accesses@[k as int]);
                    assert(sim_acquire(b0, self.accesses@) is None);
                }
                return Result::Err(BorrowConflict { index: k });
            }
            proof {
                assert(scratch@ =~= step_acquire(bk, a)->0);
            }
            k = k + 1;
        }
        proof {
            assert(self.accesses@.take(self.accesses@.len() as int) =~= self.accesses@);
        }
        // second pass: the whole shape is conflict-free, so every claim is
        // taken for real; each step is the one the simulation already made
        let ghost w0 = *world;
        let mut recorded: Vec<CompAccess> = Vec::new();
        let mut k2: usize = 0;
        while k2 < self.accesses.len()
            invariant
                k2 <= self.accesses@.len(),
                world.wf(),
                w0.wf(),
                b0 == borrows_of(w0),
                sim_acquire(b0, self.accesses@) is Some,
                sim_acquire(b0, self.accesses@.take(k2 as int)) is Some,
                borrows_of(*world) == sim_acquire(b0, self.accesses@.take(k2 as int))->0,
                recorded@ =~= self.accesses@.take(k2 as int),
                world.comps@.len() == w0.comps@.len(),
                forall|i2: int|
                    0 <= i2 < w0.comps@.len() ==> (#[trigger] world.comps@[i2]).name
                        == w0.comps@[i2].name && world.comps@[i2].store == w0.comps@[i2].store,
                world.entities == w0.entities,
                world.resources == w0.resources,
                world.events == w0.events,
                world.commands == w0.commands,
                world.commands_borrow == w0.commands_borrow,
                world.triggers == w0.triggers,
                world.triggers_borrow == w0.triggers_borrow,
            decreases self.accesses@.len() - k2,
        {
            let ghost bk = borrows_of(*world);
            proof {
                assert(self.accesses@.take(k2 as int).push(self.accesses@[k2 as int])
                    =~= self.accesses@.take(k2 as int + 1));
                lemma_sim_snoc_some(b0, self.accesses@.take(k2 as int), self.accesses@[k2 as int]);
                lemma_sim_split(b0, self.accesses@, k2 as int + 1);
                assert(sim_acquire(b0, self.accesses@.take(k2 as int + 1)) is Some);
                assert(step_acquire(bk, self.accesses@[k2 as int]) is Some);
            }
            let a = self.accesses[k2];
            let entry = &mut world.comps[a.comp];
            let ok = match a.mode {
                AccessMode::Shared => entry.borrow.acquire_shared(),
                AccessMode::Exclusive => entry.borrow.acquire_exclusive(),
            };
            proof {
                assert(ok);
                assert(borrows_of(*world) =~= step_acquire(bk, a)->0);
            }
            recorded.push(a);
            k2 = k2 + 1;
        }
        proof {
            assert(self.accesses@.take(self.accesses@.len() as int) =~= self.accesses@);
            assert(recorded@ =~= self.accesses@);
        }
        Result::Ok(QueryGuard { accesses: recorded })
    }
}

/// Extending a successful acquisition by one element is one more step.
pub proof fn lemma_sim_snoc_some(borrows: Seq<BorrowState>, accs: Seq<CompAccess>, a: CompAccess)
    ensures
        sim_acquire(borrows, accs.push(a)) == (match sim_acquire(borrows, accs) {
            Some(bn) => step_acquire(bn, a),
            None => None,
        }),
    decreases accs.len(),
{
    if accs.len() == 0 {
        assert(accs.push(a)[0] == a);
        assert(accs.push(a).skip(1) =~= Seq::<CompAccess>::empty());
        match step_acquire(borrows, a) {
            Some(b2) => {
                assert(sim_acquire(b2, accs.push(a).skip(1)) == Some(b2));
            },
            None => {},
        }
    } else {
        assert(accs.push(a)[0] == accs[0]);
        match step_acquire(borrows, accs[0]) {
            Some(b2) => {
                lemma_sim_snoc_some(b2, accs.skip(1), a);
                assert(accs.push(a).skip(1) =~= accs.skip(1).push(a));
            },
            None => {},
        }
    }
}

/// The bundled handle a successful fetch returns: it remembers the claims
/// it holds, offers the per-entity accessors, and hands every claim back
/// on release.
pub struct QueryGuard {
    accesses: Vec<CompAccess>,
}

impl QueryGuard {
    /// The access list this guard holds claims for.
    pub closed spec fn view(&self) -> Seq<CompAccess> {
        self.accesses@
    }

    /// Every element's component index is a registered component.
    pub open spec fn wf_for<V, R, E>(&self, w: World<V, R, E>) -> bool {
        forall|k: int|
            0 <= k < self@.len() ==> ((#[trigger] self@[k]).comp as int) < w.comps@.len()
    }

    /// How many elements the shape has.
    pub fn len(&self) -> (n: usize)
        ensures
            n == self@.len(),
    {
        self.accesses.len()
    }

    /// The per-entity accessor: nothing unless the entity is live, and
    /// then each element is looked up independently — if any element's
    /// component is absent for that entity, the whole accessor returns
    /// nothing, even though others may be present.
    pub fn get<'a, V, R, E>(&self, world: &'a World<V, R, E>, id: usize) -> (r: Option<
        Vec<&'a V>,
    >)
        requires
            self.wf_for(*world),
        ensures
            r is Some <==> (world.entities.spec_live(id as int) && forall|k: int|
                0 <= k < self@.len() ==> world.spec_comp_contents(
                    (#[trigger] self@[k]).comp as int,
                ).contains_key(id)),
            r is Some ==> r->0@.len() == self@.len() && forall|k: int|
                0 <= k < self@.len() ==> *(#[trigger] r->0@[k]) == world.spec_comp_contents(
                    self@[k].comp as int,
                )[id],
    {
        if !world.entities.contains(id) {
            return None;
        }
        let mut out: Vec<&V> = Vec::new();
        let mut k: usize = 0;
        while k < self.accesses.len()
            invariant
                k <= self@.len(),
                self.wf_for(*world),
                out@.len() == k,
                forall|p: int|
                    0 <= p < k ==> world.spec_comp_contents(
                        (#[trigger] self@[p]).comp as int,
                    ).contains_key(id),
                forall|p: int|
                    0 <= p < k ==> *(#[trigger] out@[p]) == world.spec_comp_contents(
                        self@[p].comp as int,
                    )[id],
            decreases self@.len() - k,
        {
            match world.comp_get(self.accesses[k].comp, id) {
                Some(v) => {
                    out.push(v);
                },
                None => {
                    return None;
                },
            }
            k = k + 1;
        }
        Some(out)
    }

    /// The token-validating variant of `get`: the token must still
    /// resolve to its entity, so a stale token — even one whose id has
    /// been reused — yields nothing.
    pub fn get_token<'a, V, R, E>(&self, world: &'a World<V, R, E>, t: crate::entity::Token) -> (r:
        Option<Vec<&'a V>>)
        requires
            self.wf_for(*world),
        ensures
            r is Some <==> (world.entities.spec_token_live(t) && forall|k: int|
                0 <= k < self@.len() ==> world.spec_comp_contents(
                    (#[trigger] self@[k]).comp as int,
                ).contains_key(t.id)),
            r is Some ==> r->0@.len() == self@.len() && forall|k: int|
                0 <= k < self@.len() ==> *(#[trigger] r->0@[k]) == world.spec_comp_contents(
                    self@[k].comp as int,
                )[t.id],
    {
        if world.entities.token_valid(t) {
            self.get(world, t.id())
        } else {
            None
        }
    }

    /// The mutating counterpart of `get`, under the same all-or-nothing
    /// gate: if the entity is live and every element is present, the
    /// element at position `k` is overwritten with `v` and the write is
    /// reported; otherwise nothing changes.
    pub fn set<V, R, E>(&self, world: &mut World<V, R, E>, k: usize, id: usize, v: V) -> (wrote:
        bool)
        requires
            old(world).wf(),
            self.wf_for(*old(world)),
            (k as int) < self@.len(),
            self@[k as int].mode is Exclusive,
            id < usize::MAX,
        ensures
            final(world).wf(),
            wrote <==> (old(world).entities.spec_live(id as int) && forall|p: int|
                0 <= p < self@.len() ==> old(world).spec_comp_contents(
                    (#[trigger] self@[p]).comp as int,
                ).contains_key(id)),
            !wrote ==> *final(world) == *old(world),
            wrote ==> final(world).spec_comp_contents(self@[k as int].comp as int) == old(world).spec_comp_contents(self@[k as int].comp as int).insert(id, v),
            wrote ==> forall|i: int|
                0 <= i < old(world).comps@.len() && i != self@[k as int].comp ==> final(world).comps@[i] == old(world).comps@[i],
            wrote ==> final(world).comps@.len() == old(world).comps@.len() && final(world).comps@[self@[k as int].comp as int].name == old(world).comps@[self@[k as int].comp
                as int].name && final(world).comps@[self@[k as int].comp as int].borrow == old(world).comps@[self@[k as int].comp as int].borrow,
            *final(world) == (World { comps: final(world).comps, ..*old(world) }),
    {
        let present = match self.get(world, id) {
            Some(_) => true,
            None => false,
        };
        if !present {
            return false;
        }
        world.insert_comp(self.accesses[k].comp, id, v);
        true
    }

    /// Hand back every claim, last first: after the release the borrow
    /// states are exactly what `sim_release` says, and the round-trip law
    /// says that undoes the fetch completely.
    pub fn release<V, R, E>(self, world: &mut World<V, R, E>)
        requires
            old(world).wf(),
            sim_release(borrows_of(*old(world)), self@) is Some,
        ensures
            final(world).wf(),
            borrows_of(*final(world)) == sim_release(borrows_of(*old(world)), self@)->0,
            final(world).comps@.len() == old(world).comps@.len(),
            forall|i: int|
                0 <= i < old(world).comps@.len() ==> (#[trigger] final(world).comps@[i]).name
                    == old(world).comps@[i].name && final(world).comps@[i].store == old(world).comps@[i].store,
            *final(world) == (World {
                comps: final(world).comps,
                ..*old(world)
            }),
    {
        let ghost w0 = *world;
        let ghost b0 = borrows_of(*world);
        let mut j: usize = self.accesses.len();
        proof {
            assert(self@.take(j as int) =~= self@);
        }
        while j > 0
            invariant
                j <= self@.len(),
                world.wf(),
                w0.wf(),
                b0 == borrows_of(w0),
                sim_release(b0, self@) is Some,
                sim_release(borrows_of(*world), self@.take(j as int)) == sim_release(b0, self@),
                world.comps@.len() == w0.comps@.len(),
                forall|i: int|
                    0 <= i < w0.comps@.len() ==> (#[trigger] world.comps@[i]).name
                        == w0.comps@[i].name && world.comps@[i].store == w0.comps@[i].store,
                world.entities == w0.entities,
                world.resources == w0.resources,
                world.events == w0.events,
                world.commands == w0.commands,
                world.commands_borrow == w0.commands_borrow,
                world.triggers == w0.triggers,
                world.triggers_borrow == w0.triggers_borrow,
            decreases j,
        {
            let a = self.accesses[j - 1];
            let ghost bj = borrows_of(*world);
            proof {
                assert(self@.take(j as int).last() == self@[j as int - 1]);
                assert(self@.take(j as int).drop_last() =~= self@.take(j as int - 1));
                assert(step_release(bj, a) is Some);
            }
            let entry = &mut world.comps[a.comp];
            match a.mode {
                AccessMode::Shared => entry.borrow.release_shared(),
                AccessMode::Exclusive => entry.borrow.release_exclusive(),
            }
            proof {
                assert(borrows_of(*world) =~= step_release(bj, a)->0);
            }
            j = j - 1;
        }
        proof {
            assert(self@.take(0) =~= Seq::<CompAccess>::empty());
        }
    }
}

/// Scoped acquisition: releasing every claim a successful fetch took, in
/// reverse order, restores the borrow row exactly as the fetch found it.
pub proof fn lemma_release_undoes_fetch(borrows: Seq<BorrowState>, accs: Seq<CompAccess>)
    requires
        forall|i: int| 0 <= i < borrows.len() ==> (#[trigger] borrows[i]).wf_count(),
        sim_acquire(borrows, accs) is Some,
    ensures
        sim_release(sim_acquire(borrows, accs)->0, accs) == Some(borrows),
    decreases accs.len(),
{
    if accs.len() == 0 {
    } else {
        let a = accs.last();
        let front = accs.drop_last();
        assert(front.push(a) =~= accs);
        lemma_sim_snoc_some(borrows, front, a);
        let bn1 = sim_acquire(borrows, front)->0;
        let bn = sim_acquire(borrows, accs)->0;
        assert(bn == step_acquire(bn1, a)->0);
        lemma_sim_preserves_wf_count(borrows, front);
        let c = a.comp as int;
        assert(bn1[c].wf_count());
        match a.mode {
            AccessMode::Shared => {
                assert(bn[c] == bn1[c].spec_after_shared());
                assert(bn[c] is Shared);
                assert(bn[c].spec_after_release_shared() == bn1[c]);
            },
            AccessMode::Exclusive => {
                assert(bn1[c] is Free);
                assert(bn[c] is Exclusive);
            },
        }
        assert(step_release(bn, a)->0 =~= bn1);
        lemma_release_undoes_fetch(borrows, front);
    }
}

/// Fetching elements that touch pairwise distinct, currently free
/// containers always succeeds, whatever mix of shared and exclusive modes
/// they declare: disjoint data never contends.
pub proof fn lemma_disjoint_fetch_succeeds(borrows: Seq<BorrowState>, accs: Seq<CompAccess>)
    requires
        forall|k: int|
            0 <= k < accs.len() ==> ((#[trigger] accs[k]).comp as int) < borrows.len(),
        forall|k: int| 0 <= k < accs.len() ==> borrows[(#[trigger] accs[k]).comp as int] is Free,
        forall|k: int, l: int|
            0 <= k < l < accs.len() ==> (#[trigger] accs[k]).comp != (#[trigger] accs[l]).comp,
    ensures
        sim_acquire(borrows, accs) is Some,
    decreases accs.len(),
{
    if accs.len() > 0 {
        let a = accs[0];
        assert(borrows[a.comp as int] is Free);
        let b2 = step_acquire(borrows, a)->0;
        let rest = accs.skip(1);
        assert forall|k: int| 0 <= k < rest.len() implies ((#[trigger] rest[k]).comp as int)
            < b2.len() && b2[rest[k].comp as int] is Free by {
            assert(rest[k] == accs[k + 1]);
            assert(accs[k + 1].comp != a.comp);
        }
        assert forall|k: int, l: int| 0 <= k < l < rest.len() implies (#[trigger] rest[k]).comp
            != (#[trigger] rest[l]).comp by {
            assert(rest[k] == accs[k + 1]);
            assert(rest[l] == accs[l + 1]);
        }
        lemma_disjoint_fetch_succeeds(b2, rest);
    }
}

/// While claims are only being taken, a container never returns to free,
/// and one taken exclusively stays exclusive.
pub proof fn lemma_acquire_keeps_claims(borrows: Seq<BorrowState>, accs: Seq<CompAccess>, c: int)
    requires
        sim_acquire(borrows, accs) is Some,
        0 <= c < borrows.len(),
        !(borrows[c] is Free),
    ensures
        sim_acquire(borrows, accs)->0.len() == borrows.len(),
        !(sim_acquire(borrows, accs)->0[c] is Free),
        borrows[c] is Exclusive ==> sim_acquire(borrows, accs)->0[c] is Exclusive,
    decreases accs.len(),
{
    if accs.len() > 0 {
        let a = accs[0];
        let b2 = step_acquire(borrows, a)->0;
        if a.comp as int == c {
            assert(!(borrows[c] is Exclusive));
            assert(b2[c] == borrows[c].spec_after_shared() || b2[c] is Exclusive);
        }
        lemma_acquire_keeps_claims(b2, accs.skip(1), c);
    }
}

/// Declaring the same container twice within one shape, with at least one
/// exclusive mode, always fails the fetch, whatever state the containers
/// start in: the XOR rule has no exception for a shape conflicting with
/// itself.
pub proof fn lemma_conflicting_fetch_fails(
    borrows: Seq<BorrowState>,
    accs: Seq<CompAccess>,
    i: int,
    j: int,
)
    requires
        0 <= i < j < accs.len(),
        accs[i].comp == accs[j].comp,
        accs[i].mode is Exclusive || accs[j].mode is Exclusive,
    ensures
        sim_acquire(borrows, accs) is None,
{
    if sim_acquire(borrows, accs) is Some {
        let c = accs[i].comp as int;
        lemma_sim_split(borrows, accs, i);
        let bi = sim_acquire(borrows, accs.take(i))->0;
        assert(accs.skip(i)[0] == accs[i]);
        let bi1 = step_acquire(bi, accs[i])->0;
        assert(0 <= c < bi1.len());
        assert(!(bi1[c] is Free));
        assert(accs[i].mode is Exclusive ==> bi1[c] is Exclusive);
        // walk the segment between the two conflicting elements
        lemma_sim_split(borrows, accs, j);
        let bj = sim_acquire(borrows, accs.take(j))->0;
        assert(accs.skip(j)[0] == accs[j]);
        assert(step_acquire(bj, accs[j]) is Some);
        // relate bj to bi1 through the segment
        lemma_sim_split(borrows, accs.take(j), i);
        assert(accs.take(j).take(i) =~= accs.take(i));
        let seg = accs.take(j).skip(i);
        assert(sim_acquire(bi, seg) == Some(bj));
        assert(seg[0] == accs[i]);
        assert(step_acquire(bi, seg[0])->0 == bi1);
        assert(sim_acquire(bi1, seg.skip(1)) == Some(bj));
        lemma_acquire_keeps_claims(bi1, seg.skip(1), c);
        assert(!(bj[c] is Free));
        assert(accs[i].mode is Exclusive ==> bj[c] is Exclusive);
        // the later element cannot take its claim
        if accs[j].mode is Exclusive {
            assert(!bj[c].spec_can_write());
            assert(false);
        } else {
            assert(accs[i].mode is Exclusive);
            assert(!bj[c].spec_can_read());
            assert(false);
        }
    }
}

} // verus!
