use vstd::prelude::*;

use std::collections::BTreeMap;
use std::collections::HashMap;

verus! {

broadcast use {
    vstd::std_specs::hash::group_hash_axioms,
    vstd::std_specs::btree::group_btree_axioms,
    vstd::laws_cmp::group_laws_cmp,
};

/// Which container backs a component type: a dense array keyed by entity
/// id for hot components, an ordered map for the general case, or a hash
/// map for sparse ones. The choice never changes what a storage means —
/// only how it is laid out.
#[derive(Clone, Copy, PartialEq, Eq, Structural, Debug)]
pub enum StorageFlavor {
    Dense,
    Ordered,
    Hashed,
}

/// One component type's container, keyed by entity id with overwrite
/// semantics. No storage checks that an id belongs to a live entity; that
/// is the query layer's job.
pub enum Storage<V> {
    Dense(Vec<Option<V>>),
    Ordered(BTreeMap<usize, V>),
    Hashed(HashMap<usize, V>),
}

impl<V> Storage<V> {
    /// What the storage holds, as a map from entity id to value.
    pub closed spec fn contents(self) -> Map<usize, V> {
        match self {
            Storage::Dense(slots) => Map::new(
                |k: usize| (k as int) < slots@.len() && slots@[k as int] is Some,
                |k: usize| slots@[k as int]->0,
            ),
            Storage::Ordered(m) => m@,
            Storage::Hashed(m) => m@,
        }
    }

    /// Which flavor backs this storage.
    pub closed spec fn spec_flavor(self) -> StorageFlavor {
        match self {
            Storage::Dense(_) => StorageFlavor::Dense,
            Storage::Ordered(_) => StorageFlavor::Ordered,
            Storage::Hashed(_) => StorageFlavor::Hashed,
        }
    }

    /// An empty storage of the requested flavor.
    pub fn new(flavor: StorageFlavor) -> (r: Self)
        ensures
            r.contents() == Map::<usize, V>::empty(),
            r.spec_flavor() == flavor,
    {
        let r = match flavor {
            StorageFlavor::Dense => Storage::Dense(Vec::new()),
            StorageFlavor::Ordered => Storage::Ordered(BTreeMap::new()),
            StorageFlavor::Hashed => Storage::Hashed(HashMap::new()),
        };
        proof {
            assert(r.contents() =~= Map::<usize, V>::empty());
        }
        r
    }

    /// Store `v` under `id`, overwriting whatever was there.
    pub fn insert(&mut self, id: usize, v: V)
        requires
            id < usize::MAX,
        ensures
            final(self).contents() == old(self).contents().insert(id, v),
            final(self).spec_flavor() == old(self).spec_flavor(),
    {
        match self {
            Storage::Dense(slots) => {
                while slots.len() <= id
                    invariant
                        id < usize::MAX,
                        forall|k: int|
                            0 <= k < old(self)->Dense_0@.len() && k < slots@.len()
                                ==> slots@[k] == old(self)->Dense_0@[k],
                        forall|k: int|
                            old(self)->Dense_0@.len() <= k < slots@.len()
                                ==> slots@[k] is None,
                        slots@.len() >= old(self)->Dense_0@.len(),
                    decreases id + 1 - slots@.len(),
                {
                    slots.push(None);
                }
                slots.set(id, Some(v));
                proof {
                    assert(final(self).contents() =~= old(self).contents().insert(id, v));
                }
            },
            Storage::Ordered(m) => {
                m.insert(id, v);
                proof {
                    assert(final(self).contents() =~= old(self).contents().insert(id, v));
                }
            },
            Storage::Hashed(m) => {
                m.insert(id, v);
                proof {
                    assert(final(self).contents() =~= old(self).contents().insert(id, v));
                }
            },
        }
    }

    /// Look up the value stored under `id`, if any.
    pub fn get(&self, id: usize) -> (r: Option<&V>)
        ensures
            match r {
                Some(v) => self.contents().contains_key(id) && *v == self.contents()[id],
                None => !self.contents().contains_key(id),
            },
    {
        match self {
            Storage::Dense(slots) => {
                if id < slots.len() {
                    match &slots[id] {
                        Some(v) => Some(v),
                        None => None,
                    }
                } else {
                    None
                }
            },
            Storage::Ordered(m) => m.get(&id),
            Storage::Hashed(m) => m.get(&id),
        }
    }

    /// Whether a value is stored under `id`.
    pub fn contains(&self, id: usize) -> (b: bool)
        ensures
            b == self.contents().contains_key(id),
    {
        match self.get(id) {
            Some(_) => true,
            None => false,
        }
    }

    /// Remove and return the value stored under `id`, if any.
    pub fn remove(&mut self, id: usize) -> (r: Option<V>)
        ensures
            final(self).contents() == old(self).contents().remove(id),
            final(self).spec_flavor() == old(self).spec_flavor(),
            match r {
                Some(v) => old(self).contents().contains_key(id) && v == old(self).contents()[id],
                None => !old(self).contents().contains_key(id),
            },
    {
        match self {
            Storage::Dense(slots) => {
                if id < slots.len() {
                    let mut taken: Option<V> = None;
                    vstd::pervasive::VecAdditionalExecFns::set_and_swap(slots, id, &mut taken);
                    proof {
                        assert(final(self).contents() =~= old(self).contents().remove(id));
                    }
                    taken
                } else {
                    proof {
                        assert(final(self).contents() =~= old(self).contents().remove(id));
                    }
                    None
                }
            },
            Storage::Ordered(m) => {
                let r = m.remove(&id);
                proof {
                    assert(final(self).contents() =~= old(self).contents().remove(id));
                }
                r
            },
            Storage::Hashed(m) => {
                let r = m.remove(&id);
                proof {
                    assert(final(self).contents() =~= old(self).contents().remove(id));
                }
                r
            },
        }
    }
}

} // verus!
