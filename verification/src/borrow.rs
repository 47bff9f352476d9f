use vstd::prelude::*;

verus! {

/// The runtime claim on one container: free, shared by `n` readers, or
/// held exclusively by one writer. The arbiter enforces "many readers XOR
/// one writer" per container at fetch time instead of at compile time.
#[derive(Clone, Copy, PartialEq, Eq, Structural, Debug)]
pub enum BorrowState {
    Free,
    Shared(u64),
    Exclusive,
}

impl BorrowState {
    /// A well-formed claim count: a shared claim always counts at least
    /// one reader.
    pub open spec fn wf_count(self) -> bool {
        match self {
            BorrowState::Shared(n) => n >= 1,
            _ => true,
        }
    }

    /// A shared claim may join unless a writer holds the container.
    pub open spec fn spec_can_read(self) -> bool {
        match self {
            BorrowState::Free => true,
            BorrowState::Shared(n) => n < u64::MAX,
            BorrowState::Exclusive => false,
        }
    }

    /// An exclusive claim needs the container entirely free.
    pub open spec fn spec_can_write(self) -> bool {
        self is Free
    }

    /// The state after one more shared claim joins.
    pub open spec fn spec_after_shared(self) -> BorrowState {
        match self {
            BorrowState::Free => BorrowState::Shared(1),
            BorrowState::Shared(n) => BorrowState::Shared((n + 1) as u64),
            BorrowState::Exclusive => self,
        }
    }

    /// The state after one shared claim is handed back.
    pub open spec fn spec_after_release_shared(self) -> BorrowState {
        match self {
            BorrowState::Shared(n) => if n <= 1 {
                BorrowState::Free
            } else {
                BorrowState::Shared((n - 1) as u64)
            },
            _ => self,
        }
    }

    /// Try to join as a reader: fails exactly when a writer holds the
    /// container.
    pub fn acquire_shared(&mut self) -> (ok: bool)
        ensures
            ok == old(self).spec_can_read(),
            ok ==> *final(self) == old(self).spec_after_shared(),
            !ok ==> *final(self) == *old(self),
    {
        match *self {
            BorrowState::Free => {
                *self = BorrowState::Shared(1);
                true
            },
            BorrowState::Shared(n) => {
                if n < u64::MAX {
                    *self = BorrowState::Shared(n + 1);
                    true
                } else {
                    false
                }
            },
            BorrowState::Exclusive => false,
        }
    }

    /// Try to take the container as a writer: fails exactly when any
    /// claim, shared or exclusive, is outstanding.
    pub fn acquire_exclusive(&mut self) -> (ok: bool)
        ensures
            ok == old(self).spec_can_write(),
            ok ==> *final(self) is Exclusive,
            !ok ==> *final(self) == *old(self),
    {
        match *self {
            BorrowState::Free => {
                *self = BorrowState::Exclusive;
                true
            },
            _ => false,
        }
    }

    /// Hand back one shared claim.
    pub fn release_shared(&mut self)
        requires
            *old(self) is Shared,
        ensures
            *final(self) == old(self).spec_after_release_shared(),
    {
        match *self {
            BorrowState::Shared(n) => {
                if n <= 1 {
                    *self = BorrowState::Free;
                } else {
                    *self = BorrowState::Shared(n - 1);
                }
            },
            _ => {},
        }
    }

    /// Hand back the exclusive claim.
    pub fn release_exclusive(&mut self)
        requires
            *old(self) is Exclusive,
        ensures
            *final(self) is Free,
    {
        *self = BorrowState::Free;
    }
}

} // verus!
