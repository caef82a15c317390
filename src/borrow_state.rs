use vstd::prelude::*;

use crate::resource::TypeKey;

verus! {

/// Borrow accounting of one slot: free, read by `n` shared borrows, or held
/// by one exclusive borrow.
#[derive(Clone, Copy, Debug, PartialEq, Eq, Structural)]
pub enum BorrowState {
    Free,
    Shared(usize),
    Exclusive,
}

/// Why a borrow could not be had.
#[derive(Clone, Copy, Debug, PartialEq, Eq, Structural)]
pub enum BorrowFail {
    /// Nothing is stored under the requested key.
    ValueNotFound,
    /// A shared borrow was asked for while the value is held exclusively (or
    /// while its reader count is at its maximum).
    BorrowConflictImm,
    /// An exclusive borrow was asked for while the value is borrowed.
    BorrowConflictMut,
}

impl BorrowState {
    /// A shared count is never zero: a slot with no reader is `Free`.
    pub open spec fn wf(self) -> bool {
        match self {
            BorrowState::Shared(n) => n > 0,
            _ => true,
        }
    }

    /// The state after one more shared borrow, if one may be taken.
    pub open spec fn shared_spec(self) -> Option<BorrowState> {
        match self {
            BorrowState::Free => Some(BorrowState::Shared(1)),
            BorrowState::Shared(n) => if n < usize::MAX {
                Some(BorrowState::Shared((n + 1) as usize))
            } else {
                None
            },
            BorrowState::Exclusive => None,
        }
    }

    /// The state after an exclusive borrow, if one may be taken.
    pub open spec fn exclusive_spec(self) -> Option<BorrowState> {
        match self {
            BorrowState::Free => Some(BorrowState::Exclusive),
            _ => None,
        }
    }

    /// The state after one shared borrow ends.
    pub open spec fn unshare_spec(self) -> BorrowState {
        match self {
            BorrowState::Shared(n) => if n <= 1 {
                BorrowState::Free
            } else {
                BorrowState::Shared((n - 1) as usize)
            },
            _ => self,
        }
    }

    /// The state after the exclusive borrow ends.
    pub open spec fn unexclude_spec(self) -> BorrowState {
        match self {
            BorrowState::Exclusive => BorrowState::Free,
            _ => self,
        }
    }

    pub fn acquire_shared(self) -> (r: Option<BorrowState>)
        ensures
            r == self.shared_spec(),
    {
        match self {
            BorrowState::Free => Some(BorrowState::Shared(1)),
            BorrowState::Shared(n) => if n < usize::MAX {
                Some(BorrowState::Shared(n + 1))
            } else {
                None
            },
            BorrowState::Exclusive => None,
        }
    }

    pub fn acquire_exclusive(self) -> (r: Option<BorrowState>)
        ensures
            r == self.exclusive_spec(),
    {
        match self {
            BorrowState::Free => Some(BorrowState::Exclusive),
            _ => None,
        }
    }

    pub fn release_shared(self) -> (r: BorrowState)
        ensures
            r == self.unshare_spec(),
    {
        match self {
            BorrowState::Shared(n) => if n <= 1 {
                BorrowState::Free
            } else {
                BorrowState::Shared(n - 1)
            },
            _ => self,
        }
    }

    pub fn release_exclusive(self) -> (r: BorrowState)
        ensures
            r == self.unexclude_spec(),
    {
        match self {
            BorrowState::Exclusive => BorrowState::Free,
            _ => self,
        }
    }
}

/// Taking a borrow and then giving it back leaves a well-formed state as it
/// was, and every transition keeps states well formed.
pub proof fn lemma_release_undoes_acquire(s: BorrowState)
    requires
        s.wf(),
    ensures
        s.shared_spec() matches Some(t) ==> t.wf() && t.unshare_spec() == s,
        s.exclusive_spec() matches Some(t) ==> t.wf() && t.unexclude_spec() == s,
        s.unshare_spec().wf(),
        s.unexclude_spec().wf(),
{
}

/// The slot states after a shared borrow of `key`, or why it is refused.
pub open spec fn shared_step(
    states: Map<TypeKey, BorrowState>,
    key: TypeKey,
) -> Result<Map<TypeKey, BorrowState>, BorrowFail> {
    if !states.contains_key(key) {
        Err(BorrowFail::ValueNotFound)
    } else {
        match states[key].shared_spec() {
            Some(t) => Ok(states.insert(key, t)),
            None => Err(BorrowFail::BorrowConflictImm),
        }
    }
}

/// The slot states after an exclusive borrow of `key`, or why it is refused.
pub open spec fn exclusive_step(
    states: Map<TypeKey, BorrowState>,
    key: TypeKey,
) -> Result<Map<TypeKey, BorrowState>, BorrowFail> {
    if !states.contains_key(key) {
        Err(BorrowFail::ValueNotFound)
    } else {
        match states[key].exclusive_spec() {
            Some(t) => Ok(states.insert(key, t)),
            None => Err(BorrowFail::BorrowConflictMut),
        }
    }
}

/// The slot states after a shared borrow of `key` ends.
pub open spec fn unshare_step(states: Map<TypeKey, BorrowState>, key: TypeKey) -> Map<
    TypeKey,
    BorrowState,
> {
    if states.contains_key(key) {
        states.insert(key, states[key].unshare_spec())
    } else {
        states
    }
}

/// The slot states after the exclusive borrow of `key` ends.
pub open spec fn unexclude_step(states: Map<TypeKey, BorrowState>, key: TypeKey) -> Map<
    TypeKey,
    BorrowState,
> {
    if states.contains_key(key) {
        states.insert(key, states[key].unexclude_spec())
    } else {
        states
    }
}

/// Every slot state is well formed.
pub open spec fn states_wf(states: Map<TypeKey, BorrowState>) -> bool {
    forall|k: TypeKey| #[trigger] states.contains_key(k) ==> states[k].wf()
}

} // verus!
