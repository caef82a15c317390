use vstd::prelude::*;

use crate::resource::TypeKey;

verus! {

/// A shared borrow of the value stored under a key. It is handed out by the
/// store, and given back to it by value, so it can be given back only once.
#[derive(Debug)]
pub struct Ref {
    key: TypeKey,
    slot: usize,
}

/// The exclusive borrow of the value stored under a key. Like [`Ref`], it is
/// given back to the store by value.
#[derive(Debug)]
pub struct RefMut {
    key: TypeKey,
    slot: usize,
}

/// A borrow of either kind, as an adapter holds it for one parameter.
#[derive(Debug)]
pub enum Borrow {
    Shared(Ref),
    Exclusive(RefMut),
}

impl Ref {
    pub closed spec fn key_of(&self) -> TypeKey {
        self.key
    }

    pub closed spec fn slot_of(&self) -> int {
        self.slot as int
    }

    pub(crate) fn new(key: TypeKey, slot: usize) -> (r: Ref)
        ensures
            r.key_of() == key,
            r.slot_of() == slot,
    {
        Ref { key, slot }
    }

    pub fn key(&self) -> (k: TypeKey)
        ensures
            k == self.key_of(),
    {
        self.key
    }

    pub fn slot(&self) -> (i: usize)
        ensures
            i == self.slot_of(),
    {
        self.slot
    }
}

impl RefMut {
    pub closed spec fn key_of(&self) -> TypeKey {
        self.key
    }

    pub closed spec fn slot_of(&self) -> int {
        self.slot as int
    }

    pub(crate) fn new(key: TypeKey, slot: usize) -> (r: RefMut)
        ensures
            r.key_of() == key,
            r.slot_of() == slot,
    {
        RefMut { key, slot }
    }

    pub fn key(&self) -> (k: TypeKey)
        ensures
            k == self.key_of(),
    {
        self.key
    }

    pub fn slot(&self) -> (i: usize)
        ensures
            i == self.slot_of(),
    {
        self.slot
    }
}

impl Borrow {
    pub open spec fn key_of(&self) -> TypeKey {
        match self {
            Borrow::Shared(r) => r.key_of(),
            Borrow::Exclusive(w) => w.key_of(),
        }
    }

    pub open spec fn slot_of(&self) -> int {
        match self {
            Borrow::Shared(r) => r.slot_of(),
            Borrow::Exclusive(w) => w.slot_of(),
        }
    }

    pub open spec fn is_exclusive(&self) -> bool {
        self is Exclusive
    }

    pub fn key(&self) -> (k: TypeKey)
        ensures
            k == self.key_of(),
    {
        match self {
            Borrow::Shared(r) => r.key(),
            Borrow::Exclusive(w) => w.key(),
        }
    }

    pub fn slot(&self) -> (i: usize)
        ensures
            i == self.slot_of(),
    {
        match self {
            Borrow::Shared(r) => r.slot(),
            Borrow::Exclusive(w) => w.slot(),
        }
    }
}

} // verus!
