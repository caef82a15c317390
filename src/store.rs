use vstd::prelude::*;

use crate::borrow_state::{
    exclusive_step, lemma_release_undoes_acquire, shared_step, states_wf, unexclude_step,
    unshare_step, BorrowFail, BorrowState,
};
use crate::guard::{Borrow, Ref, RefMut};
use crate::resource::{Resource, TypeKey};

verus! {

/// Key and borrow accounting of one stored value.
struct Slot {
    key: TypeKey,
    state: BorrowState,
}

/// The values of a store, one per slot, in slot order. A function called
/// through an adapter reaches its arguments here, by the borrows it was given.
pub struct Values<V> {
    items: Vec<V>,
}

impl<V> View for Values<V> {
    type V = Seq<V>;

    closed spec fn view(&self) -> Seq<V> {
        self.items@
    }
}

impl<V> Values<V> {
    pub fn len(&self) -> (n: usize)
        ensures
            n == self@.len(),
    {
        self.items.len()
    }

    /// The value that a shared borrow reads.
    pub fn get(&self, r: &Ref) -> (v: &V)
        requires
            r.slot_of() < self@.len(),
        ensures
            *v == self@[r.slot_of()],
    {
        &self.items[r.slot()]
    }

    /// The value that an exclusive borrow may change.
    pub fn get_mut(&mut self, w: &RefMut) -> (v: &mut V)
        requires
            w.slot_of() < old(self)@.len(),
        ensures
            *v == old(self)@[w.slot_of()],
            final(self)@ == old(self)@.update(w.slot_of(), *final(v)),
    {
        &mut self.items[w.slot()]
    }

    /// The value behind a borrow of either kind, to read.
    pub fn arg(&self, b: &Borrow) -> (v: &V)
        requires
            b.slot_of() < self@.len(),
        ensures
            *v == self@[b.slot_of()],
    {
        &self.items[b.slot()]
    }
}

/// A map from type keys to values, each with its own count of shared and
/// exclusive borrows: one exclusive borrow or any number of shared ones.
pub struct Store<V> {
    slots: Vec<Slot>,
    values: Values<V>,
}

impl<V> Store<V> {
    /// The key of each slot, in slot order.
    pub closed spec fn layout(&self) -> Seq<TypeKey> {
        Seq::new(self.slots@.len(), |i: int| self.slots@[i].key)
    }

    /// Keys are unique, every value has its accounting, and no reader count
    /// is zero.
    pub closed spec fn wf(&self) -> bool {
        &&& self.slots@.len() == self.values@.len()
        &&& forall|i: int, j: int|
            0 <= i < j < self.slots@.len() ==> self.slots@[i].key != self.slots@[j].key
        &&& forall|i: int| 0 <= i < self.slots@.len() ==> (#[trigger] self.slots@[i]).state.wf()
    }

    /// The value of `key` sits in slot `slot`.
    pub open spec fn holds(&self, key: TypeKey, slot: int) -> bool {
        0 <= slot < self.layout().len() && self.layout()[slot] == key
    }

    spec fn has(&self, key: TypeKey) -> bool {
        exists|i: int| self.holds(key, i)
    }

    spec fn index_of(&self, key: TypeKey) -> int {
        choose|i: int| self.holds(key, i)
    }

    /// The borrow state of each stored key.
    pub closed spec fn states(&self) -> Map<TypeKey, BorrowState> {
        Map::new(|k: TypeKey| self.has(k), |k: TypeKey| self.slots@[self.index_of(k)].state)
    }

    /// The value of each stored key.
    pub closed spec fn values(&self) -> Map<TypeKey, V> {
        Map::new(|k: TypeKey| self.has(k), |k: TypeKey| self.values@[self.index_of(k)])
    }

    proof fn lemma_index_of(&self, key: TypeKey, i: int)
        requires
            self.wf(),
            self.holds(key, i),
        ensures
            self.has(key),
            self.index_of(key) == i,
            self.states().contains_key(key),
            self.values().contains_key(key),
            self.states()[key] == self.slots@[i].state,
            self.values()[key] == self.values@[i],
    {
        assert(self.has(key));
        let j = self.index_of(key);
        assert(self.holds(key, j));
        if j < i {
            assert(self.slots@[j].key != self.slots@[i].key);
        } else if i < j {
            assert(self.slots@[i].key != self.slots@[j].key);
        }
    }

    /// Every borrow state of a well-formed store is well formed, and the
    /// store holds a state for exactly the keys it holds a value for.
    pub proof fn lemma_wf_states(&self)
        requires
            self.wf(),
        ensures
            states_wf(self.states()),
            self.states().dom() == self.values().dom(),
    {
        assert forall|k: TypeKey| #[trigger] self.states().contains_key(k) implies self.states()[
            k
        ].wf() by {
            let i = self.index_of(k);
            assert(self.holds(k, i));
            assert(self.slots@[i].state.wf());
        }
        assert(self.states().dom() =~= self.values().dom());
    }

    /// Two well-formed stores with one layout agree on which slot holds each key.
    proof fn lemma_same_layout(&self, other: &Self, key: TypeKey)
        requires
            self.wf(),
            other.wf(),
            self.layout() == other.layout(),
        ensures
            self.has(key) == other.has(key),
            self.has(key) ==> self.index_of(key) == other.index_of(key),
    {
        if self.has(key) {
            let i = self.index_of(key);
            assert(self.holds(key, i));
            self.lemma_index_of(key, i);
            other.lemma_index_of(key, i);
        } else if other.has(key) {
            let i = other.index_of(key);
            assert(other.holds(key, i));
            assert(self.holds(key, i));
        }
    }

    pub fn new() -> (s: Store<V>)
        ensures
            s.wf(),
            s.states() == Map::<TypeKey, BorrowState>::empty(),
            s.values() == Map::<TypeKey, V>::empty(),
    {
        let s = Store { slots: Vec::new(), values: Values { items: Vec::new() } };
        assert(s.states() =~= Map::<TypeKey, BorrowState>::empty());
        assert(s.values() =~= Map::<TypeKey, V>::empty());
        s
    }

    fn find(&self, key: TypeKey) -> (r: Option<usize>)
        requires
            self.wf(),
        ensures
            r matches Some(i) ==> self.holds(key, i as int),
            r is None ==> !self.states().contains_key(key) && !self.has(key),
    {
        let mut i: usize = 0;
        while i < self.slots.len()
            invariant
                0 <= i <= self.slots@.len(),
                forall|j: int| 0 <= j < i ==> self.slots@[j].key != key,
            decreases self.slots@.len() - i,
        {
            if self.slots[i].key == key {
                return Some(i);
            }
            i += 1;
        }
        assert(!self.has(key)) by {
            if self.has(key) {
                let j = self.index_of(key);
                assert(self.holds(key, j));
            }
        }
        None
    }

    /// Whether a value is stored under `key`.
    pub fn contains(&self, key: TypeKey) -> (r: bool)
        requires
            self.wf(),
        ensures
            r == self.values().contains_key(key),
    {
        match self.find(key) {
            Some(i) => {
                proof {
                    self.lemma_index_of(key, i as int);
                }
                true
            },
            None => false,
        }
    }

    /// Sets the borrow state of slot `i`, leaving keys and values alone.
    fn set_state(&mut self, i: usize, t: BorrowState)
        requires
            old(self).wf(),
            i < old(self).slots@.len(),
            t.wf(),
        ensures
            final(self).wf(),
            final(self).layout() == old(self).layout(),
            final(self).values() == old(self).values(),
            final(self).states() == old(self).states().insert(old(self).slots@[i as int].key, t),
    {
        let key = self.slots[i].key;
        self.slots[i] = Slot { key, state: t };
        proof {
            let o = old(self);
            let n = *self;
            assert(n.layout() =~= o.layout());
            assert forall|k: TypeKey| true implies n.has(k) == o.has(k) && (n.has(k)
                ==> n.index_of(k) == o.index_of(k)) by {
                n.lemma_same_layout(o, k);
            }
            o.lemma_index_of(key, i as int);
            assert(n.states() =~= o.states().insert(key, t));
            assert(n.values() =~= o.values());
        }
    }

    /// Takes a shared borrow of `key`: refused when nothing is stored there
    /// or when it is held exclusively. A refusal changes nothing.
    pub fn try_borrow_shared(&mut self, key: TypeKey) -> (r: Result<Ref, BorrowFail>)
        requires
            old(self).wf(),
        ensures
            final(self).wf(),
            final(self).layout() == old(self).layout(),
            final(self).values() == old(self).values(),
            r is Ok == shared_step(old(self).states(), key) is Ok,
            r matches Ok(g) ==> g.key_of() == key && final(self).holds(key, g.slot_of())
                && final(self).states() == shared_step(old(self).states(), key)->Ok_0,
            r matches Err(e) ==> shared_step(old(self).states(), key) == Err::<
                Map<TypeKey, BorrowState>,
                BorrowFail,
            >(e) && final(self).states() == old(self).states(),
    {
        match self.find(key) {
            None => Err(BorrowFail::ValueNotFound),
            Some(i) => {
                proof {
                    self.lemma_index_of(key, i as int);
                }
                match self.slots[i].state.acquire_shared() {
                    None => Err(BorrowFail::BorrowConflictImm),
                    Some(t) => {
                        proof {
                            lemma_release_undoes_acquire(self.slots@[i as int].state);
                        }
                        self.set_state(i, t);
                        Ok(Ref::new(key, i))
                    },
                }
            },
        }
    }

    /// Takes the exclusive borrow of `key`: refused when nothing is stored
    /// there or when it is borrowed at all. A refusal changes nothing.
    pub fn try_borrow_exclusive(&mut self, key: TypeKey) -> (r: Result<RefMut, BorrowFail>)
        requires
            old(self).wf(),
        ensures
            final(self).wf(),
            final(self).layout() == old(self).layout(),
            final(self).values() == old(self).values(),
            r is Ok == exclusive_step(old(self).states(), key) is Ok,
            r matches Ok(g) ==> g.key_of() == key && final(self).holds(key, g.slot_of())
                && final(self).states() == exclusive_step(old(self).states(), key)->Ok_0,
            r matches Err(e) ==> exclusive_step(old(self).states(), key) == Err::<
                Map<TypeKey, BorrowState>,
                BorrowFail,
            >(e) && final(self).states() == old(self).states(),
    {
        match self.find(key) {
            None => Err(BorrowFail::ValueNotFound),
            Some(i) => {
                proof {
                    self.lemma_index_of(key, i as int);
                }
                match self.slots[i].state.acquire_exclusive() {
                    None => Err(BorrowFail::BorrowConflictMut),
                    Some(t) => {
                        self.set_state(i, t);
                        Ok(RefMut::new(key, i))
                    },
                }
            },
        }
    }

    /// Takes a shared borrow of `key`, which must be stored and not held
    /// exclusively.
    pub fn borrow_shared(&mut self, key: TypeKey) -> (g: Ref)
        requires
            old(self).wf(),
            shared_step(old(self).states(), key) is Ok,
        ensures
            final(self).wf(),
            final(self).layout() == old(self).layout(),
            final(self).values() == old(self).values(),
            g.key_of() == key,
            final(self).holds(key, g.slot_of()),
            final(self).states() == shared_step(old(self).states(), key)->Ok_0,
    {
        match self.try_borrow_shared(key) {
            Ok(g) => g,
            Err(_) => unreached(),
        }
    }

    /// Takes the exclusive borrow of `key`, which must be stored and not
    /// borrowed at all.
    pub fn borrow_exclusive(&mut self, key: TypeKey) -> (g: RefMut)
        requires
            old(self).wf(),
            exclusive_step(old(self).states(), key) is Ok,
        ensures
            final(self).wf(),
            final(self).layout() == old(self).layout(),
            final(self).values() == old(self).values(),
            g.key_of() == key,
            final(self).holds(key, g.slot_of()),
            final(self).states() == exclusive_step(old(self).states(), key)->Ok_0,
    {
        match self.try_borrow_exclusive(key) {
            Ok(g) => g,
            Err(_) => unreached(),
        }
    }

    /// Gives a shared borrow back: its key's reader count drops by one.
    pub fn release_shared(&mut self, g: Ref)
        requires
            old(self).wf(),
        ensures
            final(self).wf(),
            final(self).layout() == old(self).layout(),
            final(self).values() == old(self).values(),
            final(self).states() == unshare_step(old(self).states(), g.key_of()),
    {
        let key = g.key();
        match self.find(key) {
            None => {},
            Some(i) => {
                proof {
                    self.lemma_index_of(key, i as int);
                    lemma_release_undoes_acquire(self.slots@[i as int].state);
                }
                let t = self.slots[i].state.release_shared();
                self.set_state(i, t);
            },
        }
    }

    /// Gives the exclusive borrow back: its key is free again.
    pub fn release_exclusive(&mut self, g: RefMut)
        requires
            old(self).wf(),
        ensures
            final(self).wf(),
            final(self).layout() == old(self).layout(),
            final(self).values() == old(self).values(),
            final(self).states() == unexclude_step(old(self).states(), g.key_of()),
    {
        let key = g.key();
        match self.find(key) {
            None => {},
            Some(i) => {
                proof {
                    self.lemma_index_of(key, i as int);
                    lemma_release_undoes_acquire(self.slots@[i as int].state);
                }
                let t = self.slots[i].state.release_exclusive();
                self.set_state(i, t);
            },
        }
    }

    /// Gives a borrow of either kind back.
    pub fn release(&mut self, b: Borrow)
        requires
            old(self).wf(),
        ensures
            final(self).wf(),
            final(self).layout() == old(self).layout(),
            final(self).values() == old(self).values(),
            final(self).states() == (if b.is_exclusive() {
                unexclude_step(old(self).states(), b.key_of())
            } else {
                unshare_step(old(self).states(), b.key_of())
            }),
    {
        match b {
            Borrow::Shared(r) => self.release_shared(r),
            Borrow::Exclusive(w) => self.release_exclusive(w),
        }
    }

    /// The value that a shared borrow of this store reads.
    pub fn get(&self, r: &Ref) -> (v: &V)
        requires
            self.wf(),
            self.holds(r.key_of(), r.slot_of()),
        ensures
            self.values().contains_key(r.key_of()),
            *v == self.values()[r.key_of()],
    {
        proof {
            self.lemma_index_of(r.key_of(), r.slot_of());
        }
        self.values.get(r)
    }

    /// The value that the exclusive borrow of this store may change.
    pub fn get_mut(&mut self, w: &RefMut) -> (v: &mut V)
        requires
            old(self).wf(),
            old(self).holds(w.key_of(), w.slot_of()),
        ensures
            old(self).values().contains_key(w.key_of()),
            *v == old(self).values()[w.key_of()],
            final(self).wf(),
            final(self).layout() == old(self).layout(),
            final(self).states() == old(self).states(),
            final(self).values() == old(self).values().insert(w.key_of(), *final(v)),
    {
        proof {
            self.lemma_index_of(w.key_of(), w.slot_of());
            let i = w.slot_of();
            assert forall|n: Store<V>|
                n.slots == self.slots && n.values@ == self.values@.update(
                    i,
                    n.values@[i],
                ) implies #[trigger] n.states() == self.states() by {
                Self::lemma_value_update(*self, n, w.key_of(), i, n.values@[i]);
            }
            assert forall|n: Store<V>|
                n.slots == self.slots && n.values@ == self.values@.update(
                    i,
                    n.values@[i],
                ) implies #[trigger] n.values() == self.values().insert(w.key_of(), n.values@[i]) by {
                Self::lemma_value_update(*self, n, w.key_of(), i, n.values@[i]);
            }
        }
        self.values.get_mut(w)
    }

    spec fn value_updated(self, o: Self, key: TypeKey, x: V) -> bool {
        &&& self.wf()
        &&& self.layout() == o.layout()
        &&& self.states() == o.states()
        &&& self.values() == o.values().insert(key, x)
    }

    proof fn lemma_value_update(o: Self, n: Self, key: TypeKey, i: int, x: V)
        requires
            o.wf(),
            o.holds(key, i),
            n.slots == o.slots,
            n.values@ == o.values@.update(i, x),
        ensures
            n.value_updated(o, key, x),
    {
        assert(n.layout() =~= o.layout());
        assert forall|k: TypeKey| true implies n.has(k) == o.has(k) && (n.has(k) ==> n.index_of(k)
            == o.index_of(k)) by {
            n.lemma_same_layout(&o, k);
        }
        o.lemma_index_of(key, i);
        assert(n.states() =~= o.states());
        assert(n.values() =~= o.values().insert(key, x));
    }

    /// The values, for a function that reaches its arguments by borrows.
    pub fn values_of(&self) -> (v: &Values<V>)
        requires
            self.wf(),
        ensures
            v@.len() == self.layout().len(),
            forall|k: TypeKey, i: int| #[trigger] self.holds(k, i) ==> v@[i] == self.values()[k],
    {
        proof {
            assert forall|k: TypeKey, i: int| #[trigger] self.holds(k, i) implies self.values@[i]
                == self.values()[k] by {
                self.lemma_index_of(k, i);
            }
        }
        &self.values
    }
}

impl<V> Store<V> {
    /// Calls `f` on the values and on `borrows`. `f` reaches the values only:
    /// the keys and the borrow accounting stay as they were.
    pub(crate) fn invoke<F, Ret>(&mut self, borrows: &Vec<Borrow>, f: &F) -> (r: Ret)
        where
            F: Fn(&mut Values<V>, &Vec<Borrow>) -> Ret,
        requires
            old(self).wf(),
            forall|x: &mut Values<V>, y: &Vec<Borrow>| (*f).requires((x, y)),
            forall|x: &mut Values<V>, y: &Vec<Borrow>, z: Ret|
                (*f).ensures((x, y), z) ==> final(x)@.len() == x@.len(),
        ensures
            final(self).wf(),
            final(self).layout() == old(self).layout(),
            final(self).states() == old(self).states(),
    {
        let r = f(&mut self.values, borrows);
        proof {
            let o = old(self);
            let n = *self;
            assert(n.layout() =~= o.layout());
            assert forall|k: TypeKey| true implies n.has(k) == o.has(k) && (n.has(k) ==> n.index_of(k)
                == o.index_of(k)) by {
                n.lemma_same_layout(&o, k);
            }
            assert(n.states() =~= o.states());
        }
        r
    }
}

impl<V: Resource> Store<V> {
    /// Stores `value` under the key of its type, which is returned, replacing
    /// what was stored there. A key that was stored keeps its slot and its
    /// borrow state; a new key starts free.
    pub fn insert(&mut self, value: V) -> (k: TypeKey)
        requires
            old(self).wf(),
        ensures
            final(self).wf(),
            final(self).values() == old(self).values().insert(k, value),
            final(self).states() == (if old(self).states().contains_key(k) {
                old(self).states()
            } else {
                old(self).states().insert(k, BorrowState::Free)
            }),
            forall|key: TypeKey, i: int| old(self).holds(key, i) ==> final(self).holds(key, i),
    {
        let key = value.type_key();
        match self.find(key) {
            Some(i) => {
                self.values.items.set(i, value);
                proof {
                    let o = old(self);
                    let n = *self;
                    assert(n.layout() =~= o.layout());
                    assert forall|k: TypeKey| true implies n.has(k) == o.has(k) && (n.has(k)
                        ==> n.index_of(k) == o.index_of(k)) by {
                        n.lemma_same_layout(o, k);
                    }
                    o.lemma_index_of(key, i as int);
                    assert(n.states() =~= o.states());
                    assert(n.values() =~= o.values().insert(key, value));
                }
            },
            None => {
                self.slots.push(Slot { key, state: BorrowState::Free });
                self.values.items.push(value);
                proof {
                    let o = old(self);
                    let n = *self;
                    let last = o.slots@.len() as int;
                    assert(n.wf()) by {
                        assert forall|i: int, j: int|
                            0 <= i < j < n.slots@.len() implies n.slots@[i].key
                            != n.slots@[j].key by {
                            if j == last {
                                assert(o.holds(n.slots@[i].key, i));
                            }
                        }
                    }
                    n.lemma_index_of(key, last);
                    assert forall|k: TypeKey| k != key implies n.has(k) == o.has(k) && (n.has(k)
                        ==> n.index_of(k) == o.index_of(k)) by {
                        if o.has(k) {
                            let j = o.index_of(k);
                            assert(o.holds(k, j));
                            o.lemma_index_of(k, j);
                            assert(n.holds(k, j));
                            n.lemma_index_of(k, j);
                        }
                        if n.has(k) {
                            let j = n.index_of(k);
                            assert(n.holds(k, j));
                            assert(o.holds(k, j));
                        }
                    }
                    assert(n.states() =~= o.states().insert(key, BorrowState::Free));
                    assert(n.values() =~= o.values().insert(key, value));
                }
            },
        }
        key
    }
}

impl<V> Store<V> {
    /// Takes the value of `key` out of the store, with its slot. Borrows of
    /// the store must have been given back first.
    pub fn remove(&mut self, key: TypeKey) -> (r: Option<V>)
        requires
            old(self).wf(),
        ensures
            final(self).wf(),
            final(self).values() == old(self).values().remove(key),
            final(self).states() == old(self).states().remove(key),
            r == (if old(self).values().contains_key(key) {
                Some(old(self).values()[key])
            } else {
                None::<V>
            }),
    {
        match self.find(key) {
            None => {
                proof {
                    assert(self.values() =~= self.values().remove(key));
                    assert(self.states() =~= self.states().remove(key));
                }
                None
            },
            Some(i) => {
                proof {
                    self.lemma_index_of(key, i as int);
                }
                self.slots.remove(i);
                let v = self.values.items.remove(i);
                proof {
                    let o = old(self);
                    let n = *self;
                    let ii = i as int;
                    assert(n.wf()) by {
                        assert forall|a: int, b: int|
                            0 <= a < b < n.slots@.len() implies n.slots@[a].key
                            != n.slots@[b].key by {
                            let oa = if a < ii { a } else { a + 1 };
                            let ob = if b < ii { b } else { b + 1 };
                            assert(n.slots@[a] == o.slots@[oa]);
                            assert(n.slots@[b] == o.slots@[ob]);
                        }
                        assert forall|a: int| 0 <= a < n.slots@.len() implies (
                        #[trigger] n.slots@[a]).state.wf() by {
                            let oa = if a < ii { a } else { a + 1 };
                            assert(n.slots@[a] == o.slots@[oa]);
                        }
                    }
                    assert forall|k: TypeKey| k != key implies n.has(k) == o.has(k) && (n.has(k)
                        ==> n.slots@[n.index_of(k)] == o.slots@[o.index_of(k)] && n.values@[n.index_of(k)]
                        == o.values@[o.index_of(k)]) by {
                        if o.has(k) {
                            let j = o.index_of(k);
                            assert(o.holds(k, j));
                            o.lemma_index_of(k, j);
                            assert(j != ii);
                            let nj = if j < ii { j } else { j - 1 };
                            assert(n.slots@[nj] == o.slots@[j]);
                            assert(n.holds(k, nj));
                            n.lemma_index_of(k, nj);
                        }
                        if n.has(k) {
                            let j = n.index_of(k);
                            assert(n.holds(k, j));
                            let oj = if j < ii { j } else { j + 1 };
                            assert(n.slots@[j] == o.slots@[oj]);
                            assert(o.holds(k, oj));
                        }
                    }
                    assert(!n.has(key)) by {
                        if n.has(key) {
                            let j = n.index_of(key);
                            assert(n.holds(key, j));
                            let oj = if j < ii { j } else { j + 1 };
                            assert(n.slots@[j] == o.slots@[oj]);
                            assert(o.holds(key, oj));
                            o.lemma_index_of(key, oj);
                        }
                    }
                    assert(n.states() =~= o.states().remove(key));
                    assert(n.values() =~= o.values().remove(key));
                }
                Some(v)
            },
        }
    }
}

} // verus!
