use vstd::prelude::*;

use crate::borrow_state::{
    exclusive_step, lemma_release_undoes_acquire, shared_step, states_wf, unexclude_step,
    unshare_step, BorrowFail, BorrowState,
};
use crate::guard::Borrow;
use crate::modes::MAX_ARITY;
use crate::resource::TypeKey;
use crate::store::{Store, Values};

verus! {

/// How a function takes one of its parameters.
#[derive(Clone, Copy, Debug, PartialEq, Eq, Structural)]
pub enum ParamMode {
    Shared,
    Exclusive,
}

/// One parameter of a function: the key of the resource it reads or changes,
/// and how.
#[derive(Clone, Copy, Debug, PartialEq, Eq, Structural)]
pub struct Param {
    pub key: TypeKey,
    pub mode: ParamMode,
}

impl Param {
    pub fn shared(key: TypeKey) -> (p: Param)
        ensures
            p == (Param { key, mode: ParamMode::Shared }),
    {
        Param { key, mode: ParamMode::Shared }
    }

    pub fn exclusive(key: TypeKey) -> (p: Param)
        ensures
            p == (Param { key, mode: ParamMode::Exclusive }),
    {
        Param { key, mode: ParamMode::Exclusive }
    }
}

/// The slot states after borrowing for one parameter, or why it is refused.
pub open spec fn param_step(states: Map<TypeKey, BorrowState>, p: Param) -> Result<
    Map<TypeKey, BorrowState>,
    BorrowFail,
> {
    match p.mode {
        ParamMode::Shared => shared_step(states, p.key),
        ParamMode::Exclusive => exclusive_step(states, p.key),
    }
}

/// The slot states after the borrow for one parameter is given back.
pub open spec fn param_undo(states: Map<TypeKey, BorrowState>, p: Param) -> Map<
    TypeKey,
    BorrowState,
> {
    match p.mode {
        ParamMode::Shared => unshare_step(states, p.key),
        ParamMode::Exclusive => unexclude_step(states, p.key),
    }
}

/// The slot states after borrowing for every parameter, first to last, or
/// the refusal of the first parameter that cannot be borrowed.
pub open spec fn acquire_all(states: Map<TypeKey, BorrowState>, params: Seq<Param>) -> Result<
    Map<TypeKey, BorrowState>,
    BorrowFail,
>
    decreases params.len(),
{
    if params.len() == 0 {
        Ok(states)
    } else {
        match acquire_all(states, params.take(params.len() - 1)) {
            Ok(s) => param_step(s, params.last()),
            Err(e) => Err(e),
        }
    }
}

/// The borrow `b` was taken for parameter `p`.
pub open spec fn borrow_matches(b: Borrow, p: Param) -> bool {
    b.key_of() == p.key && b.is_exclusive() == (p.mode == ParamMode::Exclusive)
}

/// The keys of the parameters taken in mode `m`, in parameter order.
pub open spec fn keys_in_mode(params: Seq<Param>, m: ParamMode) -> Seq<TypeKey>
    decreases params.len(),
{
    if params.len() == 0 {
        Seq::empty()
    } else {
        let rest = keys_in_mode(params.take(params.len() - 1), m);
        if params.last().mode == m {
            rest.push(params.last().key)
        } else {
            rest
        }
    }
}

/// Two parameter lists touch one key, and at least one of them exclusively.
pub open spec fn params_conflict(a: Seq<Param>, b: Seq<Param>) -> bool {
    exists|i: int, j: int|
        0 <= i < a.len() && 0 <= j < b.len() && #[trigger] a[i].key == #[trigger] b[j].key && (
        a[i].mode == ParamMode::Exclusive || b[j].mode == ParamMode::Exclusive)
}

/// Borrowing for a parameter and giving that borrow back leaves the slot
/// states as they were, and well formed.
pub proof fn lemma_release_exact(states: Map<TypeKey, BorrowState>, p: Param)
    requires
        states_wf(states),
        param_step(states, p) is Ok,
    ensures
        states_wf(param_step(states, p)->Ok_0),
        param_undo(param_step(states, p)->Ok_0, p) == states,
{
    lemma_release_undoes_acquire(states[p.key]);
    let s = param_step(states, p)->Ok_0;
    assert(param_undo(s, p) =~= states);
}

/// A borrow for every parameter keeps the slot states well formed and keeps
/// which keys are stored.
pub proof fn lemma_acquire_all_wf(states: Map<TypeKey, BorrowState>, params: Seq<Param>)
    requires
        states_wf(states),
        acquire_all(states, params) is Ok,
    ensures
        states_wf(acquire_all(states, params)->Ok_0),
        acquire_all(states, params)->Ok_0.dom() == states.dom(),
    decreases params.len(),
{
    if params.len() > 0 {
        let init = params.take(params.len() - 1);
        lemma_acquire_all_wf(states, init);
        let s = acquire_all(states, init)->Ok_0;
        lemma_release_exact(s, params.last());
        assert(param_step(s, params.last())->Ok_0.dom() =~= s.dom());
    }
}

/// While a key is held exclusively, neither a shared nor an exclusive borrow
/// of it can be taken; while it is read, no exclusive borrow can be taken.
pub proof fn lemma_exclusivity(states: Map<TypeKey, BorrowState>, key: TypeKey)
    requires
        states.contains_key(key),
    ensures
        states[key] == BorrowState::Exclusive ==> shared_step(states, key) == Err::<
            Map<TypeKey, BorrowState>,
            BorrowFail,
        >(BorrowFail::BorrowConflictImm) && exclusive_step(states, key) == Err::<
            Map<TypeKey, BorrowState>,
            BorrowFail,
        >(BorrowFail::BorrowConflictMut),
        states[key] is Shared ==> exclusive_step(states, key) == Err::<
            Map<TypeKey, BorrowState>,
            BorrowFail,
        >(BorrowFail::BorrowConflictMut),
{
}

/// Any number of shared borrows of a free key, up to the counter's limit, can
/// be held at once: taking them one after another never fails, and leaves the
/// key read by exactly that many.
pub proof fn lemma_shared_accumulate(
    states: Map<TypeKey, BorrowState>,
    key: TypeKey,
    params: Seq<Param>,
)
    requires
        states.contains_key(key),
        states[key] == BorrowState::Free,
        0 < params.len() <= usize::MAX,
        forall|i: int| 0 <= i < params.len() ==> params[i] == (Param { key, mode: ParamMode::Shared }),
    ensures
        acquire_all(states, params) == Ok::<Map<TypeKey, BorrowState>, BorrowFail>(
            states.insert(key, BorrowState::Shared(params.len() as usize)),
        ),
    decreases params.len(),
{
    if params.len() == 1 {
        assert(params.take(0) =~= Seq::<Param>::empty());
        assert(acquire_all(states, params.take(0)) == Ok::<Map<TypeKey, BorrowState>, BorrowFail>(
            states,
        ));
    } else {
        let init = params.take(params.len() - 1);
        lemma_shared_accumulate(states, key, init);
        let s = states.insert(key, BorrowState::Shared(init.len() as usize));
        assert(s.insert(key, BorrowState::Shared(params.len() as usize)) =~= states.insert(
            key,
            BorrowState::Shared(params.len() as usize),
        ));
    }
}

/// Borrowing for a parameter changes nothing for another key: whether a
/// borrow of that key is granted, and why not, stays the same.
pub proof fn lemma_independent_keys(states: Map<TypeKey, BorrowState>, a: Param, b: Param)
    requires
        a.key != b.key,
        param_step(states, a) is Ok,
    ensures
        param_step(param_step(states, a)->Ok_0, b) is Ok == param_step(states, b) is Ok,
        param_step(states, b) matches Err(e) ==> param_step(param_step(states, a)->Ok_0, b)
            == Err::<Map<TypeKey, BorrowState>, BorrowFail>(e),
        param_step(states, b) matches Ok(t) ==> param_step(param_step(states, a)->Ok_0, b)
            == Ok::<Map<TypeKey, BorrowState>, BorrowFail>(t.insert(a.key, param_step(states, a)->Ok_0[a.key])),
{
    let s = param_step(states, a)->Ok_0;
    assert(s[b.key] == states[b.key]);
    assert(s.contains_key(b.key) == states.contains_key(b.key));
    if param_step(states, b) is Ok {
        let t = param_step(states, b)->Ok_0;
        assert(param_step(s, b)->Ok_0 =~= t.insert(a.key, s[a.key]));
    }
}

/// Parameters of distinct keys, all stored and all free, can all be
/// borrowed at once.
pub proof fn lemma_free_params_acquire(states: Map<TypeKey, BorrowState>, params: Seq<Param>)
    requires
        forall|i: int| 0 <= i < params.len() ==> #[trigger] states.contains_key(params[i].key)
            && states[params[i].key] == BorrowState::Free,
        forall|i: int, j: int|
            0 <= i < j < params.len() ==> params[i].key != params[j].key,
    ensures
        acquire_all(states, params) is Ok,
        forall|k: TypeKey|
            states.contains_key(k) && (forall|i: int| 0 <= i < params.len() ==> params[i].key != k)
                ==> #[trigger] acquire_all(states, params)->Ok_0[k] == states[k],
        acquire_all(states, params)->Ok_0.dom() == states.dom(),
    decreases params.len(),
{
    if params.len() > 0 {
        let n = params.len() - 1;
        let init = params.take(n);
        lemma_free_params_acquire(states, init);
        let s = acquire_all(states, init)->Ok_0;
        let p = params.last();
        assert(params[n] == p);
        assert(forall|i: int| 0 <= i < init.len() ==> init[i].key != p.key);
        assert(s[p.key] == states[p.key]);
        let t = param_step(s, p)->Ok_0;
        assert(t.dom() =~= s.dom());
        assert forall|k: TypeKey|
            states.contains_key(k) && (forall|i: int| 0 <= i < params.len() ==> params[i].key != k)
                implies #[trigger] t[k] == states[k] by {
            assert(params[n].key != k);
            assert(forall|i: int| 0 <= i < init.len() ==> init[i] == params[i]);
        }
    }
}

/// A function bound to the ordered list of its parameters. Calling it
/// borrows each parameter from a store, first to last, calls the function on
/// the values and the borrows, and gives every borrow back.
pub struct FnResource<F> {
    func: F,
    params: Vec<Param>,
}

impl<F> FnResource<F> {
    pub closed spec fn signature(&self) -> Seq<Param> {
        self.params@
    }

    pub closed spec fn func_of(&self) -> F {
        self.func
    }

    pub fn new(func: F, params: Vec<Param>) -> (r: FnResource<F>)
        requires
            1 <= params@.len() <= MAX_ARITY,
        ensures
            r.signature() == params@,
            r.func_of() == func,
    {
        FnResource { func, params }
    }

    pub fn params(&self) -> (r: &Vec<Param>)
        ensures
            r@ == self.signature(),
    {
        &self.params
    }

    fn keys_with_mode(&self, m: ParamMode) -> (r: Vec<TypeKey>)
        ensures
            r@ == keys_in_mode(self.signature(), m),
    {
        let mut r: Vec<TypeKey> = Vec::new();
        let mut i: usize = 0;
        while i < self.params.len()
            invariant
                i <= self.params@.len(),
                r@ == keys_in_mode(self.params@.take(i as int), m),
            decreases self.params@.len() - i,
        {
            let p = self.params[i];
            proof {
                assert(self.params@.take(i + 1).take(i as int) =~= self.params@.take(i as int));
                assert(self.params@.take(i + 1).last() == p);
            }
            if p.mode == m {
                r.push(p.key);
            }
            i += 1;
        }
        proof {
            assert(self.params@.take(i as int) =~= self.params@);
        }
        r
    }

    /// The keys this function reads, in parameter order.
    pub fn borrows(&self) -> (r: Vec<TypeKey>)
        ensures
            r@ == keys_in_mode(self.signature(), ParamMode::Shared),
    {
        self.keys_with_mode(ParamMode::Shared)
    }

    /// The keys this function changes, in parameter order.
    pub fn borrow_muts(&self) -> (r: Vec<TypeKey>)
        ensures
            r@ == keys_in_mode(self.signature(), ParamMode::Exclusive),
    {
        self.keys_with_mode(ParamMode::Exclusive)
    }

    /// Whether this function and `other` may run at the same time: no key
    /// that one of them changes is touched by the other.
    pub fn may_run_with<G>(&self, other: &FnResource<G>) -> (r: bool)
        ensures
            r == !params_conflict(self.signature(), other.signature()),
    {
        let a = &self.params;
        let b = &other.params;
        let mut i: usize = 0;
        while i < a.len()
            invariant
                i <= a@.len(),
                a@ == self.signature(),
                b@ == other.signature(),
                forall|x: int, y: int|
                    0 <= x < i && 0 <= y < b@.len() ==> !(a@[x].key == b@[y].key && (a@[x].mode
                        == ParamMode::Exclusive || b@[y].mode == ParamMode::Exclusive)),
            decreases a@.len() - i,
        {
            let mut j: usize = 0;
            while j < b.len()
                invariant
                    i < a@.len(),
                    j <= b@.len(),
                    a@ == self.signature(),
                    b@ == other.signature(),
                    forall|y: int|
                        0 <= y < j ==> !(a@[i as int].key == b@[y].key && (a@[i as int].mode
                            == ParamMode::Exclusive || b@[y].mode == ParamMode::Exclusive)),
                decreases b@.len() - j,
            {
                let p = a[i];
                let q = b[j];
                if p.key == q.key && (p.mode == ParamMode::Exclusive || q.mode
                    == ParamMode::Exclusive) {
                    assert(self.signature()[i as int].key == other.signature()[j as int].key);
                    return false;
                }
                j += 1;
            }
            i += 1;
        }
        true
    }

    /// Gives back, last first, borrows taken for the first parameters, and
    /// so restores the slot states from before they were taken.
    fn release_taken<V>(
        &self,
        store: &mut Store<V>,
        taken: Vec<Borrow>,
        Ghost(before): Ghost<Map<TypeKey, BorrowState>>,
    )
        requires
            old(store).wf(),
            states_wf(before),
            taken@.len() <= self.signature().len(),
            forall|j: int| 0 <= j < taken@.len() ==> borrow_matches(taken@[j], self.signature()[j]),
            acquire_all(before, self.signature().take(taken@.len() as int)) == Ok::<
                Map<TypeKey, BorrowState>,
                BorrowFail,
            >(old(store).states()),
        ensures
            final(store).wf(),
            final(store).layout() == old(store).layout(),
            final(store).values() == old(store).values(),
            final(store).states() == before,
    {
        let mut taken = taken;
        let ghost sig = self.signature();
        while taken.len() > 0
            invariant
                store.wf(),
                store.layout() == old(store).layout(),
                store.values() == old(store).values(),
                states_wf(before),
                taken@.len() <= sig.len(),
                sig == self.signature(),
                forall|j: int| 0 <= j < taken@.len() ==> borrow_matches(taken@[j], sig[j]),
                acquire_all(before, sig.take(taken@.len() as int)) == Ok::<
                    Map<TypeKey, BorrowState>,
                    BorrowFail,
                >(store.states()),
            decreases taken@.len(),
        {
            let ghost n = taken@.len() as int;
            let b = taken.pop().unwrap();
            proof {
                let pre = sig.take(n);
                assert(pre.take(n - 1) =~= sig.take(n - 1));
                assert(pre.last() == sig[n - 1]);
                assert(borrow_matches(b, sig[n - 1]));
                lemma_acquire_all_wf(before, sig.take(n - 1));
                lemma_release_exact(acquire_all(before, sig.take(n - 1))->Ok_0, sig[n - 1]);
            }
            store.release(b);
        }
        proof {
            assert(sig.take(0) =~= Seq::<Param>::empty());
        }
    }

    /// Borrows for every parameter, first to last. At the first parameter
    /// that cannot be borrowed, the borrows already taken are given back,
    /// last first, and its refusal is returned: the store is then as before.
    pub fn try_acquire<V>(&self, store: &mut Store<V>) -> (r: Result<Vec<Borrow>, BorrowFail>)
        requires
            old(store).wf(),
        ensures
            final(store).wf(),
            final(store).layout() == old(store).layout(),
            final(store).values() == old(store).values(),
            r is Ok == acquire_all(old(store).states(), self.signature()) is Ok,
            r matches Ok(bs) ==> bs@.len() == self.signature().len() && final(store).states()
                == acquire_all(old(store).states(), self.signature())->Ok_0 && forall|j: int|
                0 <= j < bs@.len() ==> borrow_matches(#[trigger] bs@[j], self.signature()[j])
                && final(store).holds(bs@[j].key_of(), bs@[j].slot_of()),
            r matches Err(e) ==> acquire_all(old(store).states(), self.signature()) == Err::<
                Map<TypeKey, BorrowState>,
                BorrowFail,
            >(e) && final(store).states() == old(store).states(),
    {
        let ghost before = store.states();
        let ghost sig = self.signature();
        proof {
            store.lemma_wf_states();
            assert(sig.take(0) =~= Seq::<Param>::empty());
        }
        let mut taken: Vec<Borrow> = Vec::new();
        let mut i: usize = 0;
        while i < self.params.len()
            invariant
                store.wf(),
                store.layout() == old(store).layout(),
                store.values() == old(store).values(),
                states_wf(before),
                before == old(store).states(),
                sig == self.signature(),
                sig == self.params@,
                i <= sig.len(),
                taken@.len() == i,
                forall|j: int|
                    0 <= j < i ==> borrow_matches(#[trigger] taken@[j], sig[j]) && store.holds(
                        taken@[j].key_of(),
                        taken@[j].slot_of(),
                    ),
                acquire_all(before, sig.take(i as int)) == Ok::<
                    Map<TypeKey, BorrowState>,
                    BorrowFail,
                >(store.states()),
            decreases sig.len() - i,
        {
            let p = self.params[i];
            proof {
                assert(sig.take(i + 1).take(i as int) =~= sig.take(i as int));
                assert(sig.take(i + 1).last() == p);
            }
            let got = match p.mode {
                ParamMode::Shared => match store.try_borrow_shared(p.key) {
                    Ok(g) => Ok(Borrow::Shared(g)),
                    Err(e) => Err(e),
                },
                ParamMode::Exclusive => match store.try_borrow_exclusive(p.key) {
                    Ok(g) => Ok(Borrow::Exclusive(g)),
                    Err(e) => Err(e),
                },
            };
            match got {
                Ok(b) => {
                    taken.push(b);
                },
                Err(e) => {
                    proof {
                        assert(acquire_all(before, sig.take(i + 1)) == Err::<
                            Map<TypeKey, BorrowState>,
                            BorrowFail,
                        >(e));
                        lemma_acquire_err_extends(before, sig, i + 1);
                    }
                    self.release_taken(store, taken, Ghost(before));
                    return Err(e);
                },
            }
            i += 1;
        }
        proof {
            assert(sig.take(i as int) =~= sig);
        }
        Ok(taken)
    }

    /// Gives back every borrow that [`FnResource::try_acquire`] took, last
    /// first.
    pub fn release_all<V>(&self, store: &mut Store<V>, borrows: Vec<Borrow>)
        requires
            old(store).wf(),
            borrows@.len() == self.signature().len(),
            forall|j: int|
                0 <= j < borrows@.len() ==> borrow_matches(#[trigger] borrows@[j], self.signature()[j]),
        ensures
            final(store).wf(),
            final(store).layout() == old(store).layout(),
            final(store).values() == old(store).values(),
            forall|before: Map<TypeKey, BorrowState>|
                states_wf(before) && #[trigger] acquire_all(before, self.signature()) == Ok::<
                    Map<TypeKey, BorrowState>,
                    BorrowFail,
                >(old(store).states()) ==> final(store).states() == before,
    {
        let ghost o = *store;
        let ghost sig = self.signature();
        proof {
            assert(sig.take(sig.len() as int) =~= sig);
        }
        let mut borrows = borrows;
        while borrows.len() > 0
            invariant
                store.wf(),
                store.layout() == o.layout(),
                store.values() == o.values(),
                borrows@.len() <= sig.len(),
                sig == self.signature(),
                forall|j: int| 0 <= j < borrows@.len() ==> borrow_matches(borrows@[j], sig[j]),
                forall|before: Map<TypeKey, BorrowState>|
                    states_wf(before) && #[trigger] acquire_all(before, sig) == Ok::<
                        Map<TypeKey, BorrowState>,
                        BorrowFail,
                    >(o.states()) ==> acquire_all(before, sig.take(borrows@.len() as int)) == Ok::<
                        Map<TypeKey, BorrowState>,
                        BorrowFail,
                    >(store.states()),
            decreases borrows@.len(),
        {
            let ghost n = borrows@.len() as int;
            let ghost cur = store.states();
            let b = borrows.pop().unwrap();
            proof {
                assert(borrow_matches(b, sig[n - 1]));
            }
            store.release(b);
            proof {
                assert forall|before: Map<TypeKey, BorrowState>|
                    states_wf(before) && #[trigger] acquire_all(before, sig) == Ok::<
                        Map<TypeKey, BorrowState>,
                        BorrowFail,
                    >(o.states()) implies acquire_all(before, sig.take(n - 1)) == Ok::<
                        Map<TypeKey, BorrowState>,
                        BorrowFail,
                    >(store.states()) by {
                    let pre = sig.take(n);
                    assert(pre.take(n - 1) =~= sig.take(n - 1));
                    assert(pre.last() == sig[n - 1]);
                    lemma_acquire_all_wf(before, sig.take(n - 1));
                    lemma_release_exact(acquire_all(before, sig.take(n - 1))->Ok_0, sig[n - 1]);
                }
            }
        }
        proof {
            assert(sig.take(0) =~= Seq::<Param>::empty());
            assert forall|before: Map<TypeKey, BorrowState>|
                states_wf(before) && #[trigger] acquire_all(before, sig) == Ok::<
                    Map<TypeKey, BorrowState>,
                    BorrowFail,
                >(o.states()) implies store.states() == before by {
                assert(sig.take(sig.len() as int) =~= sig);
            }
        }
    }
}

impl<F> FnResource<F> {
    /// Borrows for every parameter, calls the function on the values and the
    /// borrows, and gives every borrow back, last first. The first refusal is
    /// returned instead, with the store as it was and the function not called.
    pub fn try_call<V, Ret>(&self, store: &mut Store<V>) -> (r: Result<Ret, BorrowFail>)
        where
            F: Fn(&mut Values<V>, &Vec<Borrow>) -> Ret,
        requires
            old(store).wf(),
            forall|x: &mut Values<V>, y: &Vec<Borrow>| self.func_of().requires((x, y)),
            forall|x: &mut Values<V>, y: &Vec<Borrow>, z: Ret|
                self.func_of().ensures((x, y), z) ==> final(x)@.len() == x@.len(),
        ensures
            final(store).wf(),
            final(store).layout() == old(store).layout(),
            final(store).states() == old(store).states(),
            r is Ok == acquire_all(old(store).states(), self.signature()) is Ok,
            r matches Err(e) ==> acquire_all(old(store).states(), self.signature()) == Err::<
                Map<TypeKey, BorrowState>,
                BorrowFail,
            >(e) && final(store).values() == old(store).values(),
    {
        proof {
            store.lemma_wf_states();
        }
        match self.try_acquire(store) {
            Err(e) => Err(e),
            Ok(bs) => {
                assert(self.func_of() == self.func);
                assert(forall|x: &mut Values<V>, y: &Vec<Borrow>| self.func.requires((x, y)));
                let ret = store.invoke(&bs, &self.func);
                self.release_all(store, bs);
                Ok(ret)
            },
        }
    }

    /// Borrows for every parameter, calls the function on the values and the
    /// borrows, and gives every borrow back, last first. Every parameter must
    /// be stored and free to borrow in its mode.
    pub fn call<V, Ret>(&self, store: &mut Store<V>) -> (r: Ret)
        where
            F: Fn(&mut Values<V>, &Vec<Borrow>) -> Ret,
        requires
            old(store).wf(),
            acquire_all(old(store).states(), self.signature()) is Ok,
            forall|x: &mut Values<V>, y: &Vec<Borrow>| self.func_of().requires((x, y)),
            forall|x: &mut Values<V>, y: &Vec<Borrow>, z: Ret|
                self.func_of().ensures((x, y), z) ==> final(x)@.len() == x@.len(),
        ensures
            final(store).wf(),
            final(store).layout() == old(store).layout(),
            final(store).states() == old(store).states(),
    {
        proof {
            store.lemma_wf_states();
        }
        let bs = match self.try_acquire(store) {
            Ok(bs) => bs,
            Err(_) => unreached(),
        };
        assert(self.func_of() == self.func);
        assert(forall|x: &mut Values<V>, y: &Vec<Borrow>| self.func.requires((x, y)));
        let ret = store.invoke(&bs, &self.func);
        self.release_all(store, bs);
        ret
    }
}

/// Once borrowing for the first `n` parameters is refused, borrowing for all
/// of them is refused for the same reason.
proof fn lemma_acquire_err_extends(
    states: Map<TypeKey, BorrowState>,
    params: Seq<Param>,
    n: int,
)
    requires
        0 < n <= params.len(),
        acquire_all(states, params.take(n)) is Err,
    ensures
        acquire_all(states, params) == acquire_all(states, params.take(n)),
    decreases params.len() - n,
{
    if n < params.len() {
        assert(params.take(n + 1).take(n) =~= params.take(n));
        lemma_acquire_err_extends(states, params, n + 1);
    } else {
        assert(params.take(n) =~= params);
    }
}

} // verus!
