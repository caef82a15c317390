use std::cell::Cell;

use stateman::{
    mode_assignments, Borrow, BorrowFail, FnResource, Param, ParamMode, Resource, Store, TypeKey,
    TypeNameLit, Values, MAX_ARITY,
};

#[derive(Debug, Clone, PartialEq)]
enum Res {
    A(usize),
    B(usize),
    C(usize),
    N(u64, usize),
}

impl Resource for Res {
    fn type_key(&self) -> TypeKey {
        match self {
            Res::A(_) => TypeKey::new(1),
            Res::B(_) => TypeKey::new(2),
            Res::C(_) => TypeKey::new(3),
            Res::N(k, _) => TypeKey::new(100 + *k),
        }
    }

    fn resource_name(&self) -> TypeNameLit {
        TypeNameLit::new("Res")
    }
}

fn key_a() -> TypeKey {
    TypeKey::new(1)
}

fn key_b() -> TypeKey {
    TypeKey::new(2)
}

fn key_c() -> TypeKey {
    TypeKey::new(3)
}

fn number(r: &Res) -> usize {
    match r {
        Res::A(n) | Res::B(n) | Res::C(n) | Res::N(_, n) => *n,
    }
}

fn number_mut(r: &mut Res) -> &mut usize {
    match r {
        Res::A(n) | Res::B(n) | Res::C(n) | Res::N(_, n) => n,
    }
}

fn read(store: &mut Store<Res>, key: TypeKey) -> usize {
    let r = store.borrow_shared(key);
    let n = number(store.get(&r));
    store.release_shared(r);
    n
}

#[test]
fn exclusive_then_shared_adds_into_the_first() {
    let mut store = Store::new();
    store.insert(Res::A(1));
    store.insert(Res::B(2));
    let f = FnResource::new(
        |values: &mut Values<Res>, args: &Vec<Borrow>| {
            let b = number(values.arg(&args[1]));
            match &args[0] {
                Borrow::Exclusive(a) => *number_mut(values.get_mut(a)) += b,
                Borrow::Shared(_) => panic!("the first parameter is exclusive"),
            }
            b * 10
        },
        vec![Param::exclusive(key_a()), Param::shared(key_b())],
    );
    assert_eq!(f.call(&mut store), 20);
    assert_eq!(read(&mut store, key_a()), 3);
    assert_eq!(read(&mut store, key_b()), 2);
    assert!(store.try_borrow_exclusive(key_a()).is_ok());
    assert!(store.try_borrow_exclusive(key_b()).is_ok());
}

#[test]
fn try_call_succeeds_and_gives_every_borrow_back() {
    let mut store = Store::new();
    store.insert(Res::A(1));
    store.insert(Res::B(2));
    let f = FnResource::new(
        |values: &mut Values<Res>, args: &Vec<Borrow>| number(values.arg(&args[0])) + number(values.arg(&args[1])),
        vec![Param::shared(key_a()), Param::shared(key_b())],
    );
    assert_eq!(f.try_call(&mut store), Ok(3));
    assert!(store.try_borrow_exclusive(key_a()).is_ok());
    assert!(store.try_borrow_exclusive(key_b()).is_ok());
}

#[test]
fn try_call_stops_at_a_conflict_and_leaks_nothing() {
    let mut store = Store::new();
    store.insert(Res::A(1));
    store.insert(Res::B(2));
    store.insert(Res::C(3));
    let held = store.borrow_exclusive(key_c());
    let calls = Cell::new(0);
    let f = FnResource::new(
        |_values: &mut Values<Res>, _args: &Vec<Borrow>| calls.set(calls.get() + 1),
        vec![Param::shared(key_a()), Param::exclusive(key_b()), Param::shared(key_c())],
    );
    assert_eq!(f.try_call(&mut store), Err(BorrowFail::BorrowConflictImm));
    assert_eq!(calls.get(), 0);
    assert!(store.try_borrow_exclusive(key_a()).is_ok());
    assert!(store.try_borrow_exclusive(key_b()).is_ok());
    assert_eq!(store.get_mut(&held), &mut Res::C(3));
}

#[test]
fn try_call_reports_an_absent_resource() {
    let mut store = Store::new();
    store.insert(Res::A(1));
    let f = FnResource::new(
        |_values: &mut Values<Res>, _args: &Vec<Borrow>| 0,
        vec![Param::exclusive(key_a()), Param::shared(key_b())],
    );
    assert_eq!(f.try_call(&mut store), Err(BorrowFail::ValueNotFound));
    assert!(store.try_borrow_exclusive(key_a()).is_ok());
}

#[test]
fn one_key_twice_exclusively_conflicts_with_itself() {
    let mut store = Store::new();
    store.insert(Res::A(1));
    let f = FnResource::new(
        |_values: &mut Values<Res>, _args: &Vec<Borrow>| 0,
        vec![Param::exclusive(key_a()), Param::exclusive(key_a())],
    );
    assert_eq!(f.try_call(&mut store), Err(BorrowFail::BorrowConflictMut));
    assert!(store.try_borrow_exclusive(key_a()).is_ok());
}

#[test]
fn every_shape_up_to_the_largest_arity_is_called_in_order() {
    for n in 1..=MAX_ARITY {
        for modes in mode_assignments(n) {
            let mut store = Store::new();
            for k in 0..n {
                store.insert(Res::N(k as u64, 10 * k));
            }
            let params: Vec<Param> = modes
                .iter()
                .enumerate()
                .map(|(k, m)| Param { key: TypeKey::new(100 + k as u64), mode: *m })
                .collect();
            let expected = modes.clone();
            let f = FnResource::new(
                move |values: &mut Values<Res>, args: &Vec<Borrow>| {
                    assert_eq!(args.len(), expected.len());
                    let mut seen = 0;
                    for (k, b) in args.iter().enumerate() {
                        assert_eq!(b.key(), TypeKey::new(100 + k as u64));
                        match (b, expected[k]) {
                            (Borrow::Shared(r), ParamMode::Shared) => {
                                assert_eq!(values.get(r), &Res::N(k as u64, 10 * k));
                            }
                            (Borrow::Exclusive(w), ParamMode::Exclusive) => {
                                *number_mut(values.get_mut(w)) += 1;
                            }
                            _ => panic!("borrow of the wrong kind"),
                        }
                        seen += 1;
                    }
                    seen
                },
                params,
            );
            assert_eq!(f.try_call(&mut store), Ok(n));
            for (k, m) in modes.iter().enumerate() {
                let bump = if *m == ParamMode::Exclusive { 1 } else { 0 };
                assert_eq!(read(&mut store, TypeKey::new(100 + k as u64)), 10 * k + bump);
                assert!(store.try_borrow_exclusive(TypeKey::new(100 + k as u64)).is_ok());
            }
        }
    }
}

#[test]
fn borrow_lists_follow_parameter_order() {
    let f = FnResource::new(
        |_values: &mut Values<Res>, _args: &Vec<Borrow>| 0,
        vec![Param::exclusive(key_c()), Param::shared(key_a()), Param::exclusive(key_b())],
    );
    assert_eq!(f.borrows(), vec![key_a()]);
    assert_eq!(f.borrow_muts(), vec![key_c(), key_b()]);
    assert_eq!(f.params().len(), 3);
}

#[test]
fn functions_run_together_only_without_a_changed_shared_key() {
    let readers_a = FnResource::new(
        |_values: &mut Values<Res>, _args: &Vec<Borrow>| 0,
        vec![Param::shared(key_a())],
    );
    let readers_ab = FnResource::new(
        |_values: &mut Values<Res>, _args: &Vec<Borrow>| 0,
        vec![Param::shared(key_a()), Param::shared(key_b())],
    );
    let writer_b = FnResource::new(
        |_values: &mut Values<Res>, _args: &Vec<Borrow>| 0,
        vec![Param::exclusive(key_b())],
    );
    let writer_c = FnResource::new(
        |_values: &mut Values<Res>, _args: &Vec<Borrow>| 0,
        vec![Param::exclusive(key_c())],
    );
    assert!(readers_a.may_run_with(&readers_ab));
    assert!(readers_a.may_run_with(&writer_b));
    assert!(!readers_ab.may_run_with(&writer_b));
    assert!(!writer_b.may_run_with(&readers_ab));
    assert!(writer_b.may_run_with(&writer_c));
    assert!(!writer_c.may_run_with(&writer_c));
}

#[test]
fn try_acquire_hands_out_borrows_in_order_and_release_all_returns_them() {
    let mut store = Store::new();
    store.insert(Res::A(1));
    store.insert(Res::B(2));
    let f = FnResource::new(
        |_values: &mut Values<Res>, _args: &Vec<Borrow>| 0,
        vec![Param::shared(key_b()), Param::exclusive(key_a())],
    );
    let taken = f.try_acquire(&mut store).unwrap();
    assert_eq!(taken.len(), 2);
    assert_eq!(taken[0].key(), key_b());
    assert!(matches!(taken[0], Borrow::Shared(_)));
    assert_eq!(taken[1].key(), key_a());
    assert!(matches!(taken[1], Borrow::Exclusive(_)));
    assert_eq!(store.try_borrow_shared(key_a()).unwrap_err(), BorrowFail::BorrowConflictImm);
    f.release_all(&mut store, taken);
    assert!(store.try_borrow_exclusive(key_a()).is_ok());
    assert!(store.try_borrow_exclusive(key_b()).is_ok());
}
