use stateman::{BorrowFail, Resource, Store, TypeKey, TypeNameLit};

#[derive(Debug, Clone, PartialEq)]
enum Res {
    A(usize),
    B(usize),
}

impl Resource for Res {
    fn type_key(&self) -> TypeKey {
        match self {
            Res::A(_) => TypeKey::new(1),
            Res::B(_) => TypeKey::new(2),
        }
    }

    fn resource_name(&self) -> TypeNameLit {
        match self {
            Res::A(_) => TypeNameLit::new("A"),
            Res::B(_) => TypeNameLit::new("B"),
        }
    }
}

fn key_a() -> TypeKey {
    TypeKey::new(1)
}

fn key_b() -> TypeKey {
    TypeKey::new(2)
}

#[test]
fn insert_returns_key_and_stores_value() {
    let mut store = Store::new();
    assert!(!store.contains(key_a()));
    assert_eq!(store.insert(Res::A(1)), key_a());
    assert!(store.contains(key_a()));
    assert!(!store.contains(key_b()));
    let r = store.borrow_shared(key_a());
    assert_eq!(store.get(&r), &Res::A(1));
}

#[test]
fn insert_replaces_prior_value() {
    let mut store = Store::new();
    store.insert(Res::A(1));
    store.insert(Res::B(2));
    store.insert(Res::A(7));
    let r = store.borrow_shared(key_a());
    assert_eq!(store.get(&r), &Res::A(7));
    assert_eq!(store.values_of().len(), 2);
}

#[test]
fn remove_takes_value_out() {
    let mut store = Store::new();
    store.insert(Res::A(1));
    store.insert(Res::B(2));
    assert_eq!(store.remove(key_a()), Some(Res::A(1)));
    assert_eq!(store.remove(key_a()), None);
    assert!(!store.contains(key_a()));
    let r = store.borrow_shared(key_b());
    assert_eq!(store.get(&r), &Res::B(2));
}

#[test]
fn empty_store_reports_absent_resource() {
    let mut store: Store<Res> = Store::new();
    assert_eq!(store.try_borrow_shared(key_a()).unwrap_err(), BorrowFail::ValueNotFound);
    assert_eq!(store.try_borrow_exclusive(key_a()).unwrap_err(), BorrowFail::ValueNotFound);
}

#[test]
fn exclusive_guard_refuses_other_borrows_and_is_unaffected() {
    let mut store = Store::new();
    store.insert(Res::A(1));
    let w = store.try_borrow_exclusive(key_a()).unwrap();
    assert_eq!(store.try_borrow_shared(key_a()).unwrap_err(), BorrowFail::BorrowConflictImm);
    assert_eq!(store.try_borrow_exclusive(key_a()).unwrap_err(), BorrowFail::BorrowConflictMut);
    assert_eq!(store.get_mut(&w), &mut Res::A(1));
    *store.get_mut(&w) = Res::A(4);
    store.release_exclusive(w);
    let r = store.try_borrow_shared(key_a()).unwrap();
    assert_eq!(store.get(&r), &Res::A(4));
}

#[test]
fn many_shared_borrows_coexist() {
    let mut store = Store::new();
    store.insert(Res::A(1));
    let mut held = Vec::new();
    for _ in 0..100 {
        held.push(store.try_borrow_shared(key_a()).unwrap());
    }
    for r in held.iter() {
        assert_eq!(store.get(r), &Res::A(1));
    }
    assert_eq!(store.try_borrow_exclusive(key_a()).unwrap_err(), BorrowFail::BorrowConflictMut);
    for r in held {
        store.release_shared(r);
    }
    assert!(store.try_borrow_exclusive(key_a()).is_ok());
}

#[test]
fn each_release_gives_back_exactly_one_borrow() {
    let mut store = Store::new();
    store.insert(Res::A(1));
    let r0 = store.borrow_shared(key_a());
    let r1 = store.borrow_shared(key_a());
    store.release_shared(r0);
    assert_eq!(store.try_borrow_exclusive(key_a()).unwrap_err(), BorrowFail::BorrowConflictMut);
    store.release_shared(r1);
    let w = store.try_borrow_exclusive(key_a()).unwrap();
    store.release_exclusive(w);
    let w = store.try_borrow_exclusive(key_a()).unwrap();
    store.release(stateman::Borrow::Exclusive(w));
    assert!(store.try_borrow_shared(key_a()).is_ok());
}

#[test]
fn exclusive_borrow_of_one_key_leaves_others_free() {
    let mut store = Store::new();
    store.insert(Res::A(1));
    store.insert(Res::B(2));
    let _w = store.borrow_exclusive(key_a());
    let r = store.try_borrow_shared(key_b()).unwrap();
    store.release_shared(r);
    let w_b = store.try_borrow_exclusive(key_b()).unwrap();
    assert_eq!(store.get_mut(&w_b), &mut Res::B(2));
}

#[test]
fn resource_names_its_type() {
    assert_eq!(Res::A(1).resource_name().as_str(), "A");
    assert_eq!(Res::B(1).type_key(), key_b());
    assert_eq!(TypeKey::new(9).id, 9);
}
