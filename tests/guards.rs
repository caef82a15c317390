use stateman::{Resource, Store, TypeKey, TypeNameLit};

#[derive(Debug, Clone, PartialEq)]
struct A(usize);

impl Resource for A {
    fn type_key(&self) -> TypeKey {
        TypeKey::new(1)
    }

    fn resource_name(&self) -> TypeNameLit {
        TypeNameLit::new("A")
    }
}

fn key_a() -> TypeKey {
    TypeKey::new(1)
}

#[test]
fn ref_partial_eq_compares_value() {
    let mut store_0 = Store::new();
    store_0.insert(A(1));
    let ref_0 = store_0.borrow_shared(key_a());

    let mut store_1 = Store::new();
    store_1.insert(A(1));
    let ref_1 = store_1.borrow_shared(key_a());

    assert_eq!(store_1.get(&ref_1), store_0.get(&ref_0));
    let ref_2 = store_0.borrow_shared(key_a());
    assert_eq!(store_0.get(&ref_2), store_0.get(&ref_0));
}

#[test]
fn ref_mut_partial_eq_compares_value() {
    let mut store_0 = Store::new();
    store_0.insert(A(1));
    let ref_mut_0 = store_0.borrow_exclusive(key_a());

    let mut store_1 = Store::new();
    store_1.insert(A(1));
    let ref_mut_1 = store_1.borrow_exclusive(key_a());

    assert_eq!(store_1.get_mut(&ref_mut_1), store_0.get_mut(&ref_mut_0));
}

#[test]
fn deref_mut_returns_value() {
    let mut store = Store::new();
    store.insert(A(1));
    let ref_mut = store.borrow_exclusive(key_a());

    assert_eq!(&mut A(1), store.get_mut(&ref_mut));

    store.get_mut(&ref_mut).0 = 2;

    assert_eq!(&mut A(2), store.get_mut(&ref_mut));
}

#[test]
fn guard_reports_its_key_and_slot() {
    let mut store = Store::new();
    store.insert(A(5));
    let r = store.borrow_shared(key_a());
    assert_eq!(r.key(), key_a());
    assert_eq!(r.slot(), 0);
    assert_eq!(store.values_of().get(&r), &A(5));
    assert_eq!(store.values_of().len(), 1);
}
