use vstd::prelude::*;

verus! {

/// Identity of a stored type. Two keys are equal exactly when they stand for
/// the same type; the store is indexed by them.
#[derive(Clone, Copy, Debug, PartialEq, Eq, Hash, Structural)]
pub struct TypeKey {
    pub id: u64,
}

impl TypeKey {
    pub fn new(id: u64) -> (k: TypeKey)
        ensures
            k.id == id,
    {
        TypeKey { id }
    }
}

/// The name of a stored type, for people to read.
pub struct TypeNameLit {
    name: &'static str,
}

impl TypeNameLit {
    pub fn new(name: &'static str) -> (r: TypeNameLit)
        ensures
            r.view() == name@,
    {
        TypeNameLit { name }
    }

    pub closed spec fn view(&self) -> Seq<char> {
        self.name@
    }

    pub fn as_str(&self) -> (r: &'static str)
        ensures
            r@ == self.view(),
    {
        self.name
    }
}

/// What every storable value offers: it can be sent to another thread, it
/// tells the key of its own type, and it can name that type.
pub trait Resource: Send {
    fn type_key(&self) -> TypeKey;

    fn resource_name(&self) -> TypeNameLit;
}

} // verus!
