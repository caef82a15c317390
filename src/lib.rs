//! A type-indexed store of resources whose shared and exclusive borrows are
//! counted at run time, with adapters that borrow a function's parameters in
//! order, call it, and give every borrow back.

pub mod borrow_state;
pub mod fn_resource;
pub mod guard;
pub mod modes;
pub mod resource;
pub mod store;

pub use crate::borrow_state::{BorrowFail, BorrowState};
pub use crate::fn_resource::{FnResource, Param, ParamMode};
pub use crate::guard::{Borrow, Ref, RefMut};
pub use crate::modes::{mode_assignment, mode_assignments, MAX_ARITY};
pub use crate::resource::{Resource, TypeKey, TypeNameLit};
pub use crate::store::{Store, Values};
