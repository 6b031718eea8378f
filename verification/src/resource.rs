//! Singleton resources: one value per resource kind, independent of
//! entities, guarded by the same borrow discipline as component storages.

use vstd::prelude::*;
use crate::component::BorrowState;

verus! {

/// One stored resource together with its live borrow flag.
pub struct ResourceCell<V> {
    pub(crate) value: V,
    pub(crate) state: BorrowState,
}

/// A shared borrow of a resource, handed out by `World::get_resource`.
///
/// The guard carries a snapshot of the resource value; the reader count of
/// the cell stays raised until `World::release_resource` is called.
#[derive(Debug)]
pub struct Res<V> {
    pub value: V,
}

/// An exclusive borrow of a resource, handed out by
/// `World::get_resource_mut`.
///
/// The guard carries the resource value checked out for mutation; the new
/// value is checked back in, and the cell freed, by
/// `World::release_resource_mut`.
#[derive(Debug)]
pub struct ResMut<V> {
    pub value: V,
}

} // verus!
