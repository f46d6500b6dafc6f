//! The shared protocol-version cell: one per connection, owned jointly by
//! the reader and writer halves, read on every encode and decode call and
//! written once by the version-negotiation handshake. Reads vastly
//! outnumber writes, so the cell is a reader-writer lock.

use vstd::prelude::*;
use std::sync::Arc;
use crate::frame::RespVersion;

verus! {

#[verifier::external_type_specification]
#[verifier::external_body]
#[verifier::reject_recursive_types(R)]
#[verifier::reject_recursive_types(T)]
pub struct ExRwLock<R, T: ?Sized>(lock_api::RwLock<R, T>);

#[verifier::external_type_specification]
#[verifier::external_body]
pub struct ExRawRwLock(parking_lot::RawRwLock);

/// A fresh shared version cell holding `v`.
///
/// Relies on parking_lot::RwLock::new and std's Arc::new: building the cell
/// performs no other effect.
#[verifier::external_body]
pub fn new_shared_version(v: RespVersion) -> (r: Arc<parking_lot::RwLock<RespVersion>>) {
    Arc::new(parking_lot::RwLock::new(v))
}

/// Another handle on the same cell.
///
/// Relies on std's Arc::clone: the clone refers to the same cell.
#[verifier::external_body]
pub fn clone_shared_version(
    cell: &Arc<parking_lot::RwLock<RespVersion>>,
) -> (r: Arc<parking_lot::RwLock<RespVersion>>) {
    Arc::clone(cell)
}

/// The version the cell holds at this moment. A concurrent negotiation may
/// write the cell at any time, so nothing relates two reads; every caller
/// must be correct for either version read.
///
/// Relies on parking_lot::RwLock::read: the guard derefs to the stored
/// value, and the read lock is released when the guard drops.
#[verifier::external_body]
pub fn read_version(cell: &Arc<parking_lot::RwLock<RespVersion>>) -> (r: RespVersion) {
    *cell.read()
}

/// Store a newly negotiated version in the cell.
///
/// Relies on parking_lot::RwLock::write: the guard gives exclusive access
/// while held and is released when it drops.
#[verifier::external_body]
pub fn write_version(cell: &Arc<parking_lot::RwLock<RespVersion>>, v: RespVersion) {
    *cell.write() = v;
}

} // verus!
