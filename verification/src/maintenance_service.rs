//! The maintenance service: the status of the store, and the calls that an
//! in-memory store answers without doing anything.

use crate::store::Store;
use vstd::prelude::*;

verus! {

/// The version that the service reports; clients ask for 3.5.13 or later
/// before they request progress on watches.
pub open spec fn version() -> Seq<char> {
    "3.5.16"@
}

#[derive(Debug, PartialEq, Eq)]
pub struct StatusResponse {
    /// The revision in the header.
    pub revision: i64,
    pub version: String,
    pub db_size: i64,
    pub db_size_in_use: i64,
}

/// The answer to a call for alarms, which there are none of, or for a
/// defragmentation, which has nothing to do.
#[derive(Debug, PartialEq, Eq)]
pub struct HeaderResponse {
    /// The revision in the header.
    pub revision: i64,
}

/// The calls that the maintenance service does not offer.
#[derive(Copy, Clone, Debug, PartialEq, Eq, Structural)]
pub enum MaintenanceCall {
    Hash,
    HashKv,
    Snapshot,
    MoveLeader,
    Downgrade,
}

impl MaintenanceCall {
    /// The text with which the call is refused as unimplemented.
    pub fn message(&self) -> (m: &'static str)
        ensures
            m@ == match self {
                MaintenanceCall::Hash => "hash not implemented"@,
                MaintenanceCall::HashKv => "hash_kv not implemented"@,
                MaintenanceCall::Snapshot => "snapshot not implemented"@,
                MaintenanceCall::MoveLeader => "move_leader not implemented"@,
                MaintenanceCall::Downgrade => "downgrade not implemented"@,
            },
    {
        match self {
            MaintenanceCall::Hash => "hash not implemented",
            MaintenanceCall::HashKv => "hash_kv not implemented",
            MaintenanceCall::Snapshot => "snapshot not implemented",
            MaintenanceCall::MoveLeader => "move_leader not implemented",
            MaintenanceCall::Downgrade => "downgrade not implemented",
        }
    }
}

pub struct MaintenanceService;

impl MaintenanceService {
    /// The status of the store: its revision, the version of the service,
    /// and as the size of the database the number of bytes of values held
    /// in memory, which the caller counts.
    pub fn status(store: &Store, value_bytes: i64) -> (r: StatusResponse)
        requires
            store.wf(),
        ensures
            r.revision == store@.latest(),
            r.version@ == version(),
            r.db_size == value_bytes,
            r.db_size_in_use == value_bytes,
    {
        StatusResponse {
            revision: store.current_revision(),
            version: "3.5.16".to_string(),
            db_size: value_bytes,
            db_size_in_use: value_bytes,
        }
    }

    /// The answer to a call for alarms: none, at the current revision.
    pub fn alarm(store: &Store) -> (r: HeaderResponse)
        requires
            store.wf(),
        ensures
            r.revision == store@.latest(),
    {
        HeaderResponse { revision: store.current_revision() }
    }

    /// The answer to a call for defragmentation: done, at the current
    /// revision.
    pub fn defragment(store: &Store) -> (r: HeaderResponse)
        requires
            store.wf(),
        ensures
            r.revision == store@.latest(),
    {
        HeaderResponse { revision: store.current_revision() }
    }
}

} // verus!
