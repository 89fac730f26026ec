//! Kinds of replica and the record of a replica's file manager.

use vstd::prelude::*;

verus! {

/// Where a replica is kept.
#[derive(Clone, Copy, Debug, PartialEq, Eq, Structural)]
pub enum ReplicaType {
    WinterStorage,
    SummerStorage,
    SpringStorage,
}

/// A replica's kind and number.
#[derive(Clone, Copy, Debug, PartialEq, Eq, Structural)]
pub struct FileManager {
    pub replica_type: ReplicaType,
    pub replica_id: u32,
}

/// The backing of an overlay database.
#[derive(Clone, Copy, Debug, PartialEq, Eq, Structural)]
pub struct Database;

} // verus!
