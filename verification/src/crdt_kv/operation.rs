//! Operations on the replicated store, and the log that records them.

use vstd::prelude::*;

use super::epoch_max_wins::RateLimitVersion;
use super::replica::ReplicaId;

verus! {

// ---------------------------------------------------------------------------
// Operations
// ---------------------------------------------------------------------------
/// One state change of one key.
#[derive(Debug, PartialEq, Eq, Hash)]
pub enum Operation {
    /// The key has a value.
    Insert { key: String, value: Vec<u8>, timestamp: u64, replica_id: ReplicaId },
    /// The key has no value.
    Remove { key: String, timestamp: u64, replica_id: ReplicaId },
}

/// What an operation says: `value` is `None` for a removal.
#[verifier::ext_equal]
pub struct OperationView {
    pub key: Seq<char>,
    pub value: Option<Seq<u8>>,
    pub version: RateLimitVersion,
}

impl View for Operation {
    type V = OperationView;

    open spec fn view(&self) -> OperationView {
        match self {
            Operation::Insert { key, value, timestamp, replica_id } => OperationView {
                key: key@,
                value: Some(value@),
                version: RateLimitVersion { timestamp: *timestamp, replica_id: *replica_id },
            },
            Operation::Remove { key, timestamp, replica_id } => OperationView {
                key: key@,
                value: None,
                version: RateLimitVersion { timestamp: *timestamp, replica_id: *replica_id },
            },
        }
    }
}

/// A copy of a byte string.
pub fn copy_bytes(bytes: &[u8]) -> (copy: Vec<u8>)
    ensures
        copy@ == bytes@,
{
    vstd::slice::slice_to_vec(bytes)
}

impl Operation {
    /// An insert operation.
    pub fn insert(key: String, value: Vec<u8>, timestamp: u64, replica_id: ReplicaId) -> (op:
        Operation)
        ensures
            op@ == (OperationView {
                key: key@,
                value: Some(value@),
                version: RateLimitVersion { timestamp, replica_id },
            }),
            op is Insert,
    {
        Operation::Insert { key, value, timestamp, replica_id }
    }

    /// A remove operation.
    pub fn remove(key: String, timestamp: u64, replica_id: ReplicaId) -> (op: Operation)
        ensures
            op@ == (OperationView {
                key: key@,
                value: None,
                version: RateLimitVersion { timestamp, replica_id },
            }),
            op is Remove,
    {
        Operation::Remove { key, timestamp, replica_id }
    }

    /// The key of the operation.
    pub fn key(&self) -> (key: &str)
        ensures
            key@ == self@.key,
    {
        match self {
            Operation::Insert { key, .. } => key.as_str(),
            Operation::Remove { key, .. } => key.as_str(),
        }
    }

    /// The timestamp of the operation.
    pub fn timestamp(&self) -> (t: u64)
        ensures
            t == self@.version.timestamp,
    {
        match self {
            Operation::Insert { timestamp, .. } => *timestamp,
            Operation::Remove { timestamp, .. } => *timestamp,
        }
    }

    /// The replica that issued the operation.
    pub fn replica_id(&self) -> (id: ReplicaId)
        ensures
            id == self@.version.replica_id,
    {
        match self {
            Operation::Insert { replica_id, .. } => *replica_id,
            Operation::Remove { replica_id, .. } => *replica_id,
        }
    }

    /// The version of the operation, which also identifies it.
    pub fn version(&self) -> (version: RateLimitVersion)
        ensures
            version == self@.version,
    {
        RateLimitVersion::new(self.timestamp(), self.replica_id())
    }
}

impl Clone for Operation {
    fn clone(&self) -> (op: Operation)
        ensures
            op@ == self@,
    {
        match self {
            Operation::Insert { key, value, timestamp, replica_id } => Operation::Insert {
                key: key.clone(),
                value: copy_bytes(value.as_slice()),
                timestamp: *timestamp,
                replica_id: *replica_id,
            },
            Operation::Remove { key, timestamp, replica_id } => Operation::Remove {
                key: key.clone(),
                timestamp: *timestamp,
                replica_id: *replica_id,
            },
        }
    }
}

} // verus!
