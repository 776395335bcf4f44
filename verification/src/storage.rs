//! The storage abstraction: column families, the operations of a multi-context
//! batch, and the storage handle's pure entry points.

use vstd::prelude::*;
use crate::commit::{BatchCommit, CommitState};
use crate::costs::{CostContext, OperationCost};
use crate::prefix::{path_view, prefix_digest, subtree_prefix};

verus! {

/// The four independent key spaces of the backend.
#[derive(Clone, Copy, Debug, PartialEq, Eq, Structural)]
pub enum ColumnFamily {
    /// Tree nodes.
    Main,
    /// Data of the caller.
    Aux,
    /// Leaves of the grove-level root.
    Roots,
    /// Metadata of the engine.
    Meta,
}

/// The name of the auxiliary column family.
pub const AUX_CF_NAME: &'static str = "aux";

/// The name of the roots column family.
pub const ROOTS_CF_NAME: &'static str = "roots";

/// The name of the metadata column family.
pub const META_CF_NAME: &'static str = "meta";

impl ColumnFamily {
    /// The name under which the backend knows the column family; the main one
    /// is the backend's default and has none.
    pub fn name(&self) -> (name: Option<&'static str>)
        ensures
            name == match *self {
                ColumnFamily::Main => None,
                ColumnFamily::Aux => Some(AUX_CF_NAME),
                ColumnFamily::Roots => Some(ROOTS_CF_NAME),
                ColumnFamily::Meta => Some(META_CF_NAME),
            },
    {
        match self {
            ColumnFamily::Main => None,
            ColumnFamily::Aux => Some(AUX_CF_NAME),
            ColumnFamily::Roots => Some(ROOTS_CF_NAME),
            ColumnFamily::Meta => Some(META_CF_NAME),
        }
    }
}

/// A failure reported by the backend.
#[derive(Debug, PartialEq, Eq)]
pub struct StorageError {
    /// What the backend said.
    pub message: String,
}

impl Clone for StorageError {
    fn clone(&self) -> (copy: Self)
        ensures
            copy == *self,
    {
        StorageError { message: self.message.clone() }
    }
}

/// A copy of a byte string.
pub fn clone_bytes(bytes: &Vec<u8>) -> (copy: Vec<u8>)
    ensures
        copy@ == bytes@,
{
    let copy = bytes.clone();
    assert(copy@ =~= bytes@);
    copy
}

/// One write of a batch, as a plain value: where it goes, under which key, and
/// the bytes to store (`None` for a deletion).
pub struct BackendWrite {
    pub column_family: ColumnFamily,
    pub key: Seq<u8>,
    pub value: Option<Seq<u8>>,
}

/// One operation of a storage batch.
#[derive(Clone, Debug, PartialEq, Eq)]
pub enum BatchOperation {
    /// Store a value in the main column family.
    Put { key: Vec<u8>, value: Vec<u8> },
    /// Store a value in the auxiliary column family.
    PutAux { key: Vec<u8>, value: Vec<u8> },
    /// Store a value in the roots column family.
    PutRoot { key: Vec<u8>, value: Vec<u8> },
    /// Store a value in the metadata column family.
    PutMeta { key: Vec<u8>, value: Vec<u8> },
    /// Delete a key of the main column family.
    Delete { key: Vec<u8> },
    /// Delete a key of the auxiliary column family.
    DeleteAux { key: Vec<u8> },
    /// Delete a key of the roots column family.
    DeleteRoot { key: Vec<u8> },
    /// Delete a key of the metadata column family.
    DeleteMeta { key: Vec<u8> },
}

impl View for BatchOperation {
    type V = BackendWrite;

    open spec fn view(&self) -> BackendWrite {
        match *self {
            BatchOperation::Put { key, value } => BackendWrite {
                column_family: ColumnFamily::Main,
                key: key@,
                value: Some(value@),
            },
            BatchOperation::PutAux { key, value } => BackendWrite {
                column_family: ColumnFamily::Aux,
                key: key@,
                value: Some(value@),
            },
            BatchOperation::PutRoot { key, value } => BackendWrite {
                column_family: ColumnFamily::Roots,
                key: key@,
                value: Some(value@),
            },
            BatchOperation::PutMeta { key, value } => BackendWrite {
                column_family: ColumnFamily::Meta,
                key: key@,
                value: Some(value@),
            },
            BatchOperation::Delete { key } => BackendWrite {
                column_family: ColumnFamily::Main,
                key: key@,
                value: None,
            },
            BatchOperation::DeleteAux { key } => BackendWrite {
                column_family: ColumnFamily::Aux,
                key: key@,
                value: None,
            },
            BatchOperation::DeleteRoot { key } => BackendWrite {
                column_family: ColumnFamily::Roots,
                key: key@,
                value: None,
            },
            BatchOperation::DeleteMeta { key } => BackendWrite {
                column_family: ColumnFamily::Meta,
                key: key@,
                value: None,
            },
        }
    }
}

impl BatchOperation {
    /// The column family that the operation writes to.
    pub fn column_family(&self) -> (column_family: ColumnFamily)
        ensures
            column_family == self@.column_family,
    {
        match self {
            BatchOperation::Put { .. } | BatchOperation::Delete { .. } => ColumnFamily::Main,
            BatchOperation::PutAux { .. } | BatchOperation::DeleteAux { .. } => ColumnFamily::Aux,
            BatchOperation::PutRoot { .. } | BatchOperation::DeleteRoot { .. } => {
                ColumnFamily::Roots
            },
            BatchOperation::PutMeta { .. } | BatchOperation::DeleteMeta { .. } => {
                ColumnFamily::Meta
            },
        }
    }

    /// The key that the operation writes.
    pub fn key(&self) -> (key: &Vec<u8>)
        ensures
            key@ == self@.key,
    {
        match self {
            BatchOperation::Put { key, .. } => key,
            BatchOperation::PutAux { key, .. } => key,
            BatchOperation::PutRoot { key, .. } => key,
            BatchOperation::PutMeta { key, .. } => key,
            BatchOperation::Delete { key } => key,
            BatchOperation::DeleteAux { key } => key,
            BatchOperation::DeleteRoot { key } => key,
            BatchOperation::DeleteMeta { key } => key,
        }
    }

    /// The bytes that the operation stores, if it stores any.
    pub fn value(&self) -> (value: Option<&Vec<u8>>)
        ensures
            value.is_some() == self@.value.is_some(),
            value matches Some(v) ==> self@.value == Some(v@),
    {
        match self {
            BatchOperation::Put { value, .. } => Some(value),
            BatchOperation::PutAux { value, .. } => Some(value),
            BatchOperation::PutRoot { value, .. } => Some(value),
            BatchOperation::PutMeta { value, .. } => Some(value),
            BatchOperation::Delete { .. } => None,
            BatchOperation::DeleteAux { .. } => None,
            BatchOperation::DeleteRoot { .. } => None,
            BatchOperation::DeleteMeta { .. } => None,
        }
    }
}

/// The operations gathered from several storage contexts, to be committed
/// together.
#[derive(Clone, Debug, PartialEq, Eq)]
pub struct StorageBatch {
    operations: Vec<BatchOperation>,
}

impl View for StorageBatch {
    type V = Seq<BackendWrite>;

    closed spec fn view(&self) -> Seq<BackendWrite> {
        Seq::new(self.operations@.len(), |i: int| self.operations@[i]@)
    }
}

impl StorageBatch {
    /// An empty batch.
    pub fn new() -> (batch: Self)
        ensures
            batch@ == Seq::<BackendWrite>::empty(),
    {
        let batch = StorageBatch { operations: Vec::new() };
        assert(batch@ =~= Seq::<BackendWrite>::empty());
        batch
    }

    /// The number of operations gathered so far.
    pub fn len(&self) -> (len: usize)
        ensures
            len == self@.len(),
    {
        self.operations.len()
    }

    /// Appends an operation.
    pub fn push(&mut self, operation: BatchOperation)
        ensures
            final(self)@ == old(self)@.push(operation@),
    {
        self.operations.push(operation);
        assert(self@ =~= old(self)@.push(operation@));
    }

    /// Appends a put into the main column family.
    pub fn put(&mut self, key: Vec<u8>, value: Vec<u8>)
        ensures
            final(self)@ == old(self)@.push(
                BackendWrite { column_family: ColumnFamily::Main, key: key@, value: Some(value@) },
            ),
    {
        self.push(BatchOperation::Put { key, value });
    }

    /// Appends a put into the auxiliary column family.
    pub fn put_aux(&mut self, key: Vec<u8>, value: Vec<u8>)
        ensures
            final(self)@ == old(self)@.push(
                BackendWrite { column_family: ColumnFamily::Aux, key: key@, value: Some(value@) },
            ),
    {
        self.push(BatchOperation::PutAux { key, value });
    }

    /// Appends a put into the roots column family.
    pub fn put_root(&mut self, key: Vec<u8>, value: Vec<u8>)
        ensures
            final(self)@ == old(self)@.push(
                BackendWrite { column_family: ColumnFamily::Roots, key: key@, value: Some(value@) },
            ),
    {
        self.push(BatchOperation::PutRoot { key, value });
    }

    /// Appends a put into the metadata column family.
    pub fn put_meta(&mut self, key: Vec<u8>, value: Vec<u8>)
        ensures
            final(self)@ == old(self)@.push(
                BackendWrite { column_family: ColumnFamily::Meta, key: key@, value: Some(value@) },
            ),
    {
        self.push(BatchOperation::PutMeta { key, value });
    }

    /// Appends a deletion from the main column family.
    pub fn delete(&mut self, key: Vec<u8>)
        ensures
            final(self)@ == old(self)@.push(
                BackendWrite { column_family: ColumnFamily::Main, key: key@, value: None },
            ),
    {
        self.push(BatchOperation::Delete { key });
    }

    /// Appends a deletion from the auxiliary column family.
    pub fn delete_aux(&mut self, key: Vec<u8>)
        ensures
            final(self)@ == old(self)@.push(
                BackendWrite { column_family: ColumnFamily::Aux, key: key@, value: None },
            ),
    {
        self.push(BatchOperation::DeleteAux { key });
    }

    /// Appends a deletion from the roots column family.
    pub fn delete_root(&mut self, key: Vec<u8>)
        ensures
            final(self)@ == old(self)@.push(
                BackendWrite { column_family: ColumnFamily::Roots, key: key@, value: None },
            ),
    {
        self.push(BatchOperation::DeleteRoot { key });
    }

    /// Appends a deletion from the metadata column family.
    pub fn delete_meta(&mut self, key: Vec<u8>)
        ensures
            final(self)@ == old(self)@.push(
                BackendWrite { column_family: ColumnFamily::Meta, key: key@, value: None },
            ),
    {
        self.push(BatchOperation::DeleteMeta { key });
    }

    /// Appends the operations of `other`, in their order.
    pub fn merge(&mut self, other: StorageBatch)
        ensures
            final(self)@ == old(self)@ + other@,
    {
        let mut rest = other.operations;
        self.operations.append(&mut rest);
        assert(self@ =~= old(self)@ + other@);
    }

    /// Hands out the operations, in their order.
    pub fn into_operations(self) -> (operations: Vec<BatchOperation>)
        ensures
            operations@.len() == self@.len(),
            forall|i: int| 0 <= i < operations@.len() ==> (#[trigger] operations@[i])@ == self@[i],
    {
        self.operations
    }
}

/// The decisions of the storage handle over an ordered key-value backend:
/// where a subtree's records live, and how a batch is committed. Whoever owns
/// the database carries out what is decided here.
#[derive(Clone, Copy, Debug, PartialEq, Eq, Structural)]
pub struct RocksDbStorage {}

impl RocksDbStorage {
    /// The prefix of the backend keys of the subtree at `path`, which also
    /// names the subtree among the open ones. Costs one node hash.
    pub fn build_prefix(path: &[&[u8]]) -> (prefix: CostContext<Vec<u8>>)
        ensures
            prefix.value@ == subtree_prefix(path_view(path@)),
            prefix.value@.len() == 32,
            prefix.cost == (OperationCost { hash_node_calls: 1, ..OperationCost::none() }),
    {
        CostContext::wrap_with_cost(prefix_digest(path), OperationCost::with_hash_node_calls(1))
    }

    /// Plans the commit of `batch` straight to the database: the operations
    /// are queued one by one and written at once.
    pub fn commit_multi_context_batch(batch: StorageBatch) -> (commit: BatchCommit)
        ensures
            commit@ == CommitState::planned(batch@, false),
    {
        BatchCommit::new(batch, false)
    }

    /// Plans the commit of `batch` into a transaction: a savepoint first,
    /// then the operations one by one, and back to the savepoint if one fails.
    pub fn commit_multi_context_batch_with_transaction(batch: StorageBatch) -> (commit:
        BatchCommit)
        ensures
            commit@ == CommitState::planned(batch@, true),
    {
        BatchCommit::new(batch, true)
    }
}

} // verus!
