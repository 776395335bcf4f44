//! Committing a multi-context batch: the engine decides, step by step, what
//! the backend is asked to do next and what the commit has cost; whoever owns
//! the backend carries the requests out and reports back.

use vstd::prelude::*;
use crate::costs::{CostContext, CostModel, OperationCost, StorageCost, StorageRemovedBytes};
use crate::storage::{
    clone_bytes, BackendWrite, BatchOperation, ColumnFamily, StorageBatch, StorageError,
};

verus! {

/// What the backend holds before a commit: for each key of each column family
/// that is present, the length of its value.
pub type StoredLengths = Map<(ColumnFamily, Seq<u8>), nat>;

/// The length of the value stored under a key, zero where the key is absent.
pub open spec fn stored_length(stored: StoredLengths, column_family: ColumnFamily, key: Seq<u8>)
    -> nat {
    if stored.dom().contains((column_family, key)) {
        stored[(column_family, key)]
    } else {
        0
    }
}

/// The cost of one write against a backend that holds `stored`. A put adds the
/// bytes of its key and value. A deletion seeks once, loads the value that is
/// there and releases the bytes of the key and of that value.
pub open spec fn write_cost(write: BackendWrite, stored: StoredLengths) -> CostModel {
    match write.value {
        Some(value) => CostModel {
            added_bytes: write.key.len() + value.len(),
            ..CostModel::zero()
        },
        None => CostModel {
            seek_count: 1,
            storage_loaded_bytes: stored_length(stored, write.column_family, write.key),
            removed_bytes: write.key.len() + stored_length(stored, write.column_family, write.key),
            ..CostModel::zero()
        },
    }
}

/// The cost of a committed batch: the sum of the costs of its writes, each
/// taken against what the backend held before the commit.
pub open spec fn batch_cost(writes: Seq<BackendWrite>, stored: StoredLengths) -> CostModel
    decreases writes.len(),
{
    if writes.len() == 0 {
        CostModel::zero()
    } else {
        batch_cost(writes.drop_last(), stored).add(write_cost(writes.last(), stored))
    }
}

/// Where a commit stands.
#[derive(Clone, Copy, Debug, PartialEq, Eq, Structural)]
pub enum CommitPhase {
    /// Nothing has been asked of the backend yet.
    Planned,
    /// A savepoint has been asked for.
    Marking,
    /// The put of the current operation has been asked for.
    Putting,
    /// The length of the value that the current operation deletes has been
    /// asked for.
    Reading,
    /// The deletion of the current operation has been asked for.
    Deleting,
    /// The atomic write of the queued operations has been asked for.
    Writing,
    /// After a failure, the return to the savepoint has been asked for.
    Reverting,
    /// The batch is written; its cost is final.
    Committed,
    /// The commit has failed and nothing of the batch is visible.
    RolledBack,
}

/// What the backend is asked to do, as a plain value.
pub enum RequestModel {
    SetSavepoint,
    Put { column_family: ColumnFamily, key: Seq<u8>, value: Seq<u8> },
    ReadLength { column_family: ColumnFamily, key: Seq<u8> },
    Delete { column_family: ColumnFamily, key: Seq<u8> },
    Write,
    RollbackToSavepoint,
    Finished { result: Result<(), StorageError>, cost: CostModel },
}

/// What the backend answers, as a plain value: a failure, or success with the
/// length of the value that was read, if one was asked for and found.
pub type ReplyModel = Result<Option<nat>, StorageError>;

/// The state of a commit, as a plain value.
pub struct CommitState {
    /// The writes of the batch, in their order.
    pub writes: Seq<BackendWrite>,
    /// Whether the writes go to a transaction, each as it is decided, or are
    /// queued and written at once.
    pub transactional: bool,
    pub phase: CommitPhase,
    /// The operation being carried out.
    pub next: nat,
    /// Seeks and loaded bytes so far; once committed, the written and
    /// released bytes too.
    pub cost: CostModel,
    /// Bytes of the puts decided so far, not yet part of the cost.
    pub pending_written: nat,
    /// Bytes of the deletions decided so far, not yet part of the cost.
    pub pending_freed: nat,
    /// The failure that ended the commit, if one did.
    pub failure: Option<StorageError>,
}

impl CommitState {
    /// The state of a commit of which nothing has been asked yet.
    pub open spec fn planned(writes: Seq<BackendWrite>, transactional: bool) -> CommitState {
        CommitState {
            writes,
            transactional,
            phase: CommitPhase::Planned,
            next: 0,
            cost: CostModel::zero(),
            pending_written: 0,
            pending_freed: 0,
            failure: None,
        }
    }

    /// Whether the commit has ended.
    pub open spec fn finished(self) -> bool {
        self.phase == CommitPhase::Committed || self.phase == CommitPhase::RolledBack
    }

    /// What holds of every state that a commit can reach: the position lies
    /// within the batch, and before the commit has succeeded no written or
    /// released byte is part of the cost.
    pub open spec fn valid(self) -> bool {
        &&& self.next <= self.writes.len()
        &&& (self.phase == CommitPhase::Putting ==> self.next < self.writes.len()
            && self.writes[self.next as int].value.is_some())
        &&& (self.phase == CommitPhase::Reading || self.phase == CommitPhase::Deleting
            ==> self.next < self.writes.len() && self.writes[self.next as int].value.is_none())
        &&& (self.phase == CommitPhase::Reverting ==> self.failure.is_some() && self.transactional)
        &&& (self.phase == CommitPhase::RolledBack ==> self.failure.is_some())
        &&& (self.phase == CommitPhase::Committed ==> self.failure.is_none()
            && self.cost.added_bytes == self.pending_written && self.cost.removed_bytes
            == self.pending_freed)
        &&& (self.phase != CommitPhase::Committed ==> self.cost.added_bytes == 0
            && self.cost.removed_bytes == 0)
        &&& self.cost.replaced_bytes == 0
        &&& self.cost.hash_node_calls == 0
    }

    /// Whether the executable state can hold every counter.
    pub open spec fn fits(self) -> bool {
        &&& self.cost.fits()
        &&& self.pending_written <= u64::MAX
        &&& self.pending_freed <= u64::MAX
    }

    /// The outcome that a finished commit reports.
    pub open spec fn outcome(self) -> RequestModel {
        RequestModel::Finished {
            result: match self.failure {
                Some(error) => Err(error),
                None => Ok(()),
            },
            cost: self.cost,
        }
    }

    /// The pending bytes join the cost and the commit ends in success.
    pub open spec fn commit(self) -> (CommitState, RequestModel) {
        let done = CommitState {
            phase: CommitPhase::Committed,
            cost: CostModel {
                added_bytes: self.pending_written,
                removed_bytes: self.pending_freed,
                ..self.cost
            },
            failure: None,
            ..self
        };
        (done, done.outcome())
    }

    /// The commit ends in failure: the pending bytes are dropped, the seeks
    /// and loaded bytes stay.
    pub open spec fn abandon(self, error: StorageError) -> (CommitState, RequestModel) {
        let done = CommitState { phase: CommitPhase::RolledBack, failure: Some(error), ..self };
        (done, done.outcome())
    }

    /// A request has failed: a transactional commit first returns to its
    /// savepoint, another one ends at once.
    pub open spec fn fail(self, error: StorageError) -> (CommitState, RequestModel) {
        if self.transactional {
            (
                CommitState { phase: CommitPhase::Reverting, failure: Some(error), ..self },
                RequestModel::RollbackToSavepoint,
            )
        } else {
            self.abandon(error)
        }
    }

    /// Turns to the operation at `index`. A put counts its bytes as pending
    /// and asks for the put. A deletion counts a seek and asks for the length
    /// of what it deletes. Past the last operation, a transactional commit
    /// has succeeded and another one asks for the atomic write.
    pub open spec fn proceed(self, index: nat) -> (CommitState, RequestModel) {
        if index < self.writes.len() {
            let write = self.writes[index as int];
            match write.value {
                Some(value) => (
                    CommitState {
                        phase: CommitPhase::Putting,
                        next: index,
                        pending_written: self.pending_written + write.key.len() + value.len(),
                        ..self
                    },
                    RequestModel::Put {
                        column_family: write.column_family,
                        key: write.key,
                        value,
                    },
                ),
                None => (
                    CommitState {
                        phase: CommitPhase::Reading,
                        next: index,
                        cost: CostModel { seek_count: self.cost.seek_count + 1, ..self.cost },
                        ..self
                    },
                    RequestModel::ReadLength { column_family: write.column_family, key: write.key },
                ),
            }
        } else if self.transactional {
            CommitState { next: self.writes.len(), ..self }.commit()
        } else {
            (
                CommitState { phase: CommitPhase::Writing, next: self.writes.len(), ..self },
                RequestModel::Write,
            )
        }
    }

    /// The length of the value to delete has arrived: it counts as loaded,
    /// and with the key's bytes as pending release; the deletion is asked for.
    pub open spec fn measured(self, length: nat) -> (CommitState, RequestModel) {
        let write = self.writes[self.next as int];
        (
            CommitState {
                phase: CommitPhase::Deleting,
                cost: CostModel {
                    storage_loaded_bytes: self.cost.storage_loaded_bytes + length,
                    ..self.cost
                },
                pending_freed: self.pending_freed + write.key.len() + length,
                ..self
            },
            RequestModel::Delete { column_family: write.column_family, key: write.key },
        )
    }

    /// The next state and the next request, given the backend's answer to
    /// the last request. The first step takes no answer: the one given is
    /// ignored. A finished commit stays as it is and repeats its outcome.
    pub open spec fn step(self, reply: ReplyModel) -> (CommitState, RequestModel) {
        match self.phase {
            CommitPhase::Planned => if self.transactional {
                (CommitState { phase: CommitPhase::Marking, ..self }, RequestModel::SetSavepoint)
            } else {
                self.proceed(0)
            },
            CommitPhase::Marking => match reply {
                Err(error) => self.abandon(error),
                Ok(_) => self.proceed(0),
            },
            CommitPhase::Putting | CommitPhase::Deleting => match reply {
                Err(error) => self.fail(error),
                Ok(_) => self.proceed(self.next + 1),
            },
            CommitPhase::Reading => match reply {
                Err(error) => self.fail(error),
                Ok(Some(length)) => self.measured(length),
                Ok(None) => self.measured(0),
            },
            CommitPhase::Writing => match reply {
                Err(error) => self.abandon(error),
                Ok(_) => self.commit(),
            },
            CommitPhase::Reverting => match reply {
                Err(error) => self.abandon(error),
                Ok(_) => self.abandon(self.failure.unwrap()),
            },
            CommitPhase::Committed | CommitPhase::RolledBack => (self, self.outcome()),
        }
    }

    /// The answer of a backend that holds `stored` and does not fail.
    pub open spec fn honest_reply(self, stored: StoredLengths) -> ReplyModel {
        if self.phase == CommitPhase::Reading && self.next < self.writes.len() {
            let write = self.writes[self.next as int];
            if stored.dom().contains((write.column_family, write.key)) {
                Ok(Some(stored[(write.column_family, write.key)]))
            } else {
                Ok(None)
            }
        } else {
            Ok(None)
        }
    }

    /// The state after up to `steps` steps against a backend that holds
    /// `stored` and does not fail.
    pub open spec fn drive(self, stored: StoredLengths, steps: nat) -> CommitState
        decreases steps,
    {
        if steps == 0 || self.finished() {
            self
        } else {
            self.step(self.honest_reply(stored)).0.drive(stored, (steps - 1) as nat)
        }
    }
}

/// What the backend is asked to do next.
#[derive(Debug, PartialEq, Eq)]
pub enum BackendRequest {
    /// Mark the point of the transaction to which a failed commit returns.
    SetSavepoint,
    /// Store `value` under `key`.
    Put { column_family: ColumnFamily, key: Vec<u8>, value: Vec<u8> },
    /// Report the length of the value stored under `key`, if there is one.
    ReadLength { column_family: ColumnFamily, key: Vec<u8> },
    /// Delete `key`.
    Delete { column_family: ColumnFamily, key: Vec<u8> },
    /// Write what was queued, all of it or nothing.
    Write,
    /// Undo what the transaction has seen since the savepoint.
    RollbackToSavepoint,
    /// Nothing more: the commit has ended with this result and cost.
    Finished(CostContext<Result<(), StorageError>>),
}

impl View for BackendRequest {
    type V = RequestModel;

    open spec fn view(&self) -> RequestModel {
        match *self {
            BackendRequest::SetSavepoint => RequestModel::SetSavepoint,
            BackendRequest::Put { column_family, key, value } => RequestModel::Put {
                column_family,
                key: key@,
                value: value@,
            },
            BackendRequest::ReadLength { column_family, key } => RequestModel::ReadLength {
                column_family,
                key: key@,
            },
            BackendRequest::Delete { column_family, key } => RequestModel::Delete {
                column_family,
                key: key@,
            },
            BackendRequest::Write => RequestModel::Write,
            BackendRequest::RollbackToSavepoint => RequestModel::RollbackToSavepoint,
            BackendRequest::Finished(outcome) => RequestModel::Finished {
                result: outcome.value,
                cost: outcome.cost@,
            },
        }
    }
}

/// What the backend answers: a failure, or success with the length of the
/// value that was read, if one was asked for and found.
pub type BackendReply = Result<Option<usize>, StorageError>;

/// The answer of the backend as a plain value.
pub open spec fn reply_model(reply: BackendReply) -> ReplyModel {
    match reply {
        Ok(Some(length)) => Ok(Some(length as nat)),
        Ok(None) => Ok(None),
        Err(error) => Err(error),
    }
}

/// A commit in progress.
#[derive(Debug)]
pub struct BatchCommit {
    operations: Vec<BatchOperation>,
    transactional: bool,
    phase: CommitPhase,
    next: usize,
    cost: OperationCost,
    pending_written: u64,
    pending_freed: u64,
    failure: Option<StorageError>,
}

impl View for BatchCommit {
    type V = CommitState;

    closed spec fn view(&self) -> CommitState {
        CommitState {
            writes: Seq::new(self.operations@.len(), |i: int| self.operations@[i]@),
            transactional: self.transactional,
            phase: self.phase,
            next: self.next as nat,
            cost: self.cost@,
            pending_written: self.pending_written as nat,
            pending_freed: self.pending_freed as nat,
            failure: self.failure,
        }
    }
}

impl BatchCommit {
    #[verifier::type_invariant]
    spec fn inv(self) -> bool {
        &&& self@.valid()
        &&& self.cost.storage_cost.removed_bytes == StorageRemovedBytes::of_total(
            self.cost@.removed_bytes,
        )
    }

    /// A commit of `batch` of which nothing has been asked yet.
    pub fn new(batch: StorageBatch, transactional: bool) -> (commit: Self)
        ensures
            commit@ == CommitState::planned(batch@, transactional),
    {
        let operations = batch.into_operations();
        let commit = BatchCommit {
            operations,
            transactional,
            phase: CommitPhase::Planned,
            next: 0,
            cost: OperationCost::default(),
            pending_written: 0,
            pending_freed: 0,
            failure: None,
        };
        assert(commit@.writes =~= batch@);
        commit
    }

    /// Whether the commit has ended.
    pub fn is_finished(&self) -> (finished: bool)
        ensures
            finished == self@.finished(),
    {
        match self.phase {
            CommitPhase::Committed | CommitPhase::RolledBack => true,
            _ => false,
        }
    }

    /// Where the commit stands.
    pub fn phase(&self) -> (phase: CommitPhase)
        ensures
            phase == self@.phase,
    {
        self.phase
    }

    /// The outcome of a finished commit.
    fn report(self) -> (next: (Self, BackendRequest))
        requires
            self@.finished(),
        ensures
            next.0@ == self@,
            next.1@ == self@.outcome(),
            next.1 matches BackendRequest::Finished(outcome)
                && outcome.cost.storage_cost.removed_bytes == StorageRemovedBytes::of_total(
                self@.cost.removed_bytes,
            ),
    {
        proof {
            use_type_invariant(&self);
        }
        let result = match &self.failure {
            Some(error) => Err(error.clone()),
            None => Ok(()),
        };
        let outcome = CostContext::wrap_with_cost(result, self.cost);
        (self, BackendRequest::Finished(outcome))
    }

    /// Ends the commit in success.
    fn commit(self) -> (next: (Self, BackendRequest))
        requires
            !self@.finished(),
        ensures
            next.0@ == self@.commit().0,
            next.1@ == self@.commit().1,
            next.1 matches BackendRequest::Finished(outcome)
                && outcome.cost.storage_cost.removed_bytes == StorageRemovedBytes::of_total(
                self@.pending_freed,
            ),
    {
        proof {
            use_type_invariant(&self);
        }
        let cost = OperationCost {
            seek_count: self.cost.seek_count,
            storage_cost: StorageCost {
                added_bytes: self.pending_written,
                replaced_bytes: self.cost.storage_cost.replaced_bytes,
                removed_bytes: StorageRemovedBytes::from_total(self.pending_freed),
            },
            storage_loaded_bytes: self.cost.storage_loaded_bytes,
            hash_node_calls: self.cost.hash_node_calls,
        };
        let done = BatchCommit {
            operations: self.operations,
            transactional: self.transactional,
            phase: CommitPhase::Committed,
            next: self.next,
            cost,
            pending_written: self.pending_written,
            pending_freed: self.pending_freed,
            failure: None,
        };
        assert(done@.writes =~= self@.writes);
        done.report()
    }

    /// Ends the commit in failure.
    fn abandon(self, error: StorageError) -> (next: (Self, BackendRequest))
        requires
            self@.phase != CommitPhase::Committed,
        ensures
            next.0@ == self@.abandon(error).0,
            next.1@ == self@.abandon(error).1,
            next.1 matches BackendRequest::Finished(outcome)
                && outcome.cost.storage_cost.removed_bytes
                == StorageRemovedBytes::NoStorageRemoval,
    {
        proof {
            use_type_invariant(&self);
        }
        let done = BatchCommit {
            operations: self.operations,
            transactional: self.transactional,
            phase: CommitPhase::RolledBack,
            next: self.next,
            cost: self.cost,
            pending_written: self.pending_written,
            pending_freed: self.pending_freed,
            failure: Some(error),
        };
        assert(done@.writes =~= self@.writes);
        done.report()
    }

    /// Reacts to a failed request.
    fn fail(self, error: StorageError) -> (next: (Self, BackendRequest))
        requires
            self@.phase != CommitPhase::Committed,
        ensures
            next.0@ == self@.fail(error).0,
            next.1@ == self@.fail(error).1,
            next.1 matches BackendRequest::Finished(outcome)
                ==> outcome.cost.storage_cost.removed_bytes
                == StorageRemovedBytes::NoStorageRemoval,
    {
        proof {
            use_type_invariant(&self);
        }
        if self.transactional {
            let reverting = BatchCommit {
                operations: self.operations,
                transactional: self.transactional,
                phase: CommitPhase::Reverting,
                next: self.next,
                cost: self.cost,
                pending_written: self.pending_written,
                pending_freed: self.pending_freed,
                failure: Some(error),
            };
            assert(reverting@.writes =~= self@.writes);
            (reverting, BackendRequest::RollbackToSavepoint)
        } else {
            self.abandon(error)
        }
    }

    /// Turns to the operation at `index`, or to the end of the batch.
    fn proceed(self, index: usize) -> (next: (Self, BackendRequest))
        requires
            !self@.finished(),
            index <= self@.writes.len(),
            self@.proceed(index as nat).0.fits(),
        ensures
            next.0@ == self@.proceed(index as nat).0,
            next.1@ == self@.proceed(index as nat).1,
            next.1 matches BackendRequest::Finished(outcome)
                ==> outcome.cost.storage_cost.removed_bytes == StorageRemovedBytes::of_total(
                outcome.cost@.removed_bytes,
            ),
    {
        proof {
            use_type_invariant(&self);
        }
        if index < self.operations.len() {
            let operation = &self.operations[index];
            let column_family = operation.column_family();
            let key = clone_bytes(operation.key());
            match operation.value() {
                Some(value) => {
                    let value = clone_bytes(value);
                    let pending_written: u64 = self.pending_written + key.len() as u64
                        + value.len() as u64;
                    let putting = BatchCommit {
                        operations: self.operations,
                        transactional: self.transactional,
                        phase: CommitPhase::Putting,
                        next: index,
                        cost: self.cost,
                        pending_written,
                        pending_freed: self.pending_freed,
                        failure: self.failure,
                    };
                    assert(putting@.writes =~= self@.writes);
                    (putting, BackendRequest::Put { column_family, key, value })
                },
                None => {
                    let mut cost = self.cost;
                    cost.seek_count = cost.seek_count + 1;
                    let reading = BatchCommit {
                        operations: self.operations,
                        transactional: self.transactional,
                        phase: CommitPhase::Reading,
                        next: index,
                        cost,
                        pending_written: self.pending_written,
                        pending_freed: self.pending_freed,
                        failure: self.failure,
                    };
                    assert(reading@.writes =~= self@.writes);
                    (reading, BackendRequest::ReadLength { column_family, key })
                },
            }
        } else {
            let phase = if self.transactional {
                CommitPhase::Marking
            } else {
                CommitPhase::Writing
            };
            let transactional = self.transactional;
            let at_end = BatchCommit {
                operations: self.operations,
                transactional: self.transactional,
                phase,
                next: index,
                cost: self.cost,
                pending_written: self.pending_written,
                pending_freed: self.pending_freed,
                failure: self.failure,
            };
            assert(at_end@.writes =~= self@.writes);
            if transactional {
                at_end.commit()
            } else {
                (at_end, BackendRequest::Write)
            }
        }
    }

    /// Takes in the length of the value that the current operation deletes.
    fn measured(self, length: usize) -> (next: (Self, BackendRequest))
        requires
            self@.phase == CommitPhase::Reading,
            self@.measured(length as nat).0.fits(),
        ensures
            next.0@ == self@.measured(length as nat).0,
            next.1@ == self@.measured(length as nat).1,
    {
        proof {
            use_type_invariant(&self);
        }
        let operation = &self.operations[self.next];
        let column_family = operation.column_family();
        let key = clone_bytes(operation.key());
        let mut cost = self.cost;
        cost.storage_loaded_bytes = cost.storage_loaded_bytes + length as u64;
        let pending_freed: u64 = self.pending_freed + key.len() as u64 + length as u64;
        let deleting = BatchCommit {
            operations: self.operations,
            transactional: self.transactional,
            phase: CommitPhase::Deleting,
            next: self.next,
            cost,
            pending_written: self.pending_written,
            pending_freed,
            failure: self.failure,
        };
        assert(deleting@.writes =~= self@.writes);
        (deleting, BackendRequest::Delete { column_family, key })
    }

    /// Whether the counters can hold what the step on `reply` adds to them.
    pub fn accepts(&self, reply: &BackendReply) -> (accepted: bool)
        ensures
            accepted == self@.step(reply_model(*reply)).0.fits(),
    {
        proof {
            use_type_invariant(self);
        }
        let turn_to: Option<usize> = match self.phase {
            CommitPhase::Planned => if self.transactional {
                None
            } else {
                Some(0)
            },
            CommitPhase::Marking => if reply.is_ok() {
                Some(0)
            } else {
                None
            },
            CommitPhase::Putting | CommitPhase::Deleting => if reply.is_ok() {
                assert(self@.writes.len() == self.operations@.len());
                    assert(self.next < self.operations.len());
                Some(self.next + 1)
            } else {
                None
            },
            _ => None,
        };
        match turn_to {
            Some(index) => {
                if index < self.operations.len() {
                    let operation = &self.operations[index];
                    match operation.value() {
                        Some(value) => {
                            self.pending_written as u128 + operation.key().len() as u128
                                + value.len() as u128 <= u64::MAX as u128
                        },
                        None => self.cost.seek_count < u64::MAX,
                    }
                } else {
                    true
                }
            },
            None => match self.phase {
                CommitPhase::Reading => match reply {
                    Ok(found) => {
                        let length: usize = match found {
                            Some(length) => *length,
                            None => 0,
                        };
                        let key_length: usize = self.operations[self.next].key().len();
                        self.cost.storage_loaded_bytes as u128 + length as u128 <= u64::MAX as u128
                            && self.pending_freed as u128 + key_length as u128 + length as u128
                            <= u64::MAX as u128
                    },
                    Err(_) => true,
                },
                _ => true,
            },
        }
    }

    /// Takes the backend's answer to the last request and decides the next
    /// one. The first step takes no answer: the one given is ignored. Once the
    /// result is `Finished`, the commit is over; further steps repeat it.
    pub fn step(self, reply: BackendReply) -> (next: (Self, BackendRequest))
        requires
            self@.step(reply_model(reply)).0.fits(),
        ensures
            next.0@ == self@.step(reply_model(reply)).0,
            next.1@ == self@.step(reply_model(reply)).1,
            next.0@.valid(),
            next.1 matches BackendRequest::Finished(outcome)
                ==> outcome.cost.storage_cost.removed_bytes == StorageRemovedBytes::of_total(
                outcome.cost@.removed_bytes,
            ),
    {
        proof {
            use_type_invariant(&self);
        }
        let next = match self.phase {
            CommitPhase::Planned => {
                if self.transactional {
                    let marking = BatchCommit {
                        operations: self.operations,
                        transactional: self.transactional,
                        phase: CommitPhase::Marking,
                        next: self.next,
                        cost: self.cost,
                        pending_written: self.pending_written,
                        pending_freed: self.pending_freed,
                        failure: self.failure,
                    };
                    assert(marking@.writes =~= self@.writes);
                    (marking, BackendRequest::SetSavepoint)
                } else {
                    self.proceed(0)
                }
            },
            CommitPhase::Marking => match reply {
                Err(error) => self.abandon(error),
                Ok(_) => self.proceed(0),
            },
            CommitPhase::Putting | CommitPhase::Deleting => match reply {
                Err(error) => self.fail(error),
                Ok(_) => {
                    assert(self@.writes.len() == self.operations@.len());
                    assert(self.next < self.operations.len());
                    let index: usize = self.next + 1;
                    self.proceed(index)
                },
            },
            CommitPhase::Reading => match reply {
                Err(error) => self.fail(error),
                Ok(Some(length)) => self.measured(length),
                Ok(None) => self.measured(0),
            },
            CommitPhase::Writing => match reply {
                Err(error) => self.abandon(error),
                Ok(_) => self.commit(),
            },
            CommitPhase::Reverting => match reply {
                Err(error) => self.abandon(error),
                Ok(_) => {
                    let error = match &self.failure {
                        Some(error) => error.clone(),
                        None => vstd::pervasive::unreached(),
                    };
                    self.abandon(error)
                },
            },
            CommitPhase::Committed | CommitPhase::RolledBack => self.report(),
        };
        proof {
            use_type_invariant(&next.0);
        }
        next
    }
}

/// The cost of a batch is the sum of the costs of its parts: for a batch split
/// in two, against the same stored state, the cost of the whole is the cost of
/// the first part plus the cost of the second.
pub proof fn lemma_batch_cost_additive(
    first: Seq<BackendWrite>,
    second: Seq<BackendWrite>,
    stored: StoredLengths,
)
    ensures
        batch_cost(first + second, stored) == batch_cost(first, stored).add(
            batch_cost(second, stored),
        ),
    decreases second.len(),
{
    if second.len() == 0 {
        assert(first + second =~= first);
    } else {
        lemma_batch_cost_additive(first, second.drop_last(), stored);
        assert((first + second).drop_last() =~= first + second.drop_last());
        assert((first + second).last() == second.last());
    }
}

/// A step leads from a valid state to a valid state, whatever the backend
/// answers.
pub proof fn lemma_step_keeps_valid(state: CommitState, reply: ReplyModel)
    requires
        state.valid(),
    ensures
        state.step(reply).0.valid(),
{
}

/// A commit that ends in failure reports no written and no released byte:
/// what was pending is dropped, whatever the backend answered on the way.
pub proof fn lemma_failure_drops_pending(state: CommitState, reply: ReplyModel)
    requires
        state.valid(),
    ensures
        state.step(reply).1 matches RequestModel::Finished { result, cost } ==> (result.is_err()
            ==> cost.added_bytes == 0 && cost.removed_bytes == 0 && cost.seek_count
            == state.cost.seek_count && cost.storage_loaded_bytes
            == state.cost.storage_loaded_bytes),
{
}

/// Once a commit has ended within some number of steps, further steps change
/// nothing.
proof fn lemma_drive_stays(state: CommitState, stored: StoredLengths, steps: nat, more: nat)
    requires
        state.drive(stored, steps).finished(),
    ensures
        state.drive(stored, steps + more) == state.drive(stored, steps),
    decreases steps,
{
    if state.finished() || steps == 0 {
    } else {
        lemma_drive_stays(
            state.step(state.honest_reply(stored)).0,
            stored,
            (steps - 1) as nat,
            more,
        );
    }
}

/// From a state that has taken in the first `index` writes, a backend that
/// does not fail leads to the committed state whose cost is the cost of the
/// whole batch.
proof fn lemma_drive_from(state: CommitState, stored: StoredLengths, index: nat)
    requires
        index <= state.writes.len(),
        !state.finished(),
        state.failure.is_none(),
        state.cost == (CostModel {
            added_bytes: 0,
            removed_bytes: 0,
            ..batch_cost(state.writes.take(index as int), stored)
        }),
        state.pending_written == batch_cost(state.writes.take(index as int), stored).added_bytes,
        state.pending_freed == batch_cost(state.writes.take(index as int), stored).removed_bytes,
    ensures
        ({
            let end = state.proceed(index).0.drive(
                stored,
                (2 * (state.writes.len() - index) + 1) as nat,
            );
            &&& end.phase == CommitPhase::Committed
            &&& end.cost == batch_cost(state.writes, stored)
            &&& end.failure.is_none()
        }),
    decreases state.writes.len() - index,
{
    let writes = state.writes;
    let turned = state.proceed(index).0;
    let steps = (2 * (writes.len() - index) + 1) as nat;
    if index == writes.len() {
        assert(writes.take(index as int) =~= writes);
        if state.transactional {
        } else {
            let written = turned.step(turned.honest_reply(stored)).0;
            assert(turned.drive(stored, steps) == written.drive(stored, 0));
        }
    } else {
        let write = writes[index as int];
        assert(writes.take(index as int + 1).drop_last() =~= writes.take(index as int));
        assert(writes.take(index as int + 1).last() == write);
        let remaining = (2 * (writes.len() - (index + 1)) + 1) as nat;
        match write.value {
            Some(value) => {
                let after = turned.step(turned.honest_reply(stored)).0;
                assert(after == turned.proceed(index + 1).0);
                lemma_drive_from(turned, stored, index + 1);
                lemma_drive_stays(after, stored, remaining, 1);
                assert(turned.drive(stored, steps) == after.drive(stored, remaining + 1));
            },
            None => {
                let deleting = turned.step(turned.honest_reply(stored)).0;
                let after = deleting.step(deleting.honest_reply(stored)).0;
                assert(after == deleting.proceed(index + 1).0);
                lemma_drive_from(deleting, stored, index + 1);
                assert(deleting.drive(stored, (steps - 1) as nat) == after.drive(
                    stored,
                    remaining,
                ));
                assert(turned.drive(stored, steps) == deleting.drive(stored, (steps - 1) as nat));
            },
        }
    }
}

/// Against a backend that holds `stored` and does not fail, a commit of
/// `writes` ends in success within two steps for each write and three more,
/// and its cost is the cost of the batch: the bytes of every put as added, a
/// seek and the loaded value for every deletion, and the bytes of the deleted
/// keys and values as removed. This holds for both ways of committing.
pub proof fn lemma_commit_cost(
    writes: Seq<BackendWrite>,
    transactional: bool,
    stored: StoredLengths,
)
    ensures
        ({
            let end = CommitState::planned(writes, transactional).drive(
                stored,
                2 * writes.len() + 3,
            );
            &&& end.phase == CommitPhase::Committed
            &&& end.cost == batch_cost(writes, stored)
            &&& end.outcome() == (RequestModel::Finished {
                result: Ok(()),
                cost: batch_cost(writes, stored),
            })
        }),
{
    let planned = CommitState::planned(writes, transactional);
    let steps = (2 * writes.len() + 1) as nat;
    assert(writes.take(0) =~= Seq::<BackendWrite>::empty());
    if transactional {
        let marking = planned.step(planned.honest_reply(stored)).0;
        let started = marking.step(marking.honest_reply(stored)).0;
        assert(started == marking.proceed(0).0);
        lemma_drive_from(marking, stored, 0);
        assert(planned.drive(stored, steps + 2) == marking.drive(stored, steps + 1));
        assert(marking.drive(stored, steps + 1) == started.drive(stored, steps));
    } else {
        let started = planned.step(planned.honest_reply(stored)).0;
        assert(started == planned.proceed(0).0);
        lemma_drive_from(planned, stored, 0);
        lemma_drive_stays(started, stored, steps, 1);
        assert(planned.drive(stored, steps + 2) == started.drive(stored, steps + 1));
    }
}

} // verus!
