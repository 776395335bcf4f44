use std::collections::HashMap;

use grovedb::commit::{BackendReply, BackendRequest, BatchCommit, CommitPhase};
use grovedb::costs::{OperationCost, StorageCost, StorageRemovedBytes};
use grovedb::storage::{
    BatchOperation, ColumnFamily, RocksDbStorage, StorageBatch, StorageError,
};

type Store = HashMap<(u8, Vec<u8>), Vec<u8>>;

fn family(column_family: ColumnFamily) -> u8 {
    match column_family {
        ColumnFamily::Main => 0,
        ColumnFamily::Aux => 1,
        ColumnFamily::Roots => 2,
        ColumnFamily::Meta => 3,
    }
}

fn failure(text: &str) -> StorageError {
    StorageError {
        message: text.to_string(),
    }
}

/// Carries a commit out against a map. `fail_at` names the request, counted
/// from zero, that the backend fails; the requests seen are recorded.
fn drive(
    commit: BatchCommit,
    store: &mut Store,
    fail_at: Option<usize>,
    seen: &mut Vec<String>,
) -> (Result<(), StorageError>, OperationCost) {
    let before = store.clone();
    let mut queued: Vec<(u8, Vec<u8>, Option<Vec<u8>>)> = Vec::new();
    let mut commit = commit;
    let mut reply: BackendReply = Ok(None);
    let mut count = 0usize;
    loop {
        assert!(commit.accepts(&reply));
        let (next, request) = commit.step(reply);
        commit = next;
        let failing = fail_at == Some(count);
        count += 1;
        reply = match request {
            BackendRequest::Finished(outcome) => {
                assert!(commit.is_finished());
                if outcome.value.is_ok() {
                    assert_eq!(commit.phase(), CommitPhase::Committed);
                    for (cf, key, value) in queued {
                        match value {
                            Some(v) => {
                                store.insert((cf, key), v);
                            }
                            None => {
                                store.remove(&(cf, key));
                            }
                        }
                    }
                } else {
                    assert_eq!(commit.phase(), CommitPhase::RolledBack);
                }
                // a finished commit repeats its outcome
                let (again, repeated) = commit.step(Ok(None));
                assert!(again.is_finished());
                let outcome_again = match repeated {
                    BackendRequest::Finished(o) => o,
                    other => panic!("unexpected request {:?}", other),
                };
                assert_eq!(outcome_again, outcome);
                return (outcome.value, outcome.cost);
            }
            _ if failing => {
                seen.push("failed".to_string());
                Err(failure("backend failed"))
            }
            BackendRequest::SetSavepoint => {
                seen.push("savepoint".to_string());
                Ok(None)
            }
            BackendRequest::Put {
                column_family,
                key,
                value,
            } => {
                seen.push("put".to_string());
                queued.push((family(column_family), key, Some(value)));
                Ok(None)
            }
            BackendRequest::ReadLength { column_family, key } => {
                seen.push("read".to_string());
                Ok(before.get(&(family(column_family), key)).map(|v| v.len()))
            }
            BackendRequest::Delete { column_family, key } => {
                seen.push("delete".to_string());
                queued.push((family(column_family), key, None));
                Ok(None)
            }
            BackendRequest::Write => {
                seen.push("write".to_string());
                Ok(None)
            }
            BackendRequest::RollbackToSavepoint => {
                seen.push("rollback".to_string());
                queued.clear();
                Ok(None)
            }
        };
    }
}

fn sample_batch() -> StorageBatch {
    let mut batch = StorageBatch::new();
    batch.put(b"key1".to_vec(), b"value1".to_vec());
    batch.put_aux(b"a".to_vec(), b"bc".to_vec());
    batch.delete(b"old".to_vec());
    batch.put_root(b"r".to_vec(), vec![]);
    batch.delete_meta(b"absent".to_vec());
    batch.put_meta(b"m".to_vec(), b"mm".to_vec());
    batch.delete_aux(b"x".to_vec());
    batch.delete_root(b"y".to_vec());
    batch
}

fn sample_store() -> Store {
    let mut store = Store::new();
    store.insert((0, b"old".to_vec()), vec![0; 10]);
    store.insert((1, b"x".to_vec()), vec![0; 3]);
    // same key in another column family must not count
    store.insert((0, b"y".to_vec()), vec![0; 100]);
    store
}

fn sample_cost() -> OperationCost {
    OperationCost {
        seek_count: 4,
        storage_cost: StorageCost {
            // key1+value1, a+bc, r, m+mm
            added_bytes: 10 + 3 + 1 + 3,
            replaced_bytes: 0,
            // old+10, absent+0, x+3, y+0
            removed_bytes: StorageRemovedBytes::BasicStorageRemoval(13 + 6 + 4 + 1),
        },
        storage_loaded_bytes: 13,
        hash_node_calls: 0,
    }
}

#[test]
fn commit_without_transaction() {
    let mut store = sample_store();
    let mut seen = vec![];
    let commit = RocksDbStorage::commit_multi_context_batch(sample_batch());
    assert_eq!(commit.phase(), CommitPhase::Planned);
    let (result, cost) = drive(commit, &mut store, None, &mut seen);
    assert_eq!(result, Ok(()));
    assert_eq!(cost, sample_cost());
    assert_eq!(
        seen,
        vec![
            "put", "put", "read", "delete", "put", "read", "delete", "put", "read", "delete",
            "read", "delete", "write"
        ]
    );
    assert_eq!(store.get(&(0, b"key1".to_vec())), Some(&b"value1".to_vec()));
    assert_eq!(store.get(&(0, b"old".to_vec())), None);
    assert_eq!(store.get(&(2, b"r".to_vec())), Some(&vec![]));
}

#[test]
fn commit_with_transaction() {
    let mut store = sample_store();
    let mut seen = vec![];
    let commit = RocksDbStorage::commit_multi_context_batch_with_transaction(sample_batch());
    let (result, cost) = drive(commit, &mut store, None, &mut seen);
    assert_eq!(result, Ok(()));
    assert_eq!(cost, sample_cost());
    assert_eq!(seen[0], "savepoint");
    assert_eq!(seen.len(), 13);
    assert!(!seen.contains(&"write".to_string()));
}

#[test]
fn empty_batch_costs_nothing() {
    for transactional in [false, true] {
        let mut store = Store::new();
        let mut seen = vec![];
        let commit = BatchCommit::new(StorageBatch::new(), transactional);
        let (result, cost) = drive(commit, &mut store, None, &mut seen);
        assert_eq!(result, Ok(()));
        assert_eq!(cost, OperationCost::default());
        assert_eq!(
            cost.storage_cost.removed_bytes,
            StorageRemovedBytes::NoStorageRemoval
        );
    }
}

#[test]
fn puts_alone_remove_nothing() {
    let mut batch = StorageBatch::new();
    batch.put(vec![1, 2], vec![3]);
    let mut store = Store::new();
    let mut seen = vec![];
    let (result, cost) = drive(
        RocksDbStorage::commit_multi_context_batch(batch),
        &mut store,
        None,
        &mut seen,
    );
    assert_eq!(result, Ok(()));
    assert_eq!(
        cost,
        OperationCost {
            seek_count: 0,
            storage_cost: StorageCost {
                added_bytes: 3,
                replaced_bytes: 0,
                removed_bytes: StorageRemovedBytes::NoStorageRemoval,
            },
            storage_loaded_bytes: 0,
            hash_node_calls: 0,
        }
    );
}

#[test]
fn failed_read_keeps_seeks_and_drops_pending() {
    // requests: put, put, read(old), delete, put, read(absent) <- fails
    let mut store = sample_store();
    let untouched = store.clone();
    let mut seen = vec![];
    let commit = RocksDbStorage::commit_multi_context_batch(sample_batch());
    let (result, cost) = drive(commit, &mut store, Some(5), &mut seen);
    assert_eq!(result, Err(failure("backend failed")));
    assert_eq!(
        cost,
        OperationCost {
            seek_count: 2,
            storage_cost: StorageCost {
                added_bytes: 0,
                replaced_bytes: 0,
                removed_bytes: StorageRemovedBytes::NoStorageRemoval,
            },
            storage_loaded_bytes: 10,
            hash_node_calls: 0,
        }
    );
    assert_eq!(store, untouched);
    assert!(!seen.contains(&"rollback".to_string()));
}

#[test]
fn failed_write_drops_pending() {
    let mut store = sample_store();
    let untouched = store.clone();
    let mut seen = vec![];
    let commit = RocksDbStorage::commit_multi_context_batch(sample_batch());
    let (result, cost) = drive(commit, &mut store, Some(12), &mut seen);
    assert_eq!(result, Err(failure("backend failed")));
    assert_eq!(cost.seek_count, 4);
    assert_eq!(cost.storage_loaded_bytes, 13);
    assert_eq!(cost.storage_cost.added_bytes, 0);
    assert_eq!(
        cost.storage_cost.removed_bytes,
        StorageRemovedBytes::NoStorageRemoval
    );
    assert_eq!(store, untouched);
}

#[test]
fn failure_in_transaction_rolls_back_to_savepoint() {
    // requests: savepoint, put, put <- fails
    let mut store = sample_store();
    let untouched = store.clone();
    let mut seen = vec![];
    let commit = RocksDbStorage::commit_multi_context_batch_with_transaction(sample_batch());
    let (result, cost) = drive(commit, &mut store, Some(2), &mut seen);
    assert_eq!(result, Err(failure("backend failed")));
    assert_eq!(seen, vec!["savepoint", "put", "failed", "rollback"]);
    assert_eq!(cost, OperationCost::default());
    assert_eq!(store, untouched);
}

#[test]
fn failed_rollback_reports_its_own_error() {
    let mut batch = StorageBatch::new();
    batch.delete(b"k".to_vec());
    let commit = BatchCommit::new(batch, true);
    let (commit, request) = commit.step(Ok(None));
    assert_eq!(request, BackendRequest::SetSavepoint);
    let (commit, request) = commit.step(Ok(None));
    assert_eq!(
        request,
        BackendRequest::ReadLength {
            column_family: ColumnFamily::Main,
            key: b"k".to_vec()
        }
    );
    assert_eq!(commit.phase(), CommitPhase::Reading);
    let (commit, request) = commit.step(Err(failure("read failed")));
    assert_eq!(request, BackendRequest::RollbackToSavepoint);
    assert_eq!(commit.phase(), CommitPhase::Reverting);
    let (commit, request) = commit.step(Err(failure("rollback failed")));
    assert_eq!(commit.phase(), CommitPhase::RolledBack);
    match request {
        BackendRequest::Finished(outcome) => {
            assert_eq!(outcome.value, Err(failure("rollback failed")));
            assert_eq!(outcome.cost.seek_count, 1);
            assert_eq!(outcome.cost.storage_loaded_bytes, 0);
        }
        other => panic!("unexpected request {:?}", other),
    }
}

#[test]
fn cost_of_a_batch_is_the_sum_of_its_parts() {
    let ops: Vec<BatchOperation> = sample_batch().into_operations();
    for split in 0..=ops.len() {
        let mut first = StorageBatch::new();
        let mut second = StorageBatch::new();
        for (i, op) in ops.iter().enumerate() {
            if i < split {
                first.push(op.clone());
            } else {
                second.push(op.clone());
            }
        }
        let mut seen = vec![];
        let (_, cost_first) = drive(
            BatchCommit::new(first, false),
            &mut sample_store(),
            None,
            &mut seen,
        );
        let (_, cost_second) = drive(
            BatchCommit::new(second, true),
            &mut sample_store(),
            None,
            &mut seen,
        );
        assert_eq!(cost_first.add(cost_second), sample_cost());
    }
}

#[test]
fn counters_that_would_overflow_are_not_accepted() {
    let mut batch = StorageBatch::new();
    batch.delete(b"k".to_vec());
    let commit = BatchCommit::new(batch, false);
    let (commit, _) = commit.step(Ok(None));
    assert!(commit.accepts(&Ok(Some(5))));
    assert!(!commit.accepts(&Ok(Some(usize::MAX))));
    assert!(commit.accepts(&Err(failure("x"))));
}

#[test]
fn batch_merge_keeps_the_order() {
    let mut first = StorageBatch::new();
    first.put(vec![1], vec![1]);
    let mut second = StorageBatch::new();
    second.delete(vec![2]);
    second.put_aux(vec![3], vec![3]);
    first.merge(second);
    assert_eq!(first.len(), 3);
    assert_eq!(
        first.into_operations(),
        vec![
            BatchOperation::Put {
                key: vec![1],
                value: vec![1]
            },
            BatchOperation::Delete { key: vec![2] },
            BatchOperation::PutAux {
                key: vec![3],
                value: vec![3]
            },
        ]
    );
}

#[test]
fn column_family_names() {
    assert_eq!(ColumnFamily::Main.name(), None);
    assert_eq!(ColumnFamily::Aux.name(), Some("aux"));
    assert_eq!(ColumnFamily::Roots.name(), Some("roots"));
    assert_eq!(ColumnFamily::Meta.name(), Some("meta"));
}
