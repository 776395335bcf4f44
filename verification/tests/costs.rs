use grovedb::costs::OperationStorageTransitionType::{
    NoOp, OperationDelete, OperationInsertNew, OperationUpdateBiggerSize,
    OperationUpdateSameSize, OperationUpdateSmallerSize,
};
use grovedb::costs::StorageRemovedBytes::{BasicStorageRemoval, NoStorageRemoval};
use grovedb::costs::{CostContext, OperationCost, StorageCost, StorageRemovedBytes};

fn cost(seeks: u64, added: u64, replaced: u64, removed: StorageRemovedBytes) -> OperationCost {
    OperationCost {
        seek_count: seeks,
        storage_cost: StorageCost {
            added_bytes: added,
            replaced_bytes: replaced,
            removed_bytes: removed,
        },
        storage_loaded_bytes: 2 * seeks,
        hash_node_calls: seeks + 1,
    }
}

#[test]
fn costs_add_up() {
    let a = cost(2, 144, 0, NoStorageRemoval);
    let b = cost(4, 2, 257, BasicStorageRemoval(5));
    let sum = a.add(b);
    assert_eq!(
        sum,
        OperationCost {
            seek_count: 6,
            storage_cost: StorageCost {
                added_bytes: 146,
                replaced_bytes: 257,
                removed_bytes: BasicStorageRemoval(5),
            },
            storage_loaded_bytes: 12,
            hash_node_calls: 8,
        }
    );
    assert_eq!(b.add(a), sum);
    assert_eq!(sum.add(OperationCost::default()), sum);
    assert_eq!(a.checked_add(b), Some(sum));
    let c = cost(1, 1, 1, BasicStorageRemoval(7));
    assert_eq!(a.add(b).add(c), a.add(b.add(c)));
    assert_eq!(
        b.add(c).storage_cost.removed_bytes,
        BasicStorageRemoval(12)
    );
}

#[test]
fn checked_add_refuses_overflow() {
    let big = OperationCost::with_seek_count(u64::MAX);
    assert_eq!(big.checked_add(OperationCost::with_seek_count(1)), None);
    assert_eq!(big.checked_add(OperationCost::default()), Some(big));
    let removal = cost(0, 0, 0, BasicStorageRemoval(u64::MAX));
    assert_eq!(removal.checked_add(cost(0, 0, 0, BasicStorageRemoval(1))), None);
}

#[test]
fn constructors() {
    assert!(OperationCost::default().is_nothing());
    assert!(!OperationCost::with_hash_node_calls(1).is_nothing());
    assert_eq!(OperationCost::with_seek_count(3).seek_count, 3);
    assert_eq!(
        OperationCost::with_storage_loaded_bytes(9).storage_loaded_bytes,
        9
    );
    assert_eq!(StorageRemovedBytes::from_total(0), NoStorageRemoval);
    assert_eq!(StorageRemovedBytes::from_total(4), BasicStorageRemoval(4));
    assert!(!NoStorageRemoval.has_removal());
    assert!(!BasicStorageRemoval(0).has_removal());
    assert!(BasicStorageRemoval(1).has_removal());
    assert_eq!(BasicStorageRemoval(8).total_removed_bytes(), 8);
}

#[test]
fn transitions() {
    let kind = |added, replaced, removed| {
        StorageCost {
            added_bytes: added,
            replaced_bytes: replaced,
            removed_bytes: removed,
        }
        .transition_type()
    };
    assert_eq!(kind(0, 0, NoStorageRemoval), NoOp);
    assert_eq!(kind(0, 0, BasicStorageRemoval(0)), NoOp);
    assert_eq!(kind(144, 0, NoStorageRemoval), OperationInsertNew);
    assert_eq!(kind(0, 257, NoStorageRemoval), OperationUpdateSameSize);
    assert_eq!(kind(2, 257, NoStorageRemoval), OperationUpdateBiggerSize);
    assert_eq!(kind(0, 257, BasicStorageRemoval(3)), OperationUpdateSmallerSize);
    assert_eq!(kind(0, 0, BasicStorageRemoval(3)), OperationDelete);
}

#[test]
fn cost_context_combinators() {
    let start = CostContext::wrap_with_cost(5u32, OperationCost::with_seek_count(1));
    let mapped = start.clone().map(|x| x + 1);
    assert_eq!(mapped.value, 6);
    assert_eq!(mapped.cost, OperationCost::with_seek_count(1));

    let chained = start
        .clone()
        .flat_map(|x| CostContext::wrap_with_cost(x * 2, OperationCost::with_hash_node_calls(3)));
    assert_eq!(chained.value, 10);
    assert_eq!(
        chained.cost,
        OperationCost {
            seek_count: 1,
            hash_node_calls: 3,
            ..OperationCost::default()
        }
    );

    let added = start.clone().add_cost(OperationCost::with_seek_count(2));
    assert_eq!(added.cost.seek_count, 3);

    let mut total = OperationCost::with_storage_loaded_bytes(7);
    assert_eq!(start.clone().unwrap_add_cost(&mut total), 5);
    assert_eq!(total.seek_count, 1);
    assert_eq!(total.storage_loaded_bytes, 7);

    assert_eq!(CostContext::free(1u8).cost, OperationCost::default());
    assert_eq!(start.unwrap(), 5);
}

#[test]
fn errors_keep_the_cost_seen_so_far() {
    let failed: CostContext<Result<u32, String>> =
        CostContext::wrap_with_cost(Err("no".to_string()), OperationCost::with_seek_count(4));
    let after = failed.flat_map_ok(|x| {
        CostContext::wrap_with_cost(Ok::<u32, String>(x + 1), OperationCost::with_seek_count(10))
    });
    assert_eq!(after.value, Err("no".to_string()));
    assert_eq!(after.cost, OperationCost::with_seek_count(4));

    let fine: CostContext<Result<u32, String>> =
        CostContext::wrap_with_cost(Ok(1), OperationCost::with_seek_count(4));
    let after = fine.flat_map_ok(|x| {
        CostContext::wrap_with_cost(Ok::<u32, String>(x + 1), OperationCost::with_seek_count(10))
    });
    assert_eq!(after.value, Ok(2));
    assert_eq!(after.cost, OperationCost::with_seek_count(14));

    let mapped = after.map_ok(|x| x * 3);
    assert_eq!(mapped.value, Ok(6));
    assert_eq!(mapped.cost, OperationCost::with_seek_count(14));
}
