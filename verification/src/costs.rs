//! Cost accounting: every operation of the engine hands back, beside its value,
//! a record of the storage work it has caused.

use vstd::prelude::*;

verus! {

/// The mathematical image of a cost record: every counter as a natural number,
/// so that sums never wrap.
pub struct CostModel {
    pub seek_count: nat,
    pub added_bytes: nat,
    pub replaced_bytes: nat,
    pub removed_bytes: nat,
    pub storage_loaded_bytes: nat,
    pub hash_node_calls: nat,
}

impl CostModel {
    /// The record of an operation that caused no work.
    pub open spec fn zero() -> CostModel {
        CostModel {
            seek_count: 0,
            added_bytes: 0,
            replaced_bytes: 0,
            removed_bytes: 0,
            storage_loaded_bytes: 0,
            hash_node_calls: 0,
        }
    }

    /// Field-wise sum.
    pub open spec fn add(self, other: CostModel) -> CostModel {
        CostModel {
            seek_count: self.seek_count + other.seek_count,
            added_bytes: self.added_bytes + other.added_bytes,
            replaced_bytes: self.replaced_bytes + other.replaced_bytes,
            removed_bytes: self.removed_bytes + other.removed_bytes,
            storage_loaded_bytes: self.storage_loaded_bytes + other.storage_loaded_bytes,
            hash_node_calls: self.hash_node_calls + other.hash_node_calls,
        }
    }

    /// Every counter can be held by the executable record.
    pub open spec fn fits(self) -> bool {
        &&& self.seek_count <= u64::MAX
        &&& self.added_bytes <= u64::MAX
        &&& self.replaced_bytes <= u64::MAX
        &&& self.removed_bytes <= u64::MAX
        &&& self.storage_loaded_bytes <= u64::MAX
        &&& self.hash_node_calls <= u64::MAX
    }
}

/// Bytes released by an operation.
#[derive(Clone, Copy, Debug, PartialEq, Eq, Structural)]
pub enum StorageRemovedBytes {
    /// Nothing was released.
    NoStorageRemoval,
    /// The given number of bytes was released.
    BasicStorageRemoval(u64),
}

impl StorageRemovedBytes {
    /// The number of bytes released.
    pub open spec fn total(self) -> nat {
        match self {
            StorageRemovedBytes::NoStorageRemoval => 0,
            StorageRemovedBytes::BasicStorageRemoval(n) => n as nat,
        }
    }

    /// The sum of two removals: `NoStorageRemoval` is neutral, two basic
    /// removals give a basic removal of the two counts together.
    pub open spec fn combined(self, other: StorageRemovedBytes) -> StorageRemovedBytes {
        match (self, other) {
            (StorageRemovedBytes::NoStorageRemoval, _) => other,
            (_, StorageRemovedBytes::NoStorageRemoval) => self,
            (
                StorageRemovedBytes::BasicStorageRemoval(a),
                StorageRemovedBytes::BasicStorageRemoval(b),
            ) => StorageRemovedBytes::BasicStorageRemoval((a + b) as u64),
        }
    }

    /// The removal that stands for `bytes` released bytes: none at all for
    /// zero, a basic removal otherwise.
    pub open spec fn of_total(bytes: nat) -> StorageRemovedBytes {
        if bytes == 0 {
            StorageRemovedBytes::NoStorageRemoval
        } else {
            StorageRemovedBytes::BasicStorageRemoval(bytes as u64)
        }
    }

    /// Builds the removal that stands for `bytes` released bytes.
    pub fn from_total(bytes: u64) -> (removed: Self)
        ensures
            removed == Self::of_total(bytes as nat),
            removed.total() == bytes,
    {
        if bytes == 0 {
            StorageRemovedBytes::NoStorageRemoval
        } else {
            StorageRemovedBytes::BasicStorageRemoval(bytes)
        }
    }

    /// Whether any byte was released.
    pub fn has_removal(&self) -> (removal: bool)
        ensures
            removal == (self.total() > 0),
    {
        match self {
            StorageRemovedBytes::NoStorageRemoval => false,
            StorageRemovedBytes::BasicStorageRemoval(n) => *n > 0,
        }
    }

    /// The number of bytes released.
    pub fn total_removed_bytes(&self) -> (bytes: u64)
        ensures
            bytes == self.total(),
    {
        match self {
            StorageRemovedBytes::NoStorageRemoval => 0,
            StorageRemovedBytes::BasicStorageRemoval(n) => *n,
        }
    }

    /// Adds two removals.
    pub fn add(self, other: Self) -> (sum: Self)
        requires
            self.total() + other.total() <= u64::MAX,
        ensures
            sum == self.combined(other),
            sum.total() == self.total() + other.total(),
    {
        match self {
            StorageRemovedBytes::NoStorageRemoval => other,
            StorageRemovedBytes::BasicStorageRemoval(a) => match other {
                StorageRemovedBytes::NoStorageRemoval => self,
                StorageRemovedBytes::BasicStorageRemoval(b) => {
                    StorageRemovedBytes::BasicStorageRemoval(a + b)
                },
            },
        }
    }
}

/// How an operation changed the size of what is stored under a key.
#[derive(Clone, Copy, Debug, PartialEq, Eq, Structural)]
pub enum OperationStorageTransitionType {
    /// Nothing was added, replaced or removed.
    NoOp,
    /// Bytes were added and none replaced: a new record.
    OperationInsertNew,
    /// Bytes were replaced, none added and none removed.
    OperationUpdateSameSize,
    /// Bytes were replaced and more were added.
    OperationUpdateBiggerSize,
    /// Bytes were replaced and some were removed.
    OperationUpdateSmallerSize,
    /// Bytes were removed and none replaced: the record is gone.
    OperationDelete,
}

/// The storage part of a cost record.
#[derive(Clone, Copy, Debug, PartialEq, Eq, Structural)]
pub struct StorageCost {
    /// Bytes written where nothing was stored before.
    pub added_bytes: u64,
    /// Bytes written over bytes that were stored before.
    pub replaced_bytes: u64,
    /// Bytes released.
    pub removed_bytes: StorageRemovedBytes,
}

impl StorageCost {
    /// The classification of a storage cost, decided by which of its counters
    /// are positive. Added bytes decide first, then removed bytes.
    pub open spec fn transition(self) -> OperationStorageTransitionType {
        if self.added_bytes > 0 {
            if self.replaced_bytes > 0 {
                OperationStorageTransitionType::OperationUpdateBiggerSize
            } else {
                OperationStorageTransitionType::OperationInsertNew
            }
        } else if self.removed_bytes.total() > 0 {
            if self.replaced_bytes > 0 {
                OperationStorageTransitionType::OperationUpdateSmallerSize
            } else {
                OperationStorageTransitionType::OperationDelete
            }
        } else if self.replaced_bytes > 0 {
            OperationStorageTransitionType::OperationUpdateSameSize
        } else {
            OperationStorageTransitionType::NoOp
        }
    }

    /// Classifies the storage cost of an update.
    pub fn transition_type(&self) -> (kind: OperationStorageTransitionType)
        ensures
            kind == self.transition(),
    {
        if self.added_bytes > 0 {
            if self.replaced_bytes > 0 {
                OperationStorageTransitionType::OperationUpdateBiggerSize
            } else {
                OperationStorageTransitionType::OperationInsertNew
            }
        } else if self.removed_bytes.has_removal() {
            if self.replaced_bytes > 0 {
                OperationStorageTransitionType::OperationUpdateSmallerSize
            } else {
                OperationStorageTransitionType::OperationDelete
            }
        } else if self.replaced_bytes > 0 {
            OperationStorageTransitionType::OperationUpdateSameSize
        } else {
            OperationStorageTransitionType::NoOp
        }
    }
}

/// The cost of an operation.
#[derive(Clone, Copy, Debug, PartialEq, Eq, Structural)]
pub struct OperationCost {
    /// Point lookups and iterator positionings in the backend.
    pub seek_count: u64,
    /// Bytes added, replaced and removed.
    pub storage_cost: StorageCost,
    /// Bytes read from the backend.
    pub storage_loaded_bytes: u64,
    /// Invocations of the node hash.
    pub hash_node_calls: u64,
}

impl View for OperationCost {
    type V = CostModel;

    open spec fn view(&self) -> CostModel {
        CostModel {
            seek_count: self.seek_count as nat,
            added_bytes: self.storage_cost.added_bytes as nat,
            replaced_bytes: self.storage_cost.replaced_bytes as nat,
            removed_bytes: self.storage_cost.removed_bytes.total(),
            storage_loaded_bytes: self.storage_loaded_bytes as nat,
            hash_node_calls: self.hash_node_calls as nat,
        }
    }
}

impl Default for OperationCost {
    /// The cost of an operation that caused no work.
    fn default() -> (cost: Self)
        ensures
            cost == OperationCost::none(),
    {
        OperationCost {
            seek_count: 0,
            storage_cost: StorageCost {
                added_bytes: 0,
                replaced_bytes: 0,
                removed_bytes: StorageRemovedBytes::NoStorageRemoval,
            },
            storage_loaded_bytes: 0,
            hash_node_calls: 0,
        }
    }
}

impl OperationCost {
    /// The cost record whose counters are all zero, with no removal.
    pub open spec fn none() -> OperationCost {
        OperationCost {
            seek_count: 0,
            storage_cost: StorageCost {
                added_bytes: 0,
                replaced_bytes: 0,
                removed_bytes: StorageRemovedBytes::NoStorageRemoval,
            },
            storage_loaded_bytes: 0,
            hash_node_calls: 0,
        }
    }

    /// The field-wise sum of two records, removals combined as
    /// [`StorageRemovedBytes::combined`] says.
    pub open spec fn sum(self, other: OperationCost) -> OperationCost {
        OperationCost {
            seek_count: (self.seek_count + other.seek_count) as u64,
            storage_cost: StorageCost {
                added_bytes: (self.storage_cost.added_bytes + other.storage_cost.added_bytes) as u64,
                replaced_bytes: (self.storage_cost.replaced_bytes
                    + other.storage_cost.replaced_bytes) as u64,
                removed_bytes: self.storage_cost.removed_bytes.combined(
                    other.storage_cost.removed_bytes,
                ),
            },
            storage_loaded_bytes: (self.storage_loaded_bytes + other.storage_loaded_bytes) as u64,
            hash_node_calls: (self.hash_node_calls + other.hash_node_calls) as u64,
        }
    }

    /// A cost of `seek_count` seeks and nothing else.
    pub fn with_seek_count(seek_count: u64) -> (cost: Self)
        ensures
            cost == (OperationCost { seek_count, ..OperationCost::none() }),
    {
        let mut cost = OperationCost::default();
        cost.seek_count = seek_count;
        cost
    }

    /// A cost of `storage_loaded_bytes` bytes read and nothing else.
    pub fn with_storage_loaded_bytes(storage_loaded_bytes: u64) -> (cost: Self)
        ensures
            cost == (OperationCost { storage_loaded_bytes, ..OperationCost::none() }),
    {
        let mut cost = OperationCost::default();
        cost.storage_loaded_bytes = storage_loaded_bytes;
        cost
    }

    /// A cost of `hash_node_calls` node hashes and nothing else.
    pub fn with_hash_node_calls(hash_node_calls: u64) -> (cost: Self)
        ensures
            cost == (OperationCost { hash_node_calls, ..OperationCost::none() }),
    {
        let mut cost = OperationCost::default();
        cost.hash_node_calls = hash_node_calls;
        cost
    }

    /// Whether no counter of the record is positive.
    pub fn is_nothing(&self) -> (nothing: bool)
        ensures
            nothing == (self@ == CostModel::zero()),
    {
        self.seek_count == 0 && self.storage_cost.added_bytes == 0
            && self.storage_cost.replaced_bytes == 0 && !self.storage_cost.removed_bytes.has_removal()
            && self.storage_loaded_bytes == 0 && self.hash_node_calls == 0
    }

    /// Adds two costs, counter by counter.
    pub fn add(self, other: Self) -> (total: Self)
        requires
            self@.add(other@).fits(),
        ensures
            total == self.sum(other),
            total@ == self@.add(other@),
    {
        OperationCost {
            seek_count: self.seek_count + other.seek_count,
            storage_cost: StorageCost {
                added_bytes: self.storage_cost.added_bytes + other.storage_cost.added_bytes,
                replaced_bytes: self.storage_cost.replaced_bytes
                    + other.storage_cost.replaced_bytes,
                removed_bytes: self.storage_cost.removed_bytes.add(
                    other.storage_cost.removed_bytes,
                ),
            },
            storage_loaded_bytes: self.storage_loaded_bytes + other.storage_loaded_bytes,
            hash_node_calls: self.hash_node_calls + other.hash_node_calls,
        }
    }

    /// Adds two costs where the sum can be held, and says so where it cannot.
    pub fn checked_add(self, other: Self) -> (total: Option<Self>)
        ensures
            total.is_some() <==> self@.add(other@).fits(),
            total matches Some(t) ==> t == self.sum(other) && t@ == self@.add(other@),
    {
        let seek_count = self.seek_count.checked_add(other.seek_count);
        let added = self.storage_cost.added_bytes.checked_add(other.storage_cost.added_bytes);
        let replaced = self.storage_cost.replaced_bytes.checked_add(
            other.storage_cost.replaced_bytes,
        );
        let removed = self.storage_cost.removed_bytes.total_removed_bytes().checked_add(
            other.storage_cost.removed_bytes.total_removed_bytes(),
        );
        let loaded = self.storage_loaded_bytes.checked_add(other.storage_loaded_bytes);
        let hashes = self.hash_node_calls.checked_add(other.hash_node_calls);
        if seek_count.is_some() && added.is_some() && replaced.is_some() && removed.is_some()
            && loaded.is_some() && hashes.is_some() {
            Some(self.add(other))
        } else {
            None
        }
    }
}

/// A value together with the cost of having computed it.
#[derive(Clone, Debug, PartialEq, Eq)]
pub struct CostContext<T> {
    /// The value.
    pub value: T,
    /// What it cost.
    pub cost: OperationCost,
}

/// The usual shape of a fallible operation of the engine.
pub type CostResult<T, E> = CostContext<Result<T, E>>;

impl<T> CostContext<T> {
    /// Joins a value and a cost.
    pub fn wrap_with_cost(value: T, cost: OperationCost) -> (wrapped: Self)
        ensures
            wrapped.value == value,
            wrapped.cost == cost,
    {
        CostContext { value, cost }
    }

    /// Joins a value and the cost of nothing.
    pub fn free(value: T) -> (wrapped: Self)
        ensures
            wrapped.value == value,
            wrapped.cost == OperationCost::none(),
    {
        CostContext { value, cost: OperationCost::default() }
    }

    /// Gives the value and drops the cost.
    pub fn unwrap(self) -> (value: T)
        ensures
            value == self.value,
    {
        self.value
    }

    /// Gives the value and adds its cost to `accumulator`.
    pub fn unwrap_add_cost(self, accumulator: &mut OperationCost) -> (value: T)
        requires
            old(accumulator)@.add(self.cost@).fits(),
        ensures
            value == self.value,
            *final(accumulator) == old(accumulator).sum(self.cost),
            final(accumulator)@ == old(accumulator)@.add(self.cost@),
    {
        *accumulator = accumulator.add(self.cost);
        self.value
    }

    /// Adds `cost` to the cost carried so far.
    pub fn add_cost(self, cost: OperationCost) -> (wrapped: Self)
        requires
            self.cost@.add(cost@).fits(),
        ensures
            wrapped.value == self.value,
            wrapped.cost == self.cost.sum(cost),
            wrapped.cost@ == self.cost@.add(cost@),
    {
        CostContext { value: self.value, cost: self.cost.add(cost) }
    }

    /// Applies `f` to the value and keeps the cost.
    pub fn map<B, F: FnOnce(T) -> B>(self, f: F) -> (mapped: CostContext<B>)
        requires
            f.requires((self.value,)),
        ensures
            f.ensures((self.value,), mapped.value),
            mapped.cost == self.cost,
    {
        CostContext { value: f(self.value), cost: self.cost }
    }

    /// Hands the value to `f`, which has a cost of its own, and adds the two
    /// costs.
    pub fn flat_map<B, F: FnOnce(T) -> CostContext<B>>(self, f: F) -> (chained: CostContext<B>)
        requires
            f.requires((self.value,)),
            forall|next: CostContext<B>|
                f.ensures((self.value,), next) ==> self.cost@.add(next.cost@).fits(),
        ensures
            exists|next: CostContext<B>|
                #![auto]
                f.ensures((self.value,), next) && chained.value == next.value && chained.cost
                    == self.cost.sum(next.cost) && chained.cost@ == self.cost@.add(next.cost@),
    {
        let cost = self.cost;
        let next = f(self.value);
        let ghost witness = next;
        let total = cost.add(next.cost);
        let chained = CostContext { value: next.value, cost: total };
        assert(f.ensures((self.value,), witness) && chained.value == witness.value && chained.cost
            == self.cost.sum(witness.cost) && chained.cost@ == self.cost@.add(witness.cost@));
        chained
    }
}

impl<T, E> CostContext<Result<T, E>> {
    /// Continues with `f` where the value is `Ok`, adding the two costs; where
    /// it is `Err`, keeps the error and the cost seen so far.
    pub fn flat_map_ok<B, F: FnOnce(T) -> CostContext<Result<B, E>>>(self, f: F) -> (chained:
        CostContext<Result<B, E>>)
        requires
            self.value matches Ok(v) ==> f.requires((v,)),
            forall|v: T, next: CostContext<Result<B, E>>|
                self.value == Ok::<T, E>(v) && f.ensures((v,), next) ==> self.cost@.add(
                    next.cost@,
                ).fits(),
        ensures
            self.value matches Err(e) ==> chained.value == Err::<B, E>(e) && chained.cost
                == self.cost,
            self.value matches Ok(v) ==> exists|next: CostContext<Result<B, E>>|
                #![auto]
                f.ensures((v,), next) && chained.value == next.value && chained.cost
                    == self.cost.sum(next.cost) && chained.cost@ == self.cost@.add(next.cost@),
    {
        let cost = self.cost;
        match self.value {
            Ok(v) => {
                let next = f(v);
                let ghost witness = next;
                let total = cost.add(next.cost);
                let chained = CostContext { value: next.value, cost: total };
                assert(f.ensures((v,), witness) && chained.value == witness.value && chained.cost
                    == self.cost.sum(witness.cost) && chained.cost@ == self.cost@.add(
                    witness.cost@,
                ));
                chained
            },
            Err(e) => CostContext { value: Err(e), cost },
        }
    }

    /// Applies `f` to the value where it is `Ok`; keeps the cost either way.
    pub fn map_ok<B, F: FnOnce(T) -> B>(self, f: F) -> (mapped: CostContext<Result<B, E>>)
        requires
            self.value matches Ok(v) ==> f.requires((v,)),
        ensures
            mapped.cost == self.cost,
            self.value matches Err(e) ==> mapped.value == Err::<B, E>(e),
            self.value matches Ok(v) ==> (mapped.value matches Ok(b) && f.ensures((v,), b)),
    {
        let cost = self.cost;
        match self.value {
            Ok(v) => CostContext { value: Ok(f(v)), cost },
            Err(e) => CostContext { value: Err(e), cost },
        }
    }
}

/// Adding costs is associative and commutative, and the cost of nothing is
/// neutral: the order in which the parts of an operation report their costs
/// does not change the total.
pub proof fn lemma_cost_addition_laws(a: CostModel, b: CostModel, c: CostModel)
    ensures
        a.add(b) == b.add(a),
        a.add(b).add(c) == a.add(b.add(c)),
        a.add(CostModel::zero()) == a,
        CostModel::zero().add(a) == a,
{
}

} // verus!
