//! A Merk: a balanced binary search tree over byte keys whose root hash
//! commits to every entry.

use vstd::prelude::*;
use crate::entries::{
    entry_map, lemma_no_entries, lemma_short_keys_kept, lemma_single_entry, short_keys, sorted,
};
use crate::hash::{CryptoHash, NULL_HASH};
use crate::ops::{hash_pending, lookup, put, remove, store_pending};
use crate::order::{compare_keys, key_less, KeyOrder};
use crate::storage::{BackendWrite, StorageBatch};
use crate::tree::{link_hashed, wrapped, Tree, TreeFeatureType};

verus! {

/// Why a Merk refused an entry.
#[derive(Clone, Copy, Debug, PartialEq, Eq, Structural)]
pub enum MerkError {
    /// The key has 256 bytes or more.
    KeyTooLong,
    /// The tree has reached the greatest height that a link can tell.
    TreeTooHigh,
    /// A batch names a key twice in a row.
    DuplicateKey,
    /// The keys of a batch do not rise.
    UnsortedBatch,
}

/// What a batch does to a key.
#[derive(Debug, PartialEq, Eq)]
pub enum Op {
    /// Sets the key to the value, which adds to the aggregate what the
    /// feature says.
    Put(Vec<u8>, TreeFeatureType),
    /// Takes the key out.
    Delete,
}

/// One operation of a batch: a key and what is done to it.
pub type BatchEntry = (Vec<u8>, Op);

/// The map once the first `count` operations of a batch have been applied,
/// one after the other.
pub open spec fn applied(entries: Map<Seq<u8>, Seq<u8>>, batch: Seq<BatchEntry>, count: int) -> Map<
    Seq<u8>,
    Seq<u8>,
>
    decreases count,
{
    if count <= 0 {
        entries
    } else {
        let before = applied(entries, batch, count - 1);
        match batch[count - 1].1 {
            Op::Put(value, _) => before.insert(batch[count - 1].0@, value@),
            Op::Delete => before.remove(batch[count - 1].0@),
        }
    }
}

/// The weight with which a key counts once the first `count` operations of
/// a batch have been applied, where it counted with `before`: what the last
/// operation on the key has made of it.
pub open spec fn applied_weight(before: int, batch: Seq<BatchEntry>, key: Seq<u8>, count: int)
    -> int
    decreases count,
{
    if count <= 0 {
        before
    } else if batch[count - 1].0@ == key {
        match batch[count - 1].1 {
            Op::Put(_, feature) => crate::tree::weight_of(feature),
            Op::Delete => 0,
        }
    } else {
        applied_weight(before, batch, key, count - 1)
    }
}

/// The sum of the weights of a Merk once the first `count` operations of a
/// batch have been applied: every operation takes out what its key weighed
/// and a put adds its weight. None once a node is, or has come to be, without
/// weight.
pub open spec fn applied_tally(merk: Merk, batch: Seq<BatchEntry>, count: int) -> Option<int>
    decreases count,
{
    if count <= 0 {
        merk.tally()
    } else {
        let key = batch[count - 1].0@;
        let weighed = applied_weight(merk.weight_at(key), batch, key, count - 1);
        match (applied_tally(merk, batch, count - 1), batch[count - 1].1) {
            (Some(total), Op::Put(_, TreeFeatureType::SummedMerk(weight))) => Some(
                total - weighed + weight,
            ),
            (Some(total), Op::Delete) => Some(total - weighed),
            _ => None,
        }
    }
}

/// What is wrong with the keys of a batch up to place `upto`, if anything
/// is: the first key of 256 bytes or more, or the first key that does not
/// come after the key before it, whichever comes first.
pub open spec fn batch_fault(batch: Seq<BatchEntry>, upto: int) -> Option<MerkError>
    decreases upto,
{
    if upto <= 0 {
        None
    } else {
        match batch_fault(batch, upto - 1) {
            Some(error) => Some(error),
            None => if batch[upto - 1].0@.len() >= 256 {
                Some(MerkError::KeyTooLong)
            } else if upto >= 2 && batch[upto - 2].0@ == batch[upto - 1].0@ {
                Some(MerkError::DuplicateKey)
            } else if upto >= 2 && !key_less(batch[upto - 2].0@, batch[upto - 1].0@) {
                Some(MerkError::UnsortedBatch)
            } else {
                None
            },
        }
    }
}

/// A Merk tree. Between two operations every node is balanced, every hash is
/// up to date and no link is modified.
#[derive(Debug)]
pub struct Merk {
    root: Option<Tree>,
}

impl View for Merk {
    type V = Map<Seq<u8>, Seq<u8>>;

    closed spec fn view(&self) -> Map<Seq<u8>, Seq<u8>> {
        match self.root {
            Some(tree) => entry_map(tree.inorder()),
            None => Map::empty(),
        }
    }
}

impl Merk {
    #[verifier::type_invariant]
    spec fn inv(self) -> bool {
        self.root matches Some(tree) ==> tree.shaped() && tree.hashed() && sorted(tree.inorder())
            && short_keys(tree.inorder()) && tree.height_value() <= 255
    }

    /// The root node, if the tree has one.
    pub closed spec fn root_node(self) -> Option<Tree> {
        self.root
    }

    /// What holds of a Merk between two operations: its view is the map of
    /// its entries, which stand in the tree in the order of their keys; the
    /// tree is balanced at every node and all of it is held in memory; and
    /// every hash is up to date.
    pub open spec fn settled(self) -> bool {
        match self.root_node() {
            Some(tree) => tree.shaped() && tree.hashed() && sorted(tree.inorder()) && short_keys(
                tree.inorder(),
            ) && tree.height_value() <= 255 && self@ == entry_map(tree.inorder()),
            None => self@ == Map::<Seq<u8>, Seq<u8>>::empty(),
        }
    }

    /// The height of the tree, zero for an empty one.
    pub open spec fn height_value(self) -> nat {
        match self.root_node() {
            Some(tree) => tree.height_value(),
            None => 0,
        }
    }

    /// The root hash: the Merkle hash of the tree as its keys, values and
    /// shape give it, and the null hash for an empty tree.
    pub open spec fn root_digest(self) -> Seq<u8> {
        match self.root_node() {
            Some(tree) => tree.merkle(),
            None => NULL_HASH@,
        }
    }

    /// The sum of the weights of the nodes of a Merk in which every node is
    /// summed: zero for an empty Merk, and none where a node is not summed.
    pub open spec fn tally(self) -> Option<int> {
        match self.root_node() {
            Some(tree) => tree.tally(),
            None => Some(0),
        }
    }

    /// The weight with which the entry under the key counts; zero where the
    /// Merk has no such entry.
    pub open spec fn weight_at(self, key: Seq<u8>) -> int {
        match self.root_node() {
            Some(tree) => tree.weight_at(key),
            None => 0,
        }
    }

    /// The aggregate of the Merk as its root gives it; none for an empty
    /// Merk and for one whose root is not summed.
    pub open spec fn sum_value(self) -> Option<u64> {
        match self.root_node() {
            Some(tree) => tree.aggregate(),
            None => None,
        }
    }

    /// An empty Merk.
    pub fn new() -> (merk: Self)
        ensures
            merk@ == Map::<Seq<u8>, Seq<u8>>::empty(),
            merk.root_node().is_none(),
            merk.settled(),
    {
        Merk { root: None }
    }

    /// Whether the Merk holds no entry.
    pub fn is_empty(&self) -> (empty: bool)
        ensures
            empty == (self@ == Map::<Seq<u8>, Seq<u8>>::empty()),
            empty == self.root_node().is_none(),
            self.settled(),
    {
        proof {
            use_type_invariant(self);
        }
        match &self.root {
            None => true,
            Some(tree) => {
                proof {
                    let entries = tree.inorder();
                    let at = crate::tree::link_inorder(tree.child(true)).len() as int;
                    assert(entries[at] == (tree.key_bytes(), tree.value_bytes()));
                    crate::entries::lemma_entry_at(entries, at);
                }
                false
            },
        }
    }

    /// The height of the tree, zero for an empty one.
    pub fn height(&self) -> (height: u16)
        ensures
            height == self.height_value(),
            self.settled(),
    {
        proof {
            use_type_invariant(self);
        }
        match &self.root {
            None => 0,
            Some(tree) => {
                let heights = tree.child_heights();
                if heights.0 >= heights.1 {
                    1 + heights.0 as u16
                } else {
                    1 + heights.1 as u16
                }
            },
        }
    }

    /// The value stored under `key`, if there is one.
    pub fn get(&self, key: &[u8]) -> (value: Option<&[u8]>)
        ensures
            value.is_some() == self@.dom().contains(key@),
            value matches Some(v) ==> v@ == self@[key@],
    {
        proof {
            use_type_invariant(self);
        }
        match &self.root {
            None => None,
            Some(tree) => lookup(tree, key),
        }
    }

    /// The root hash, which commits to every entry: the null hash for an
    /// empty tree.
    pub fn root_hash(&self) -> (hash: CryptoHash)
        ensures
            hash@ == self.root_digest(),
    {
        proof {
            use_type_invariant(self);
        }
        match &self.root {
            None => NULL_HASH,
            Some(tree) => {
                proof {
                    tree.lemma_hashed_is_consistent();
                    tree.lemma_digest_is_merkle();
                }
                tree.hash()
            },
        }
    }

    /// The aggregate of the Merk: in a Merk of summed nodes the sum of the
    /// weights of all of them, modulo 2^64. An empty Merk has none, nor has
    /// one whose root is not summed.
    pub fn root_sum(&self) -> (sum: Option<u64>)
        ensures
            sum == self.sum_value(),
            self.root_node().is_none() ==> sum.is_none(),
            self.root_node().is_some() ==> (self.tally() matches Some(total) ==> sum == Some(
                wrapped(total),
            )),
    {
        proof {
            use_type_invariant(self);
        }
        match &self.root {
            None => None,
            Some(tree) => {
                proof {
                    if tree.tally().is_some() {
                        tree.lemma_aggregate_is_tally();
                    }
                    assert(link_hashed(tree.child(true)));
                    assert(link_hashed(tree.child(false)));
                }
                tree.sum()
            },
        }
    }

    /// Takes `key` out, if the Merk holds it, and brings every hash and
    /// aggregate up to date. In a Merk of summed nodes the sum of the weights
    /// falls by the weight of the node that left.
    pub fn delete(&mut self, key: &[u8])
        ensures
            final(self).settled(),
            final(self)@ == old(self)@.remove(key@),
            old(self).tally() matches Some(total) ==> final(self).tally() == Some(
                total - old(self).weight_at(key@),
            ),
            forall|other: Seq<u8>| #[trigger]
                final(self).weight_at(other) == if other == key@ {
                    0
                } else {
                    old(self).weight_at(other)
                },
            final(self).height_value() == old(self).height_value() || final(self).height_value()
                + 1 == old(self).height_value(),
    {
        proof {
            use_type_invariant(&*self);
        }
        let mut root: Option<Tree> = None;
        std::mem::swap(&mut root, &mut self.root);
        match root {
            None => {
                assert(self@ =~= old(self)@.remove(key@));
            },
            Some(tree) => {
                let remaining = remove(tree, key);
                match remaining {
                    None => {
                        proof {
                            lemma_no_entries();
                        }
                    },
                    Some(left) => {
                        let hashed = hash_pending(left);
                        self.root = Some(hashed);
                    },
                }
                proof {
                    assert forall|other: Seq<u8>| #[trigger]
                        self.weight_at(other) == crate::ops::grown_weight_at(
                            remaining,
                            other,
                        ) by {}
                }
            },
        }
    }

    /// Whether the weights of this Merk and their sum are those of `before`
    /// once the first `count` operations of a batch have been applied.
    pub open spec fn follows(self, before: Merk, batch: Seq<BatchEntry>, count: int) -> bool {
        &&& forall|key: Seq<u8>| #[trigger]
            self.weight_at(key) == applied_weight(before.weight_at(key), batch, key, count)
        &&& applied_tally(before, batch, count) matches Some(total) ==> self.tally() == Some(total)
    }

    /// Applies a batch: its operations one after the other, in the order of
    /// their keys. The keys must rise strictly and be shorter than 256 bytes;
    /// a batch that breaks this is refused and nothing is applied. A put for
    /// which the tree has no room ends the batch with what came before it
    /// applied. In a Merk of summed nodes the weights and their sum follow
    /// the operations one by one.
    pub fn apply(&mut self, batch: &Vec<BatchEntry>) -> (result: Result<(), MerkError>)
        ensures
            final(self).settled(),
            match batch_fault(batch@, batch@.len() as int) {
                Some(error) => result == Err::<(), MerkError>(error) && final(self)@ == old(
                    self,
                )@ && final(self).root_node() == old(self).root_node(),
                None => match result {
                    Ok(_) => final(self)@ == applied(old(self)@, batch@, batch@.len() as int)
                        && final(self).follows(*old(self), batch@, batch@.len() as int),
                    Err(error) => error == MerkError::TreeTooHigh && exists|done: int|
                        0 <= done < batch@.len() && batch@[done].1 is Put
                            && final(self).height_value() >= 255 && final(self)@ == #[trigger] applied(
                            old(self)@,
                            batch@,
                            done,
                        ) && final(self).follows(*old(self), batch@, done),
                },
            },
    {
        proof {
            use_type_invariant(&*self);
        }
        let mut i: usize = 0;
        while i < batch.len()
            invariant
                i <= batch@.len(),
                batch_fault(batch@, i as int).is_none(),
                self.settled(),
                *self == *old(self),
            decreases batch@.len() - i,
        {
            if batch[i].0.len() >= 256 {
                proof {
                    lemma_fault_stays(batch@, i + 1, batch@.len() as int);
                }
                return Err(MerkError::KeyTooLong);
            }
            if i > 0 {
                match compare_keys(batch[i - 1].0.as_slice(), batch[i].0.as_slice()) {
                    KeyOrder::Before => {},
                    KeyOrder::Same => {
                        proof {
                            lemma_fault_stays(batch@, i + 1, batch@.len() as int);
                        }
                        return Err(MerkError::DuplicateKey);
                    },
                    KeyOrder::After => {
                        proof {
                            lemma_fault_stays(batch@, i + 1, batch@.len() as int);
                        }
                        return Err(MerkError::UnsortedBatch);
                    },
                }
            }
            i += 1;
        }
        let mut done: usize = 0;
        while done < batch.len()
            invariant
                done <= batch@.len(),
                batch_fault(batch@, batch@.len() as int).is_none(),
                self.settled(),
                self@ == applied(old(self)@, batch@, done as int),
                self.follows(*old(self), batch@, done as int),
            decreases batch@.len() - done,
        {
            proof {
                lemma_fault_free_keys(batch@, batch@.len() as int, done as int);
            }
            let ghost previous = *self;
            match &batch[done].1 {
                Op::Put(value, feature_type) => {
                    let copy = crate::storage::clone_bytes(value);
                    match self.put(batch[done].0.as_slice(), copy, *feature_type) {
                        Ok(_) => {},
                        Err(error) => {
                            return Err(error);
                        },
                    }
                },
                Op::Delete => {
                    self.delete(batch[done].0.as_slice());
                },
            }
            proof {
                let key = batch@[done as int].0@;
                assert(previous.weight_at(key) == applied_weight(
                    old(self).weight_at(key),
                    batch@,
                    key,
                    done as int,
                ));
                assert forall|other: Seq<u8>| #[trigger]
                    self.weight_at(other) == applied_weight(
                        old(self).weight_at(other),
                        batch@,
                        other,
                        done + 1,
                    ) by {
                    assert(previous.weight_at(other) == applied_weight(
                        old(self).weight_at(other),
                        batch@,
                        other,
                        done as int,
                    ));
                }
            }
            done += 1;
        }
        Ok(())
    }

    /// The writes that store every node of the tree that is not stored yet,
    /// each under its key behind `prefix`: the children of a node before the
    /// node, the root last. The root is written whenever the tree is stored.
    pub open spec fn unwritten(self, prefix: Seq<u8>) -> Seq<BackendWrite> {
        match self.root_node() {
            Some(tree) => tree.writes(prefix),
            None => Seq::empty(),
        }
    }

    /// Writes into `batch` every node that is not stored yet, each under its
    /// key behind `prefix`, and takes the nodes as stored from then on: their
    /// links become loaded links. Entries and root hash stay as they are, and
    /// every node stays in memory.
    pub fn commit(&mut self, prefix: &[u8], batch: &mut StorageBatch)
        ensures
            final(self).settled(),
            final(self)@ == old(self)@,
            final(self).root_digest() == old(self).root_digest(),
            final(self).tally() == old(self).tally(),
            final(self).sum_value() == old(self).sum_value(),
            forall|key: Seq<u8>| #[trigger] final(self).weight_at(key) == old(self).weight_at(key),
            final(self).height_value() == old(self).height_value(),
            final(batch)@ == old(batch)@ + old(self).unwritten(prefix@),
            final(self).unwritten(prefix@) == match old(self).root_node() {
                Some(tree) => seq![tree.write(prefix@)],
                None => Seq::<BackendWrite>::empty(),
            },
    {
        proof {
            use_type_invariant(&*self);
        }
        let mut root: Option<Tree> = None;
        std::mem::swap(&mut root, &mut self.root);
        match root {
            None => {
                assert(batch@ + Seq::<BackendWrite>::empty() =~= batch@);
            },
            Some(tree) => {
                proof {
                    tree.lemma_hashed_is_consistent();
                    tree.lemma_digest_is_merkle();
                }
                let stored = store_pending(tree, prefix, batch);
                proof {
                    stored.lemma_hashed_is_consistent();
                    stored.lemma_digest_is_merkle();
                }
                self.root = Some(stored);
            },
        }
    }

    /// The root hash as a subtree element holds it: none for an empty tree.
    pub open spec fn root_option(self) -> Option<Seq<u8>> {
        if self.root_node().is_none() {
            None
        } else {
            Some(self.root_digest())
        }
    }

    /// The root hash as a subtree element holds it: none for an empty tree.
    pub fn root_or_none(&self) -> (hash: Option<CryptoHash>)
        ensures
            crate::element::hash_view(hash) == self.root_option(),
            hash.is_none() == (self@ == Map::<Seq<u8>, Seq<u8>>::empty()),
    {
        if self.is_empty() {
            None
        } else {
            Some(self.root_hash())
        }
    }

    /// Sets `key` to `value`, with `feature_type` as what the entry adds to
    /// the aggregate, and brings every hash and aggregate up to date. A key
    /// of 256 bytes or more is refused, and so is any entry once the tree has
    /// reached a height of 255; the Merk then stays as it is. In a Merk of
    /// summed nodes the sum of the weights changes by what the entry weighs
    /// more than the node with its key did.
    pub fn put(&mut self, key: &[u8], value: Vec<u8>, feature_type: TreeFeatureType) -> (result:
        Result<(), MerkError>)
        ensures
            final(self).settled(),
            key@.len() >= 256 ==> result == Err::<(), MerkError>(MerkError::KeyTooLong),
            key@.len() < 256 && old(self).height_value() >= 255 ==> result == Err::<
                (),
                MerkError,
            >(MerkError::TreeTooHigh),
            key@.len() < 256 && old(self).height_value() < 255 ==> result.is_ok(),
            result.is_ok() ==> final(self)@ == old(self)@.insert(key@, value@),
            result.is_err() ==> final(self)@ == old(self)@ && final(self).root_node() == old(self).root_node(),
            final(self).height_value() == old(self).height_value() || final(self).height_value()
                == old(self).height_value() + 1,
            result.is_ok() ==> (old(self).tally() matches Some(total) ==> final(self).tally()
                == match feature_type {
                TreeFeatureType::SummedMerk(weight) => Some(
                    total - old(self).weight_at(key@) + weight,
                ),
                TreeFeatureType::BasicMerk => None,
            }),
            result.is_ok() ==> (forall|other: Seq<u8>| #[trigger]
                final(self).weight_at(other) == if other == key@ {
                    crate::tree::weight_of(feature_type)
                } else {
                    old(self).weight_at(other)
                }),
    {
        proof {
            use_type_invariant(&*self);
        }
        if key.len() >= 256 {
            return Err(MerkError::KeyTooLong);
        }
        if self.height() >= 255 {
            return Err(MerkError::TreeTooHigh);
        }
        let mut root: Option<Tree> = None;
        std::mem::swap(&mut root, &mut self.root);
        let updated = match root {
            None => {
                proof {
                    lemma_single_entry(key@, value@);
                    lemma_no_entries();
                }
                let mut copy: Vec<u8> = Vec::new();
                copy.extend_from_slice(key);
                assert(copy@ =~= key@);
                let tree = Tree::new(copy, value, feature_type).unwrap();
                assert(tree.inorder() =~= seq![(key@, value@)]);
                tree
            },
            Some(tree) => {
                let updated = hash_pending(put(tree, key, value, feature_type));
                proof {
                    lemma_short_keys_kept(tree.inorder(), updated.inorder(), key@, value@);
                }
                updated
            },
        };
        self.root = Some(updated);
        Ok(())
    }
}

/// A fault among the first keys of a batch is the fault of the batch.
proof fn lemma_fault_stays(batch: Seq<BatchEntry>, upto: int, end: int)
    requires
        0 <= upto <= end,
        batch_fault(batch, upto).is_some(),
    ensures
        batch_fault(batch, end) == batch_fault(batch, upto),
    decreases end - upto,
{
    if upto < end {
        lemma_fault_stays(batch, upto, end - 1);
    }
}

/// In a batch without fault every key is shorter than 256 bytes.
proof fn lemma_fault_free_keys(batch: Seq<BatchEntry>, upto: int, at: int)
    requires
        0 <= at < upto,
        batch_fault(batch, upto).is_none(),
    ensures
        batch[at].0@.len() < 256,
    decreases upto,
{
    if at < upto - 1 {
        lemma_fault_free_keys(batch, upto - 1, at);
    }
}

/// In a batch without fault the keys rise strictly: no key occurs twice, and
/// the operations are applied in the order of their keys.
pub proof fn lemma_fault_free_sorted(batch: Seq<BatchEntry>, i: int, j: int)
    requires
        0 <= i < j < batch.len(),
        batch_fault(batch, batch.len() as int).is_none(),
    ensures
        key_less(batch[i].0@, batch[j].0@),
    decreases j - i,
{
    lemma_fault_free_upto(batch, batch.len() as int, j + 1);
    if j == i + 1 {
    } else {
        lemma_fault_free_sorted(batch, i, j - 1);
        crate::order::lemma_key_less_transitive(batch[i].0@, batch[j - 1].0@, batch[j].0@);
    }
}

/// A batch without fault has none among its first keys.
proof fn lemma_fault_free_upto(batch: Seq<BatchEntry>, end: int, upto: int)
    requires
        0 <= upto <= end,
        batch_fault(batch, end).is_none(),
    ensures
        batch_fault(batch, upto).is_none(),
    decreases end - upto,
{
    if upto < end {
        lemma_fault_free_upto(batch, end - 1, upto);
    }
}

/// A Merk between two operations has no root exactly when it holds no entry.
pub proof fn lemma_no_root_is_empty(merk: Merk)
    requires
        merk.settled(),
    ensures
        merk.root_option().is_none() == (merk@ == Map::<Seq<u8>, Seq<u8>>::empty()),
{
    if let Some(tree) = merk.root_node() {
        let entries = tree.inorder();
        let at = crate::tree::link_inorder(tree.child(true)).len() as int;
        assert(entries[at] == (tree.key_bytes(), tree.value_bytes()));
        crate::entries::lemma_entry_at(entries, at);
    }
}

/// Two Merks with the same root hash hold the same entries, unless the hash
/// fails: whoever changes a value, adds a key or takes one out changes the
/// root hash. (The converse does not hold: the same entries can stand in
/// trees of different shapes, which have different root hashes.)
pub proof fn lemma_root_hash_binds(one: Merk, other: Merk)
    requires
        one.settled(),
        other.settled(),
        one.root_digest() == other.root_digest(),
    ensures
        one@ == other@ || crate::hash::hash_fails(),
{
    match (one.root_node(), other.root_node()) {
        (Some(a), Some(b)) => {
            a.lemma_digest_is_merkle();
            b.lemma_digest_is_merkle();
            a.lemma_digest_binds(b);
        },
        (Some(a), None) => {
            a.lemma_digest_is_merkle();
            crate::hash::lemma_digest_not_null(
                a.kv_hash_bytes() + crate::tree::link_digest(a.child(true))
                    + crate::tree::link_digest(a.child(false)),
            );
        },
        (None, Some(b)) => {
            b.lemma_digest_is_merkle();
            crate::hash::lemma_digest_not_null(
                b.kv_hash_bytes() + crate::tree::link_digest(b.child(true))
                    + crate::tree::link_digest(b.child(false)),
            );
        },
        (None, None) => {},
    }
}

/// In a Merk between two operations whose nodes are all summed the aggregate
/// is the sum of the weights of the nodes, modulo 2^64; an empty Merk has no
/// aggregate.
pub proof fn lemma_sum_is_tally(merk: Merk)
    requires
        merk.settled(),
        merk.tally().is_some(),
    ensures
        merk.sum_value() == if merk.root_option().is_some() {
            Some(wrapped(merk.tally().unwrap()))
        } else {
            None
        },
{
    if let Some(tree) = merk.root_node() {
        tree.lemma_aggregate_is_tally();
    }
}

/// A Merk between two operations is balanced: at every node of its tree the
/// two subtrees differ in height by one at most.
pub proof fn lemma_settled_is_balanced(merk: Merk)
    requires
        merk.settled(),
    ensures
        merk.root_node() matches Some(tree) ==> tree.avl(),
{
    if let Some(tree) = merk.root_node() {
        tree.lemma_shaped_is_avl();
    }
}

} // verus!
