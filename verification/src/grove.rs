//! The grove: subtrees addressed by paths, each written into its parent as an
//! element that holds its root hash, and a root hash over the top subtrees that
//! commits to all of it.

use vstd::prelude::*;
use crate::element::{decoded_element, encoded_element, hash_view, Element, ElementModel};
use crate::hash::{append_hash, blake3_digest, blake3_hash, CryptoHash, NULL_HASH};
use crate::merk::Merk;
use crate::order::{compare_keys, KeyOrder};
use crate::prefix::{path_view, prefix_digest, subtree_prefix};
use crate::storage::{BackendWrite, ColumnFamily, StorageBatch};
use crate::tree::TreeFeatureType;

verus! {

/// What can go wrong in the grove.
#[derive(Debug, PartialEq, Eq)]
pub enum Error {
    /// The path leads to no subtree, or an element that is no subtree was to
    /// become a leaf of the root.
    InvalidPath(&'static str),
    /// A stored record could not be read, or breaks a rule of the grove.
    CorruptedData(&'static str),
    /// The engine has reached one of its own limits.
    InvalidCodeExecution(&'static str),
    /// A lookup has found no subtree at its path.
    PathNotFound,
    /// A lookup has found the subtree at its path, but not the key in it.
    PathKeyNotFound,
    /// A chain of references is longer than the grove follows.
    ReferenceLimit,
}

/// The message for an element that is no subtree at the root.
pub const ONLY_SUBTREES_AT_ROOT: &'static str = "only subtrees are allowed as root-tree leaves";

/// The message for a path at which no subtree lies.
pub const NO_SUBTREE_AT_PATH: &'static str = "no subtree found under that path";

/// The message for a key or a path segment of 256 bytes or more.
pub const KEY_TOO_LONG: &'static str = "keys must be shorter than 256 bytes";

/// The message for a subtree that has reached the height of 255.
pub const TREE_TOO_HIGH: &'static str = "a subtree has reached its greatest height";

/// The message for two subtrees on one path that have the same prefix.
pub const PREFIXES_COLLIDE: &'static str = "two subtrees on the path share a prefix";

/// The message for a stored element that cannot be read.
pub const UNREADABLE_ELEMENT: &'static str = "unable to deserialize element";

/// The message for a reference that points nowhere.
pub const EMPTY_REFERENCE: &'static str = "a reference must name a key";

/// How many references in a row the grove follows.
pub const MAX_REFERENCE_HOPS: usize = 10;

/// A subtree as a plain value: its entries, its root hash (the null hash
/// while it is empty), the root hash as its parent records it (none while it
/// is empty), its height, whether it sums up its entries, and its aggregate.
pub struct SubtreeState {
    pub entries: Map<Seq<u8>, Seq<u8>>,
    pub root_hash: Seq<u8>,
    pub root: Option<Seq<u8>>,
    pub height: nat,
    /// Whether the subtree was opened as a sum tree: its entries then count
    /// toward its aggregate, each with the weight of its element.
    pub summed: bool,
    /// The aggregate as the root of the subtree gives it; none while the
    /// subtree is empty, and for a subtree that does not sum.
    pub sum: Option<u64>,
    /// The sum of the weights of the entries, where every entry has one.
    pub tally: Option<int>,
    /// The writes that store the nodes of the subtree that are not stored
    /// yet.
    pub unwritten: Seq<BackendWrite>,
}

/// The grove as a plain value: its subtrees by their prefixes, and the
/// prefixes of the leaves of the root in the order in which they were added.
pub struct GroveState {
    pub subtrees: Map<Seq<u8>, SubtreeState>,
    pub root_leaves: Seq<Seq<u8>>,
}

/// The prefixes of the subtrees in the order in which they were opened.
pub open spec fn opening_order(subtrees: Seq<Subtree>) -> Seq<Seq<u8>> {
    Seq::new(subtrees.len(), |i: int| subtrees[i].prefix_bytes())
}

/// An open subtree: its prefix, its Merk, and whether it is a sum tree.
#[derive(Debug)]
pub struct Subtree {
    prefix: Vec<u8>,
    merk: Merk,
    summed: bool,
}

impl Subtree {
    /// The prefix of the subtree.
    pub closed spec fn prefix_bytes(self) -> Seq<u8> {
        self.prefix@
    }

    /// The Merk of the subtree.
    pub closed spec fn tree(self) -> Merk {
        self.merk
    }

    /// Whether the subtree was opened as a sum tree.
    pub closed spec fn is_summed(self) -> bool {
        self.summed
    }

    /// What holds of every open subtree: its Merk is balanced and its hashes
    /// are up to date, and in a sum tree every entry counts with the weight
    /// of its value.
    pub open spec fn kept(self) -> bool {
        &&& self.tree().settled()
        &&& self.is_summed() ==> self.tree().tally().is_some()
        &&& self.is_summed() ==> forall|key: Seq<u8>| #[trigger]
            self.tree().weight_at(key) == stored_weight(self.tree()@, key)
    }

    /// The subtree as a plain value.
    pub open spec fn state(self) -> SubtreeState {
        SubtreeState {
            entries: self.tree()@,
            root_hash: self.tree().root_digest(),
            root: self.tree().root_option(),
            height: self.tree().height_value(),
            summed: self.is_summed(),
            sum: self.tree().sum_value(),
            tally: self.tree().tally(),
            unwritten: self.tree().unwritten(self.prefix_bytes()),
        }
    }
}

/// Whether the subtree at place `at` has the prefix.
pub open spec fn opened_at(subtrees: Seq<Subtree>, prefix: Seq<u8>, at: int) -> bool {
    0 <= at < subtrees.len() && subtrees[at].prefix_bytes() == prefix
}

/// Whether one of the subtrees has the prefix.
pub open spec fn opened(subtrees: Seq<Subtree>, prefix: Seq<u8>) -> bool {
    exists|at: int| opened_at(subtrees, prefix, at)
}

/// Whether each of the subtrees is as an open subtree is kept.
pub open spec fn all_kept(subtrees: Seq<Subtree>) -> bool {
    forall|k: int| 0 <= k < subtrees.len() ==> (#[trigger] subtrees[k]).kept()
}

/// The weight with which a key counts among the entries of a sum tree: that
/// of the value stored under it, and nothing where there is none.
pub open spec fn stored_weight(entries: Map<Seq<u8>, Seq<u8>>, key: Seq<u8>) -> int {
    if entries.dom().contains(key) {
        value_weight(entries[key]) as int
    } else {
        0
    }
}

/// What a write of a value under a key makes of a subtree: the entries of
/// before with the key set to the value; and in a sum tree the sum of the
/// weights changes by what the value weighs more than the value that was
/// stored under the key before.
pub open spec fn wrote(before: SubtreeState, after: SubtreeState, key: Seq<u8>, value: Seq<u8>)
    -> bool {
    &&& after.entries == before.entries.insert(key, value)
    &&& after.summed == before.summed
    &&& before.summed ==> (before.tally matches Some(total) ==> after.tally == Some(
        total - stored_weight(before.entries, key) + value_weight(value),
    ))
}

/// Whether the aggregate of a sum tree is the sum of the weights of its
/// entries, modulo 2^64; an empty subtree has no aggregate.
pub open spec fn sum_kept(subtree: SubtreeState) -> bool {
    subtree.summed ==> subtree.tally.is_some() && subtree.sum == if subtree.entries == Map::<
        Seq<u8>,
        Seq<u8>,
    >::empty() {
        None
    } else {
        Some(crate::tree::wrapped(subtree.tally.unwrap()))
    }
}

/// Whether no two of the subtrees have the same prefix.
pub open spec fn distinct(subtrees: Seq<Subtree>) -> bool {
    forall|i: int, j: int|
        0 <= i < j < subtrees.len() ==> (#[trigger] subtrees[i]).prefix_bytes() != (
        #[trigger] subtrees[j]).prefix_bytes()
}

/// The subtrees by their prefixes, as plain values.
pub open spec fn subtree_map(subtrees: Seq<Subtree>) -> Map<Seq<u8>, SubtreeState> {
    Map::new(
        |prefix: Seq<u8>| opened(subtrees, prefix),
        |prefix: Seq<u8>| subtrees[choose|at: int| opened_at(subtrees, prefix, at)].state(),
    )
}

/// Among subtrees with distinct prefixes, the map gives a prefix the state of
/// the one subtree that has it.
pub proof fn lemma_subtree_at(subtrees: Seq<Subtree>, at: int)
    requires
        distinct(subtrees),
        0 <= at < subtrees.len(),
    ensures
        subtree_map(subtrees).dom().contains(subtrees[at].prefix_bytes()),
        subtree_map(subtrees)[subtrees[at].prefix_bytes()] == subtrees[at].state(),
{
    let prefix = subtrees[at].prefix_bytes();
    assert(opened_at(subtrees, prefix, at));
    let chosen = choose|i: int| opened_at(subtrees, prefix, i);
    if chosen < at {
        assert(subtrees[chosen].prefix_bytes() != subtrees[at].prefix_bytes());
    } else if chosen > at {
        assert(subtrees[at].prefix_bytes() != subtrees[chosen].prefix_bytes());
    }
}

/// Replacing one subtree by another with the same prefix changes the map at
/// that prefix only.
pub proof fn lemma_subtree_replaced(subtrees: Seq<Subtree>, at: int, replacement: Subtree)
    requires
        distinct(subtrees),
        0 <= at < subtrees.len(),
        replacement.prefix_bytes() == subtrees[at].prefix_bytes(),
    ensures
        distinct(subtrees.update(at, replacement)),
        subtree_map(subtrees.update(at, replacement)) == subtree_map(subtrees).insert(
            replacement.prefix_bytes(),
            replacement.state(),
        ),
{
    let after = subtrees.update(at, replacement);
    let goal = subtree_map(subtrees).insert(replacement.prefix_bytes(), replacement.state());
    assert forall|i: int, j: int| 0 <= i < j < after.len() implies (
    #[trigger] after[i]).prefix_bytes() != (#[trigger] after[j]).prefix_bytes() by {
        assert(after[i].prefix_bytes() == subtrees[i].prefix_bytes());
        assert(after[j].prefix_bytes() == subtrees[j].prefix_bytes());
    }
    assert forall|prefix: Seq<u8>|
        #![trigger subtree_map(after).dom().contains(prefix)]
        #![trigger goal.dom().contains(prefix)]
        subtree_map(after).dom().contains(prefix) == goal.dom().contains(prefix) && (subtree_map(
            after,
        ).dom().contains(prefix) ==> subtree_map(after)[prefix] == goal[prefix]) by {
        if opened(after, prefix) {
            let i = choose|i: int| opened_at(after, prefix, i);
            assert(opened_at(subtrees, prefix, i));
            lemma_subtree_at(after, i);
            lemma_subtree_at(subtrees, i);
        }
        if opened(subtrees, prefix) {
            let i = choose|i: int| opened_at(subtrees, prefix, i);
            assert(opened_at(after, prefix, i));
        }
        lemma_subtree_at(after, at);
    }
    assert(subtree_map(after) =~= goal);
}

/// Adding a subtree whose prefix is new adds it to the map.
pub proof fn lemma_subtree_added(subtrees: Seq<Subtree>, added: Subtree)
    requires
        distinct(subtrees),
        !opened(subtrees, added.prefix_bytes()),
    ensures
        distinct(subtrees.push(added)),
        subtree_map(subtrees.push(added)) == subtree_map(subtrees).insert(
            added.prefix_bytes(),
            added.state(),
        ),
{
    let after = subtrees.push(added);
    let goal = subtree_map(subtrees).insert(added.prefix_bytes(), added.state());
    let n = subtrees.len() as int;
    assert forall|i: int, j: int| 0 <= i < j < after.len() implies (
    #[trigger] after[i]).prefix_bytes() != (#[trigger] after[j]).prefix_bytes() by {
        if j == n {
            assert(after[i] == subtrees[i]);
            if after[i].prefix_bytes() == added.prefix_bytes() {
                assert(opened_at(subtrees, added.prefix_bytes(), i));
            }
        } else {
            assert(after[i] == subtrees[i] && after[j] == subtrees[j]);
        }
    }
    assert forall|prefix: Seq<u8>|
        #![trigger subtree_map(after).dom().contains(prefix)]
        #![trigger goal.dom().contains(prefix)]
        subtree_map(after).dom().contains(prefix) == goal.dom().contains(prefix) && (subtree_map(
            after,
        ).dom().contains(prefix) ==> subtree_map(after)[prefix] == goal[prefix]) by {
        if opened(after, prefix) {
            let i = choose|i: int| opened_at(after, prefix, i);
            lemma_subtree_at(after, i);
            if i < n {
                assert(opened_at(subtrees, prefix, i));
                lemma_subtree_at(subtrees, i);
            }
        }
        if opened(subtrees, prefix) {
            let i = choose|i: int| opened_at(subtrees, prefix, i);
            assert(opened_at(after, prefix, i));
        }
        assert(opened_at(after, added.prefix_bytes(), n));
    }
    assert(subtree_map(after) =~= goal);
}

/// Whether two byte strings are the same.
pub fn same_bytes(a: &[u8], b: &[u8]) -> (same: bool)
    ensures
        same == (a@ == b@),
{
    match compare_keys(a, b) {
        KeyOrder::Same => true,
        _ => false,
    }
}

/// The place of the subtree with the prefix, if one is open.
pub fn find_subtree(subtrees: &Vec<Subtree>, prefix: &[u8]) -> (place: Option<usize>)
    ensures
        place.is_some() == opened(subtrees@, prefix@),
        place matches Some(at) ==> opened_at(subtrees@, prefix@, at as int),
{
    let mut i: usize = 0;
    while i < subtrees.len()
        invariant
            i <= subtrees.len(),
            forall|k: int| 0 <= k < i ==> !opened_at(subtrees@, prefix@, k),
        decreases subtrees.len() - i,
    {
        if same_bytes(subtrees[i].prefix.as_slice(), prefix) {
            assert(opened_at(subtrees@, prefix@, i as int));
            return Some(i);
        }
        i += 1;
    }
    None
}

/// The prefix of the subtree at the first `depth` segments of a path.
pub open spec fn prefix_at(path: Seq<Seq<u8>>, depth: int) -> Seq<u8> {
    subtree_prefix(path.take(depth))
}

/// The value stored under a key, if there is one.
pub open spec fn stored(entries: Map<Seq<u8>, Seq<u8>>, key: Seq<u8>) -> Option<Seq<u8>> {
    if entries.dom().contains(key) {
        Some(entries[key])
    } else {
        None
    }
}

/// An aggregate as a sum-tree element holds it: as a signed number, and zero
/// where there is none.
pub open spec fn stored_sum(sum: Option<u64>) -> i64 {
    match sum {
        Some(s) => s as i64,
        None => 0,
    }
}

/// What an element adds to the aggregate of a sum tree that holds it: a sum
/// item its number, a sum tree its sum, anything else nothing.
pub open spec fn element_weight(element: ElementModel) -> i64 {
    match element {
        ElementModel::SumItem(value, _) => value,
        ElementModel::SumTree(_, sum, _) => sum,
        _ => 0,
    }
}

/// What a stored value adds to the aggregate of a sum tree that holds it: the
/// weight of the element that it holds, and nothing where it holds none.
pub open spec fn value_weight(value: Seq<u8>) -> i64 {
    match decoded_element(value) {
        Ok(element) => element_weight(element),
        Err(_) => 0,
    }
}

/// The element that a parent holds of a child subtree once the child's root
/// hash is `root` and its aggregate `sum`: what was stored before with the
/// root hash replaced, and the sum where it is a sum tree, where that was a
/// subtree element, and a plain subtree element otherwise.
pub open spec fn refreshed_element(
    existing: Option<Seq<u8>>,
    root: Option<Seq<u8>>,
    sum: Option<u64>,
) -> ElementModel {
    match existing {
        Some(bytes) => match decoded_element(bytes) {
            Ok(ElementModel::Tree(_, flags)) => ElementModel::Tree(root, flags),
            Ok(ElementModel::SumTree(_, _, flags)) => ElementModel::SumTree(
                root,
                stored_sum(sum),
                flags,
            ),
            _ => ElementModel::Tree(root, None),
        },
        None => ElementModel::Tree(root, None),
    }
}

/// The grove.
#[derive(Debug)]
pub struct GroveDb {
    subtrees: Vec<Subtree>,
    root_leaf_keys: Vec<Vec<u8>>,
}

impl View for GroveDb {
    type V = GroveState;

    closed spec fn view(&self) -> GroveState {
        GroveState {
            subtrees: subtree_map(self.subtrees@),
            root_leaves: Seq::new(
                self.root_leaf_keys@.len(),
                |i: int| self.root_leaf_keys@[i]@,
            ),
        }
    }
}

/// The hash of the grove: the digest of the root hashes of the leaves of the
/// root, one after the other in the order in which the leaves were added. A
/// leaf whose subtree is not open counts with the null hash.
pub open spec fn grove_digest(state: GroveState) -> Seq<u8> {
    blake3_digest(leaf_hashes(state, state.root_leaves.len() as int))
}

/// The root hashes of the first `count` leaves of the root, one after the
/// other.
pub open spec fn leaf_hashes(state: GroveState, count: int) -> Seq<u8>
    decreases count,
{
    if count <= 0 {
        Seq::empty()
    } else {
        leaf_hashes(state, count - 1) + leaf_hash(state, state.root_leaves[count - 1])
    }
}

/// The root hash of the subtree with the prefix; the null hash where no such
/// subtree is open.
pub open spec fn leaf_hash(state: GroveState, prefix: Seq<u8>) -> Seq<u8> {
    if state.subtrees.dom().contains(prefix) {
        state.subtrees[prefix].root_hash
    } else {
        NULL_HASH@
    }
}

/// Subtrees with distinct prefixes, each as an open subtree is kept, make a
/// sound grove.
proof fn lemma_kept_is_sound(grove: GroveDb)
    requires
        distinct(grove.subtrees@),
        all_kept(grove.subtrees@),
    ensures
        grove.sound(),
{
    let subtrees = grove.subtrees@;
    assert forall|i: int| 0 <= i < grove.trees().len() implies (#[trigger] grove.trees()[i]).settled() by {
        assert(subtrees[i].kept());
    }
    assert forall|prefix: Seq<u8>| #[trigger]
        grove@.subtrees.dom().contains(prefix) implies sum_kept(grove@.subtrees[prefix]) by {
        let at = choose|at: int| opened_at(subtrees, prefix, at);
        lemma_subtree_at(subtrees, at);
        assert(subtrees[at].kept());
        if subtrees[at].is_summed() {
            crate::merk::lemma_sum_is_tally(subtrees[at].tree());
            crate::merk::lemma_no_root_is_empty(subtrees[at].tree());
        }
    }
}

impl GroveDb {
    #[verifier::type_invariant]
    spec fn inv(self) -> bool {
        distinct(self.subtrees@) && all_kept(self.subtrees@)
    }

    /// The Merks of the open subtrees, in the order of their opening.
    pub closed spec fn trees(self) -> Seq<Merk> {
        Seq::new(self.subtrees@.len(), |i: int| self.subtrees@[i].tree())
    }

    /// What holds of a grove between two operations: the Merk of every
    /// subtree is balanced at every node, with every hash up to date; and the
    /// aggregate of every sum tree is the sum of the weights of its entries.
    pub open spec fn sound(self) -> bool {
        &&& forall|i: int| 0 <= i < self.trees().len() ==> (#[trigger] self.trees()[i]).settled()
        &&& forall|prefix: Seq<u8>| #[trigger]
            self@.subtrees.dom().contains(prefix) ==> sum_kept(self@.subtrees[prefix])
    }

    /// In a sound grove every node of every subtree is balanced: its two
    /// sides differ in height by one at most.
    pub proof fn lemma_sound_is_balanced(self)
        requires
            self.sound(),
        ensures
            forall|i: int|
                0 <= i < self.trees().len() ==> ((#[trigger] self.trees()[i]).root_node() matches Some(
                    tree,
                ) ==> tree.avl()),
    {
        assert forall|i: int| 0 <= i < self.trees().len() implies ((#[trigger] self.trees()[i]).root_node() matches Some(
            tree,
        ) ==> tree.avl()) by {
            crate::merk::lemma_settled_is_balanced(self.trees()[i]);
        }
    }

    /// A grove without subtrees: nothing is open, nothing has been opened,
    /// and the root has no leaves.
    pub fn new() -> (grove: Self)
        ensures
            grove@.subtrees == Map::<Seq<u8>, SubtreeState>::empty(),
            grove@.root_leaves == Seq::<Seq<u8>>::empty(),
            grove.order() == Seq::<Seq<u8>>::empty(),
            grove.sound(),
    {
        let grove = GroveDb { subtrees: Vec::new(), root_leaf_keys: Vec::new() };
        assert forall|prefix: Seq<u8>| !opened(grove.subtrees@, prefix) by {
            if opened(grove.subtrees@, prefix) {
                let at = choose|at: int| opened_at(grove.subtrees@, prefix, at);
            }
        }
        assert(grove@.subtrees =~= Map::<Seq<u8>, SubtreeState>::empty());
        assert(grove@.root_leaves =~= Seq::<Seq<u8>>::empty());
        assert(grove.order() =~= Seq::<Seq<u8>>::empty());
        proof {
            lemma_kept_is_sound(grove);
        }
        grove
    }

    /// The prefix of the subtree at `path`, or of the subtree under `key` at
    /// `path` where a key is given.
    pub fn compress_subtree_key(path: &[&[u8]], key: Option<&[u8]>) -> (prefix: Vec<u8>)
        ensures
            prefix@ == subtree_prefix(
                match key {
                    Some(k) => path_view(path@).push(k@),
                    None => path_view(path@),
                },
            ),
            prefix@.len() == 32,
    {
        match key {
            None => prefix_digest(path),
            Some(k) => {
                let mut full: Vec<&[u8]> = Vec::new();
                let mut i: usize = 0;
                while i < path.len()
                    invariant
                        i <= path.len(),
                        full@ == path@.take(i as int),
                    decreases path.len() - i,
                {
                    full.push(path[i]);
                    i += 1;
                    assert(full@ =~= path@.take(i as int));
                }
                full.push(k);
                assert(path@.take(path.len() as int) =~= path@);
                assert(path_view(full@) =~= path_view(path@).push(k@));
                prefix_digest(full.as_slice())
            },
        }
    }

    /// Whether the subtree at `path` holds nothing. There must be a subtree
    /// at the path.
    pub fn is_empty_tree(&self, path: &[&[u8]]) -> (result: Result<bool, Error>)
        ensures
            match stored_subtree(self@, path_view(path@)) {
                Some(subtree) => result == Ok::<bool, Error>(
                    subtree.entries == Map::<Seq<u8>, Seq<u8>>::empty(),
                ),
                None => result == Err::<bool, Error>(Error::PathNotFound),
            },
    {
        proof {
            use_type_invariant(self);
        }
        let prefix = GroveDb::compress_subtree_key(path, None);
        match find_subtree(&self.subtrees, prefix.as_slice()) {
            None => Err(Error::PathNotFound),
            Some(at) => {
                proof {
                    lemma_subtree_at(self.subtrees@, at as int);
                }
                Ok(self.subtrees[at].merk.is_empty())
            },
        }
    }

    /// The element stored under `key` in the subtree at `path`, as it is
    /// stored: a reference is not followed.
    pub fn get_raw(&self, path: &[&[u8]], key: &[u8]) -> (result: Result<Element, Error>)
        ensures
            match stored_element(self@, path_view(path@), key@) {
                Ok(element) => result.is_ok() && result.unwrap()@ == element,
                Err(error) => result == Err::<Element, Error>(error),
            },
    {
        proof {
            use_type_invariant(self);
        }
        let prefix = GroveDb::compress_subtree_key(path, None);
        match find_subtree(&self.subtrees, prefix.as_slice()) {
            None => Err(Error::PathNotFound),
            Some(at) => {
                proof {
                    lemma_subtree_at(self.subtrees@, at as int);
                }
                match self.subtrees[at].merk.get(key) {
                    None => Err(Error::PathKeyNotFound),
                    Some(bytes) => match Element::deserialize(bytes) {
                        Ok(element) => Ok(element),
                        Err(_) => Err(Error::CorruptedData(UNREADABLE_ELEMENT)),
                    },
                }
            },
        }
    }

    /// The hash of the grove, which commits to every subtree below the root.
    pub fn root_hash(&self) -> (hash: CryptoHash)
        ensures
            hash@ == grove_digest(self@),
    {
        proof {
            use_type_invariant(self);
        }
        let mut input: Vec<u8> = Vec::new();
        let mut i: usize = 0;
        while i < self.root_leaf_keys.len()
            invariant
                i <= self.root_leaf_keys.len(),
                distinct(self.subtrees@),
                input@ == leaf_hashes(self@, i as int),
            decreases self.root_leaf_keys.len() - i,
        {
            let hash = match find_subtree(&self.subtrees, self.root_leaf_keys[i].as_slice()) {
                Some(at) => {
                    proof {
                        lemma_subtree_at(self.subtrees@, at as int);
                    }
                    self.subtrees[at].merk.root_hash()
                },
                None => NULL_HASH,
            };
            append_hash(&mut input, &hash);
            i += 1;
        }
        blake3_hash(input.as_slice())
    }
}

/// The subtree at a path, if one is open there.
pub open spec fn stored_subtree(state: GroveState, path: Seq<Seq<u8>>) -> Option<SubtreeState> {
    if state.subtrees.dom().contains(subtree_prefix(path)) {
        Some(state.subtrees[subtree_prefix(path)])
    } else {
        None
    }
}

/// The element stored under a key in the subtree at a path, or why there is
/// none to be had.
pub open spec fn stored_element(state: GroveState, path: Seq<Seq<u8>>, key: Seq<u8>) -> Result<
    ElementModel,
    Error,
> {
    match stored_subtree(state, path) {
        None => Err(Error::PathNotFound),
        Some(subtree) => match stored(subtree.entries, key) {
            None => Err(Error::PathKeyNotFound),
            Some(bytes) => match decoded_element(bytes) {
                Ok(element) => Ok(element),
                Err(_) => Err(Error::CorruptedData(UNREADABLE_ELEMENT)),
            },
        },
    }
}

/// Whether the subtrees are the same but for the one at place `at`, which
/// has kept its prefix and is a sum tree as before or none as before.
pub open spec fn same_but_at(before: Seq<Subtree>, after: Seq<Subtree>, at: int) -> bool {
    &&& after.len() == before.len()
    &&& forall|k: int| 0 <= k < before.len() && k != at ==> #[trigger] after[k] == before[k]
    &&& 0 <= at < before.len() ==> after[at].prefix_bytes() == before[at].prefix_bytes()
        && after[at].is_summed() == before[at].is_summed()
}

/// Sets a key to a value in the subtree at place `at`. In a sum tree the
/// entry counts with the given weight.
fn put_at(subtrees: &mut Vec<Subtree>, at: usize, key: &[u8], value: Vec<u8>, weight: i64)
    requires
        distinct(old(subtrees)@),
        at < old(subtrees)@.len(),
        all_kept(old(subtrees)@),
        key@.len() < 256,
        old(subtrees)@[at as int].tree().height_value() < 255,
        weight == value_weight(value@),
    ensures
        distinct(final(subtrees)@),
        all_kept(final(subtrees)@),
        same_but_at(old(subtrees)@, final(subtrees)@, at as int),
        wrote(
            old(subtrees)@[at as int].state(),
            final(subtrees)@[at as int].state(),
            key@,
            value@,
        ),
        final(subtrees)@[at as int].tree().height_value() <= old(
            subtrees,
        )@[at as int].tree().height_value() + 1,
{
    let mut subtree = subtrees.remove(at);
    let feature = if subtree.summed {
        TreeFeatureType::SummedMerk(weight)
    } else {
        TreeFeatureType::BasicMerk
    };
    let done = subtree.merk.put(key, value, feature);
    subtrees.insert(at, subtree);
    proof {
        assert(subtrees@ =~= old(subtrees)@.update(at as int, subtree));
        lemma_subtree_replaced(old(subtrees)@, at as int, subtree);
        assert(old(subtrees)@[at as int].kept());
        assert forall|k: int| 0 <= k < subtrees@.len() implies (#[trigger] subtrees@[k]).kept() by {
            if k != at {
                assert(old(subtrees)@[k].kept());
            }
        }
    }
}

/// Finds the open subtrees along a path: the place of the subtree at the
/// first segment, at the first two, and so on to the whole path. `None` where
/// one of them is not open.
fn resolve(subtrees: &Vec<Subtree>, path: &[&[u8]]) -> (places: Option<Vec<usize>>)
    ensures
        places.is_some() == (forall|i: int|
            1 <= i <= path@.len() ==> opened(
                subtrees@,
                #[trigger] prefix_at(path_view(path@), i),
            )),
        places matches Some(found) ==> found@.len() == path@.len() && (forall|i: int|
            #![trigger prefix_at(path_view(path@), i)]
            1 <= i <= path@.len() ==> opened_at(
                subtrees@,
                prefix_at(path_view(path@), i),
                found@[i - 1] as int,
            )),
{
    let mut found: Vec<usize> = Vec::new();
    let mut depth: usize = 0;
    while depth < path.len()
        invariant
            depth <= path.len(),
            found@.len() == depth,
            forall|i: int|
                #![trigger prefix_at(path_view(path@), i)]
                1 <= i <= depth ==> opened_at(
                    subtrees@,
                    prefix_at(path_view(path@), i),
                    found@[i - 1] as int,
                ),
        decreases path.len() - depth,
    {
        depth += 1;
        let front = vstd::slice::slice_subrange(path, 0, depth);
        assert(path_view(front@) =~= path_view(path@).take(depth as int));
        let prefix = prefix_digest(front);
        match find_subtree(subtrees, prefix.as_slice()) {
            None => {
                assert(!opened(subtrees@, prefix_at(path_view(path@), depth as int)));
                return None;
            },
            Some(at) => {
                found.push(at);
            },
        }
    }
    Some(found)
}

/// Whether no place occurs twice.
fn all_different(places: &Vec<usize>) -> (different: bool)
    ensures
        different == (forall|i: int, j: int|
            0 <= i < j < places@.len() ==> places@[i] != places@[j]),
{
    let mut j: usize = 0;
    while j < places.len()
        invariant
            j <= places.len(),
            forall|a: int, b: int| 0 <= a < b < j ==> places@[a] != places@[b],
        decreases places.len() - j,
    {
        let mut i: usize = 0;
        while i < j
            invariant
                i <= j < places.len(),
                forall|a: int| 0 <= a < i ==> places@[a] != places@[j as int],
            decreases j - i,
        {
            if places[i] == places[j] {
                return false;
            }
            i += 1;
        }
        j += 1;
    }
    true
}

/// Whether every segment of the path but the first is shorter than 256
/// bytes: those are the keys under which the subtrees along the path are
/// stored in their parents.
fn segments_short(path: &[&[u8]]) -> (short: bool)
    ensures
        short == (forall|i: int| 1 <= i < path@.len() ==> (#[trigger] path@[i])@.len() < 256),
{
    let mut i: usize = 1;
    while i < path.len()
        invariant
            1 <= i,
            forall|k: int| 1 <= k < i && k < path@.len() ==> (#[trigger] path@[k])@.len() < 256,
        decreases path.len() - i,
    {
        if path[i].len() >= 256 {
            return false;
        }
        i += 1;
    }
    true
}

/// Whether each of the subtrees at the given places can grow by a level.
fn all_can_grow(subtrees: &Vec<Subtree>, places: &Vec<usize>) -> (room: bool)
    requires
        forall|i: int| 0 <= i < places@.len() ==> places@[i] < subtrees@.len(),
    ensures
        room == (forall|i: int|
            0 <= i < places@.len() ==> (#[trigger] subtrees@[places@[i] as int])
                .tree().height_value() < 255),
{
    let mut i: usize = 0;
    while i < places.len()
        invariant
            i <= places.len(),
            forall|k: int| 0 <= k < places@.len() ==> places@[k] < subtrees@.len(),
            forall|k: int|
                0 <= k < i ==> (#[trigger] subtrees@[places@[k] as int]).tree().height_value()
                    < 255,
        decreases places.len() - i,
    {
        if subtrees[places[i]].merk.height() >= 255 {
            return false;
        }
        i += 1;
    }
    true
}

/// Whether `place` is among the places from `from` on.
pub open spec fn touched(places: Seq<usize>, from: int, place: int) -> bool {
    exists|j: int| from <= j < places.len() && #[trigger] places[j] == place
}

/// What holds of the subtrees once a value has been written at the end of a
/// path and the change has been carried up to the level `level` of the path:
/// the value is written under the key into the subtree at the end; into every
/// subtree on the path above level `level` is written, under the next
/// segment, the refreshed element of the subtree below it; and every other
/// subtree is as it was.
/// `places[i - 1]` is the place of the subtree at the first `i` segments.
pub open spec fn written_through(
    before: Seq<Subtree>,
    after: Seq<Subtree>,
    places: Seq<usize>,
    path: Seq<Seq<u8>>,
    key: Seq<u8>,
    value: Seq<u8>,
    level: int,
) -> bool {
    let n = path.len() as int;
    &&& after.len() == before.len()
    &&& forall|k: int|
        0 <= k < before.len() ==> (#[trigger] after[k]).prefix_bytes() == before[k].prefix_bytes()
    &&& forall|k: int|
        0 <= k < before.len() && !touched(places, level - 1, k) ==> #[trigger] after[k]
            == before[k]
    &&& wrote(
        before[places[n - 1] as int].state(),
        after[places[n - 1] as int].state(),
        key,
        value,
    )
    &&& forall|i: int|
        #![trigger path[i]]
        level <= i < n && 1 <= i ==> wrote(
            before[places[i - 1] as int].state(),
            after[places[i - 1] as int].state(),
            path[i],
            encoded_element(
                refreshed_element(
                    stored(before[places[i - 1] as int].tree()@, path[i]),
                    after[places[i] as int].tree().root_option(),
                    after[places[i] as int].tree().sum_value(),
                ),
            ),
        )
}

/// An aggregate as a sum-tree element holds it.
fn signed_sum(sum: Option<u64>) -> (signed: i64)
    ensures
        signed == stored_sum(sum),
{
    match sum {
        Some(s) => #[verifier::truncate] (s as i64),
        None => 0,
    }
}

/// What an element adds to the aggregate of a sum tree that holds it.
fn weigh(element: &Element) -> (weight: i64)
    ensures
        weight == element_weight(element@),
{
    match element {
        Element::SumItem(value, _) => *value,
        Element::SumTree(_, sum, _) => *sum,
        _ => 0,
    }
}

/// The element that a parent is to hold of a child subtree once the child's
/// root hash is `root` and its aggregate `sum`.
fn refresh(existing: Option<&[u8]>, root: Option<CryptoHash>, sum: Option<u64>) -> (element:
    Element)
    ensures
        element@ == refreshed_element(
            match existing {
                Some(bytes) => Some(bytes@),
                None => None,
            },
            hash_view(root),
            sum,
        ),
{
    match existing {
        None => Element::Tree(root, None),
        Some(bytes) => match Element::deserialize(bytes) {
            Ok(Element::Tree(_, flags)) => Element::Tree(root, flags),
            Ok(Element::SumTree(_, _, flags)) => Element::SumTree(root, signed_sum(sum), flags),
            _ => Element::Tree(root, None),
        },
    }
}

/// Writes into the parent at level `level` of the path the refreshed element
/// of its child at level `level + 1`, with the child's root hash and
/// aggregate.
fn carry_up(subtrees: &mut Vec<Subtree>, places: &Vec<usize>, path: &[&[u8]], level: usize)
    requires
        distinct(old(subtrees)@),
        places@.len() == path@.len(),
        1 <= level < path@.len(),
        forall|i: int| 0 <= i < places@.len() ==> places@[i] < old(subtrees)@.len(),
        places@[level as int] != places@[level - 1],
        path@[level as int]@.len() < 256,
        old(subtrees)@[places@[level - 1] as int].tree().height_value() < 255,
        all_kept(old(subtrees)@),
    ensures
        distinct(final(subtrees)@),
        all_kept(final(subtrees)@),
        same_but_at(old(subtrees)@, final(subtrees)@, places@[level - 1] as int),
        wrote(
            old(subtrees)@[places@[level - 1] as int].state(),
            final(subtrees)@[places@[level - 1] as int].state(),
            path@[level as int]@,
            encoded_element(
                refreshed_element(
                    stored(
                        old(subtrees)@[places@[level - 1] as int].tree()@,
                        path@[level as int]@,
                    ),
                    old(subtrees)@[places@[level as int] as int].tree().root_option(),
                    old(subtrees)@[places@[level as int] as int].tree().sum_value(),
                ),
            ),
        ),
{
    let child_at: usize = places[level];
    let parent_at: usize = places[level - 1];
    let segment: &[u8] = path[level];
    let root = subtrees[child_at].merk.root_or_none();
    let sum = subtrees[child_at].merk.root_sum();
    let element = refresh(subtrees[parent_at].merk.get(segment), root, sum);
    let weight = weigh(&element);
    let value = element.serialize();
    proof {
        crate::element::lemma_element_roundtrip(element@);
    }
    put_at(subtrees, parent_at, segment, value, weight);
}

/// Writes a value under a key into the subtree at the end of a path and
/// carries the change up the path: each subtree above gets the refreshed
/// element of the subtree below it.
fn write_through(
    subtrees: &mut Vec<Subtree>,
    places: &Vec<usize>,
    path: &[&[u8]],
    key: &[u8],
    value: Vec<u8>,
    weight: i64,
)
    requires
        distinct(old(subtrees)@),
        places@.len() == path@.len(),
        path@.len() >= 1,
        forall|i: int| 0 <= i < places@.len() ==> places@[i] < old(subtrees)@.len(),
        forall|i: int, j: int| 0 <= i < j < places@.len() ==> places@[i] != places@[j],
        key@.len() < 256,
        forall|i: int| 1 <= i < path@.len() ==> (#[trigger] path@[i])@.len() < 256,
        forall|i: int|
            0 <= i < places@.len() ==> (#[trigger] old(subtrees)@[places@[i] as int])
                .tree().height_value() < 255,
        all_kept(old(subtrees)@),
        weight == value_weight(value@),
    ensures
        distinct(final(subtrees)@),
        all_kept(final(subtrees)@),
        written_through(
            old(subtrees)@,
            final(subtrees)@,
            places@,
            path_view(path@),
            key@,
            value@,
            1,
        ),
        opening_order(final(subtrees)@) == opening_order(old(subtrees)@),
{
    let n: usize = path.len();
    let ghost segments = path_view(path@);
    put_at(subtrees, places[n - 1], key, value, weight);
    proof {
        assert forall|k: int|
            0 <= k < old(subtrees)@.len() && !touched(places@, n - 1, k) implies #[trigger] subtrees@[k]
            == old(subtrees)@[k] by {
            if k == places@[n - 1] {
                assert(touched(places@, n - 1, k));
            }
        }
    }
    let mut level: usize = n - 1;
    while level >= 1
        invariant
            level < n,
            n == path@.len(),
            places@.len() == n,
            segments == path_view(path@),
            distinct(subtrees@),
            all_kept(subtrees@),
            forall|i: int| 0 <= i < places@.len() ==> places@[i] < old(subtrees)@.len(),
            forall|i: int, j: int| 0 <= i < j < places@.len() ==> places@[i] != places@[j],
            forall|i: int| 1 <= i < path@.len() ==> (#[trigger] path@[i])@.len() < 256,
            forall|i: int|
                0 <= i < places@.len() ==> (#[trigger] old(subtrees)@[places@[i] as int])
                    .tree().height_value() < 255,
            written_through(
                old(subtrees)@,
                subtrees@,
                places@,
                segments,
                key@,
                value@,
                level + 1,
            ),
        decreases level,
    {
        let ghost before = subtrees@;
        proof {
            let parent = places@[level - 1] as int;
            if touched(places@, level as int, parent) {
                let j = choose|j: int| level <= j < places@.len() && places@[j] == parent;
                assert(places@[level - 1] != places@[j]);
            }
            assert(before[parent] == old(subtrees)@[parent]);
        }
        carry_up(subtrees, places, path, level);
        proof {
            lemma_carried(old(subtrees)@, before, subtrees@, places@, segments, key@, value@, level as int);
        }
        level -= 1;
    }
    assert(opening_order(subtrees@) =~= opening_order(old(subtrees)@));
}

/// One more level of a path has taken in the change from below.
proof fn lemma_carried(
    origin: Seq<Subtree>,
    before: Seq<Subtree>,
    after: Seq<Subtree>,
    places: Seq<usize>,
    path: Seq<Seq<u8>>,
    key: Seq<u8>,
    value: Seq<u8>,
    level: int,
)
    requires
        places.len() == path.len(),
        1 <= level < path.len(),
        forall|i: int| 0 <= i < places.len() ==> places[i] < origin.len(),
        forall|i: int, j: int| 0 <= i < j < places.len() ==> places[i] != places[j],
        written_through(origin, before, places, path, key, value, level + 1),
        before[places[level - 1] as int] == origin[places[level - 1] as int],
        same_but_at(before, after, places[level - 1] as int),
        wrote(
            before[places[level - 1] as int].state(),
            after[places[level - 1] as int].state(),
            path[level],
            encoded_element(
                refreshed_element(
                    stored(before[places[level - 1] as int].tree()@, path[level]),
                    before[places[level] as int].tree().root_option(),
                    before[places[level] as int].tree().sum_value(),
                ),
            ),
        ),
    ensures
        written_through(origin, after, places, path, key, value, level),
{
    let n = path.len() as int;
    let parent = places[level - 1] as int;
    assert(touched(places, level - 1, parent));
    assert forall|k: int| 0 <= k < origin.len() && !touched(places, level - 1, k) implies #[trigger] after[k]
        == origin[k] by {
        if touched(places, level, k) {
            let j = choose|j: int| level <= j < places.len() && places[j] == k;
            assert(touched(places, level - 1, k));
        }
        assert(k != parent);
    }
    assert(places[n - 1] != places[level - 1]);
    assert(after[places[n - 1] as int] == before[places[n - 1] as int]);
    assert forall|i: int|
        #![trigger path[i]]
        level <= i < n && 1 <= i implies wrote(
        origin[places[i - 1] as int].state(),
        after[places[i - 1] as int].state(),
        path[i],
        encoded_element(
            refreshed_element(
                stored(origin[places[i - 1] as int].tree()@, path[i]),
                after[places[i] as int].tree().root_option(),
                after[places[i] as int].tree().sum_value(),
            ),
        ),
    ) by {
        assert(places[i] != places[level - 1]);
        assert(after[places[i] as int] == before[places[i] as int]);
        if i > level {
            assert(places[i - 1] != places[level - 1]);
            assert(after[places[i - 1] as int] == before[places[i - 1] as int]);
        }
    }
}

/// Whether the prefix is that of a subtree on the path: at its first
/// segment, at its first two, and so on to the whole path.
pub open spec fn on_path(path: Seq<Seq<u8>>, prefix: Seq<u8>) -> bool {
    exists|i: int| 1 <= i <= path.len() && #[trigger] prefix_at(path, i) == prefix
}

/// What a write at the end of a path makes of the grove: the value is
/// written under the key into the subtree at the end; into every subtree on
/// the path above it is written, under the next segment of the path, the
/// refreshed element of the subtree below it, with that subtree's new root
/// hash and aggregate; every other subtree and the leaves of the root are as
/// they were. (`j` stands for the level
/// below `i`.)
pub open spec fn propagated(
    before: GroveState,
    after: GroveState,
    path: Seq<Seq<u8>>,
    key: Seq<u8>,
    value: Seq<u8>,
) -> bool {
    let n = path.len() as int;
    &&& after.root_leaves == before.root_leaves
    &&& after.subtrees.dom() == before.subtrees.dom()
    &&& forall|prefix: Seq<u8>|
        #[trigger] before.subtrees.dom().contains(prefix) && !on_path(path, prefix)
            ==> after.subtrees[prefix] == before.subtrees[prefix]
    &&& wrote(
        before.subtrees[prefix_at(path, n)],
        after.subtrees[prefix_at(path, n)],
        key,
        value,
    )
    &&& forall|i: int, j: int|
        #![trigger prefix_at(path, i), prefix_at(path, j)]
        1 <= i < n && j == i + 1 ==> wrote(
            before.subtrees[prefix_at(path, i)],
            after.subtrees[prefix_at(path, i)],
            path[i],
            encoded_element(
                refreshed_element(
                    stored(before.subtrees[prefix_at(path, i)].entries, path[i]),
                    after.subtrees[prefix_at(path, j)].root,
                    after.subtrees[prefix_at(path, j)].sum,
                ),
            ),
        )
}

/// Why nothing can be written at the end of a path, if anything stands in
/// the way: a subtree on the path that is not open; two subtrees on the path
/// with one prefix; a key, or a segment under which a subtree is stored, of
/// 256 bytes or more; a subtree on the path that cannot grow.
pub open spec fn path_fault(state: GroveState, path: Seq<Seq<u8>>, key: Seq<u8>) -> Option<
    Error,
> {
    let n = path.len() as int;
    if exists|i: int| 1 <= i <= n && !state.subtrees.dom().contains(#[trigger] prefix_at(path, i)) {
        Some(Error::InvalidPath(NO_SUBTREE_AT_PATH))
    } else if exists|i: int, j: int|
        1 <= i < j <= n && #[trigger] prefix_at(path, i) == #[trigger] prefix_at(path, j) {
        Some(Error::CorruptedData(PREFIXES_COLLIDE))
    } else if key.len() >= 256 || exists|i: int| 1 <= i < n && (#[trigger] path[i]).len() >= 256 {
        Some(Error::InvalidCodeExecution(KEY_TOO_LONG))
    } else if exists|i: int|
        1 <= i <= n && state.subtrees[#[trigger] prefix_at(path, i)].height >= 255 {
        Some(Error::InvalidCodeExecution(TREE_TOO_HIGH))
    } else {
        None
    }
}

/// The index facts of a resolved path say what the map of subtrees says.
proof fn lemma_places(subtrees: Seq<Subtree>, places: Seq<usize>, path: Seq<Seq<u8>>)
    requires
        distinct(subtrees),
        places.len() == path.len(),
        forall|i: int|
            #![trigger prefix_at(path, i)]
            1 <= i <= path.len() ==> opened_at(subtrees, prefix_at(path, i), places[i - 1] as int),
    ensures
        forall|i: int|
            #![trigger prefix_at(path, i)]
            1 <= i <= path.len() ==> subtree_map(subtrees).dom().contains(prefix_at(path, i))
                && subtree_map(subtrees)[prefix_at(path, i)] == subtrees[places[i
                - 1] as int].state(),
        forall|i: int, j: int|
            #![trigger prefix_at(path, i), prefix_at(path, j)]
            1 <= i <= path.len() && 1 <= j <= path.len() ==> (prefix_at(path, i) == prefix_at(
                path,
                j,
            )) == (places[i - 1] == places[j - 1]),
        forall|k: int|
            0 <= k < subtrees.len() ==> on_path(path, (#[trigger] subtrees[k]).prefix_bytes())
                == touched(places, 0, k),
{
    assert forall|i: int|
        #![trigger prefix_at(path, i)]
        1 <= i <= path.len() implies subtree_map(subtrees).dom().contains(prefix_at(path, i))
        && subtree_map(subtrees)[prefix_at(path, i)] == subtrees[places[i - 1] as int].state() by {
        lemma_subtree_at(subtrees, places[i - 1] as int);
    }
    assert forall|i: int, j: int|
        #![trigger prefix_at(path, i), prefix_at(path, j)]
        1 <= i <= path.len() && 1 <= j <= path.len() implies (prefix_at(path, i) == prefix_at(
        path,
        j,
    )) == (places[i - 1] == places[j - 1]) by {
        let a = places[i - 1] as int;
        let b = places[j - 1] as int;
        assert(opened_at(subtrees, prefix_at(path, i), a));
        assert(opened_at(subtrees, prefix_at(path, j), b));
        if a < b {
            assert(subtrees[a].prefix_bytes() != subtrees[b].prefix_bytes());
        } else if b < a {
            assert(subtrees[b].prefix_bytes() != subtrees[a].prefix_bytes());
        }
    }
    assert forall|k: int| 0 <= k < subtrees.len() implies on_path(
        path,
        (#[trigger] subtrees[k]).prefix_bytes(),
    ) == touched(places, 0, k) by {
        let prefix = subtrees[k].prefix_bytes();
        if on_path(path, prefix) {
            let i = choose|i: int| 1 <= i <= path.len() && #[trigger] prefix_at(path, i) == prefix;
            let a = places[i - 1] as int;
            assert(opened_at(subtrees, prefix_at(path, i), a));
            if a < k {
                assert(subtrees[a].prefix_bytes() != subtrees[k].prefix_bytes());
            } else if k < a {
                assert(subtrees[k].prefix_bytes() != subtrees[a].prefix_bytes());
            }
            assert(places[i - 1] == k);
        }
        if touched(places, 0, k) {
            let j = choose|j: int| 0 <= j < places.len() && #[trigger] places[j] == k;
            assert(opened_at(subtrees, prefix_at(path, j + 1), places[j + 1 - 1] as int));
        }
    }
}

/// What has been written through the places of a path is what the grove as
/// a plain value shows as propagated.
proof fn lemma_written_is_propagated(
    before: Seq<Subtree>,
    after: Seq<Subtree>,
    leaves: Seq<Seq<u8>>,
    places: Seq<usize>,
    path: Seq<Seq<u8>>,
    key: Seq<u8>,
    value: Seq<u8>,
)
    requires
        distinct(before),
        distinct(after),
        path.len() >= 1,
        places.len() == path.len(),
        forall|i: int|
            #![trigger prefix_at(path, i)]
            1 <= i <= path.len() ==> opened_at(before, prefix_at(path, i), places[i - 1] as int),
        written_through(before, after, places, path, key, value, 1),
    ensures
        propagated(
            GroveState { subtrees: subtree_map(before), root_leaves: leaves },
            GroveState { subtrees: subtree_map(after), root_leaves: leaves },
            path,
            key,
            value,
        ),
{
    let old_map = subtree_map(before);
    let new_map = subtree_map(after);
    let n = path.len() as int;
    assert forall|i: int|
        #![trigger prefix_at(path, i)]
        1 <= i <= path.len() implies opened_at(after, prefix_at(path, i), places[i - 1] as int) by {
        assert(opened_at(before, prefix_at(path, i), places[i - 1] as int));
        assert(after[places[i - 1] as int].prefix_bytes() == before[places[i
            - 1] as int].prefix_bytes());
    }
    lemma_places(before, places, path);
    lemma_places(after, places, path);
    assert forall|prefix: Seq<u8>| new_map.dom().contains(prefix) == old_map.dom().contains(
        prefix,
    ) by {
        if opened(after, prefix) {
            let k = choose|k: int| opened_at(after, prefix, k);
            assert(after[k].prefix_bytes() == before[k].prefix_bytes());
            assert(opened_at(before, prefix, k));
        }
        if opened(before, prefix) {
            let k = choose|k: int| opened_at(before, prefix, k);
            assert(after[k].prefix_bytes() == before[k].prefix_bytes());
            assert(opened_at(after, prefix, k));
        }
    }
    assert(new_map.dom() =~= old_map.dom());
    assert forall|prefix: Seq<u8>| #[trigger]
        old_map.dom().contains(prefix) && !on_path(path, prefix) implies new_map[prefix]
        == old_map[prefix] by {
        let k = choose|k: int| opened_at(before, prefix, k);
        assert(before[k].prefix_bytes() == prefix);
        assert(!touched(places, 0, k));
        assert(after[k] == before[k]);
        lemma_subtree_at(before, k);
        lemma_subtree_at(after, k);
    }
    assert(prefix_at(path, n) == prefix_at(path, n));
    assert forall|i: int, j: int|
        #![trigger prefix_at(path, i), prefix_at(path, j)]
        1 <= i < n && j == i + 1 implies wrote(
        old_map[prefix_at(path, i)],
        new_map[prefix_at(path, i)],
        path[i],
        encoded_element(
            refreshed_element(
                stored(old_map[prefix_at(path, i)].entries, path[i]),
                new_map[prefix_at(path, j)].root,
                new_map[prefix_at(path, j)].sum,
            ),
        ),
    ) by {
        let seg = path[i];
    }
}

/// A subtree that holds nothing, as a plain value.
pub open spec fn empty_subtree(summed: bool) -> SubtreeState {
    SubtreeState {
        entries: Map::empty(),
        root_hash: NULL_HASH@,
        root: None,
        height: 0,
        summed,
        sum: None,
        tally: Some(0),
        unwritten: Seq::empty(),
    }
}

/// The grove with a subtree at the prefix: as it is where that subtree is
/// open, and with an empty subtree added where it is not, a sum tree if
/// `summed` says so.
pub open spec fn with_subtree(state: GroveState, prefix: Seq<u8>, summed: bool) -> GroveState {
    if state.subtrees.dom().contains(prefix) {
        state
    } else {
        GroveState { subtrees: state.subtrees.insert(prefix, empty_subtree(summed)), ..state }
    }
}

/// The grove with the prefix among the leaves of its root: as it is where
/// the prefix is a leaf already, and with the prefix as the last leaf where it
/// is not.
pub open spec fn with_root_leaf(state: GroveState, prefix: Seq<u8>) -> GroveState {
    if state.root_leaves.contains(prefix) {
        state
    } else {
        GroveState { root_leaves: state.root_leaves.push(prefix), ..state }
    }
}

/// The element that a parent holds of a new child subtree: the subtree
/// element as it was given, with the root hash of the child as it is, and
/// with its aggregate where it is a sum tree.
pub open spec fn as_child(element: ElementModel, root: Option<Seq<u8>>, sum: Option<u64>)
    -> ElementModel {
    match element {
        ElementModel::SumTree(_, _, flags) => ElementModel::SumTree(root, stored_sum(sum), flags),
        ElementModel::Tree(_, flags) => ElementModel::Tree(root, flags),
        other => other,
    }
}

/// Whether the element opens a subtree.
pub open spec fn is_subtree(element: ElementModel) -> bool {
    element is Tree || element is SumTree
}

/// Why an element cannot be inserted, if anything stands in the way. A
/// subtree can always become a leaf of the root; any other element at the
/// root is refused. Below the root the path must be fit to be written at, and
/// a new subtree must not share its prefix with a subtree on the path.
pub open spec fn insert_fault(
    state: GroveState,
    path: Seq<Seq<u8>>,
    key: Seq<u8>,
    element: ElementModel,
) -> Option<Error> {
    if path.len() == 0 {
        if is_subtree(element) {
            None
        } else {
            Some(Error::InvalidPath(ONLY_SUBTREES_AT_ROOT))
        }
    } else {
        match path_fault(state, path, key) {
            Some(error) => Some(error),
            None => if is_subtree(element) && on_path(path, subtree_prefix(path.push(key))) {
                Some(Error::CorruptedData(PREFIXES_COLLIDE))
            } else {
                None
            },
        }
    }
}

/// What an insertion makes of the grove. A subtree at the root is opened,
/// empty unless it was open already, and becomes a leaf of the root; a sum
/// tree is opened as one. A subtree below the root is opened in the same way
/// and its element, with its root hash and aggregate, is written into its
/// parent and carried up the path. Any other element is written into the
/// subtree at the path and carried up.
pub open spec fn inserted(
    before: GroveState,
    after: GroveState,
    path: Seq<Seq<u8>>,
    key: Seq<u8>,
    element: ElementModel,
) -> bool {
    let child = subtree_prefix(path.push(key));
    if is_subtree(element) {
        let opened = with_subtree(before, child, element is SumTree);
        if path.len() == 0 {
            after.subtrees == opened.subtrees && after.root_leaves == with_root_leaf(
                before,
                child,
            ).root_leaves
        } else {
            propagated(
                opened,
                after,
                path,
                key,
                encoded_element(
                    as_child(element, opened.subtrees[child].root, opened.subtrees[child].sum),
                ),
            )
        }
    } else {
        propagated(before, after, path, key, encoded_element(element))
    }
}

/// The order of opening after an insertion: a subtree that the insertion
/// opens comes last, and nothing else changes.
pub open spec fn order_after(
    state: GroveState,
    order: Seq<Seq<u8>>,
    path: Seq<Seq<u8>>,
    key: Seq<u8>,
    element: ElementModel,
) -> Seq<Seq<u8>> {
    let child = subtree_prefix(path.push(key));
    if insert_fault(state, path, key, element).is_none() && is_subtree(element)
        && !state.subtrees.dom().contains(child) {
        order.push(child)
    } else {
        order
    }
}

/// Finds the subtrees along a path and makes sure that a value can be
/// written at its end.
fn check_path(subtrees: &Vec<Subtree>, path: &[&[u8]], key: &[u8]) -> (result: Result<
    Vec<usize>,
    Error,
>)
    requires
        distinct(subtrees@),
    ensures
        match path_fault(
            GroveState { subtrees: subtree_map(subtrees@), root_leaves: Seq::empty() },
            path_view(path@),
            key@,
        ) {
            Some(error) => result == Err::<Vec<usize>, Error>(error),
            None => result.is_ok() && ({
                let places = result.unwrap()@;
                &&& places.len() == path@.len()
                &&& forall|i: int|
                    #![trigger prefix_at(path_view(path@), i)]
                    1 <= i <= path@.len() ==> opened_at(
                        subtrees@,
                        prefix_at(path_view(path@), i),
                        places[i - 1] as int,
                    )
                &&& forall|i: int| 0 <= i < places.len() ==> places[i] < subtrees@.len()
                &&& forall|i: int, j: int| 0 <= i < j < places.len() ==> places[i] != places[j]
                &&& key@.len() < 256
                &&& forall|i: int| 1 <= i < path@.len() ==> (#[trigger] path@[i])@.len() < 256
                &&& forall|i: int|
                    0 <= i < places.len() ==> (#[trigger] subtrees@[places[i] as int])
                        .tree().height_value() < 255
            }),
        },
{
    let ghost segments = path_view(path@);
    let ghost map = subtree_map(subtrees@);
    let places = match resolve(subtrees, path) {
        None => {
            proof {
                let i = choose|i: int|
                    1 <= i <= path@.len() && !opened(subtrees@, #[trigger] prefix_at(segments, i));
                assert(!map.dom().contains(prefix_at(segments, i)));
            }
            return Err(Error::InvalidPath(NO_SUBTREE_AT_PATH));
        },
        Some(places) => places,
    };
    proof {
        lemma_places(subtrees@, places@, segments);
        assert forall|i: int| 1 <= i <= path@.len() implies map.dom().contains(
            #[trigger] prefix_at(segments, i),
        ) by {
            assert(opened_at(subtrees@, prefix_at(segments, i), places@[i - 1] as int));
        }
    }
    if !all_different(&places) {
        proof {
            let (a, b) = choose|a: int, b: int|
                0 <= a < b < places@.len() && places@[a] == places@[b];
            assert(prefix_at(segments, a + 1) == prefix_at(segments, b + 1));
        }
        return Err(Error::CorruptedData(PREFIXES_COLLIDE));
    }
    proof {
        assert forall|i: int, j: int| 1 <= i < j <= path@.len() implies #[trigger] prefix_at(
            segments,
            i,
        ) != #[trigger] prefix_at(segments, j) by {
            assert(places@[i - 1] != places@[j - 1]);
        }
    }
    if key.len() >= 256 || !segments_short(path) {
        proof {
            if key@.len() < 256 {
                let i = choose|i: int| 1 <= i < path@.len() && !((#[trigger] path@[i])@.len() < 256);
                assert(segments[i].len() >= 256);
            }
        }
        return Err(Error::InvalidCodeExecution(KEY_TOO_LONG));
    }
    proof {
        assert forall|i: int| 1 <= i < segments.len() implies (#[trigger] segments[i]).len()
            < 256 by {
            assert(path@[i]@.len() < 256);
        }
    }
    proof {
        assert forall|i: int| 0 <= i < places@.len() implies places@[i] < subtrees@.len() by {
            assert(opened_at(subtrees@, prefix_at(segments, i + 1), places@[i + 1 - 1] as int));
        }
    }
    if !all_can_grow(subtrees, &places) {
        proof {
            let i = choose|i: int|
                0 <= i < places@.len() && !((#[trigger] subtrees@[places@[i] as int])
                    .tree().height_value() < 255);
            assert(map[prefix_at(segments, i + 1)] == subtrees@[places@[i + 1 - 1] as int].state());
        }
        return Err(Error::InvalidCodeExecution(TREE_TOO_HIGH));
    }
    proof {
        assert forall|i: int| 1 <= i <= path@.len() implies map[#[trigger] prefix_at(
            segments,
            i,
        )].height < 255 by {
            assert(map[prefix_at(segments, i)] == subtrees@[places@[i - 1] as int].state());
        }
    }
    Ok(places)
}

/// Whether the element opens a sum tree.
fn is_sum_tree(element: &Element) -> (yes: bool)
    ensures
        yes == (element@ is SumTree),
{
    match element {
        Element::SumTree(..) => true,
        _ => false,
    }
}

/// Whether `at` is among the places.
fn place_taken(places: &Vec<usize>, at: usize) -> (taken: bool)
    ensures
        taken == touched(places@, 0, at as int),
{
    let mut i: usize = 0;
    while i < places.len()
        invariant
            i <= places.len(),
            forall|k: int| 0 <= k < i ==> places@[k] != at,
        decreases places.len() - i,
    {
        if places[i] == at {
            assert(touched(places@, 0, at as int));
            return true;
        }
        i += 1;
    }
    proof {
        if touched(places@, 0, at as int) {
            let j = choose|j: int| 0 <= j < places@.len() && #[trigger] places@[j] == at;
        }
    }
    false
}

/// Whether one of the leaves is the prefix.
fn leaf_known(leaves: &Vec<Vec<u8>>, prefix: &[u8]) -> (known: bool)
    ensures
        known == Seq::new(leaves@.len(), |i: int| leaves@[i]@).contains(prefix@),
{
    let ghost views = Seq::new(leaves@.len(), |i: int| leaves@[i]@);
    let mut i: usize = 0;
    while i < leaves.len()
        invariant
            i <= leaves.len(),
            views == Seq::new(leaves@.len(), |i: int| leaves@[i]@),
            forall|k: int| 0 <= k < i ==> views[k] != prefix@,
        decreases leaves.len() - i,
    {
        if same_bytes(leaves[i].as_slice(), prefix) {
            assert(views[i as int] == prefix@);
            return true;
        }
        i += 1;
    }
    false
}

/// Builds the prefix of the subtree under `key` at `path` and a Merk for it
/// that holds nothing yet.
fn create_merk_with_prefix(path: &[&[u8]], key: &[u8]) -> (created: (Vec<u8>, Merk))
    ensures
        created.0@ == subtree_prefix(path_view(path@).push(key@)),
        created.1@ == Map::<Seq<u8>, Seq<u8>>::empty(),
        created.1.root_node().is_none(),
        created.1.settled(),
{
    (GroveDb::compress_subtree_key(path, Some(key)), Merk::new())
}

/// Opens an empty subtree under `key` at `path` unless one is open there.
fn open_subtree(subtrees: &mut Vec<Subtree>, path: &[&[u8]], key: &[u8], summed: bool) -> (prefix:
    Vec<u8>)
    requires
        distinct(old(subtrees)@),
        all_kept(old(subtrees)@),
    ensures
        distinct(final(subtrees)@),
        all_kept(final(subtrees)@),
        prefix@ == subtree_prefix(path_view(path@).push(key@)),
        subtree_map(final(subtrees)@) == with_subtree(
            GroveState { subtrees: subtree_map(old(subtrees)@), root_leaves: Seq::empty() },
            prefix@,
            summed,
        ).subtrees,
        final(subtrees)@.len() >= old(subtrees)@.len(),
        forall|k: int| 0 <= k < old(subtrees)@.len() ==> #[trigger] final(subtrees)@[k] == old(
            subtrees,
        )@[k],
        opening_order(final(subtrees)@) == if opened(old(subtrees)@, prefix@) {
            opening_order(old(subtrees)@)
        } else {
            opening_order(old(subtrees)@).push(prefix@)
        },
{
    let (prefix, merk) = create_merk_with_prefix(path, key);
    if find_subtree(subtrees, prefix.as_slice()).is_none() {
        let added = Subtree { prefix: crate::storage::clone_bytes(&prefix), merk, summed };
        proof {
            lemma_subtree_added(subtrees@, added);
            assert(added.state() == empty_subtree(summed));
            assert(added.kept());
        }
        subtrees.push(added);
        assert(opening_order(subtrees@) =~= opening_order(old(subtrees)@).push(prefix@));
    }
    prefix
}

impl GroveDb {
    /// Makes the subtree under `key` a leaf of the root: the subtree is
    /// opened, holding nothing unless it was open already, as a sum tree if
    /// `summed` says so, and takes the next place among the leaves unless it
    /// has one.
    fn add_root_leaf(&mut self, key: &[u8], summed: bool) -> (result: Result<(), Error>)
        ensures
            result.is_ok(),
            final(self)@.subtrees == with_subtree(
                old(self)@,
                subtree_prefix(seq![key@]),
                summed,
            ).subtrees,
            final(self)@.root_leaves == with_root_leaf(
                old(self)@,
                subtree_prefix(seq![key@]),
            ).root_leaves,
            final(self).order() == if old(self)@.subtrees.dom().contains(
                subtree_prefix(seq![key@]),
            ) {
                old(self).order()
            } else {
                old(self).order().push(subtree_prefix(seq![key@]))
            },
    {
        proof {
            use_type_invariant(&*self);
        }
        let root: Vec<&[u8]> = Vec::new();
        assert(path_view(root@).push(key@) =~= seq![key@]);
        let mut subtrees: Vec<Subtree> = Vec::new();
        std::mem::swap(&mut subtrees, &mut self.subtrees);
        let prefix = open_subtree(&mut subtrees, root.as_slice(), key, summed);
        self.subtrees = subtrees;
        if !leaf_known(&self.root_leaf_keys, prefix.as_slice()) {
            let mut leaves: Vec<Vec<u8>> = Vec::new();
            std::mem::swap(&mut leaves, &mut self.root_leaf_keys);
            leaves.push(prefix);
            self.root_leaf_keys = leaves;
            assert(self@.root_leaves =~= old(self)@.root_leaves.push(prefix@));
        } else {
            assert(self@.root_leaves =~= old(self)@.root_leaves);
        }
        Ok(())
    }

    /// Adds a subtree under `key` to the subtree at `path`: the new subtree
    /// is opened, holding nothing unless it was open already, and its element
    /// is written into its parent with its root hash and carried up the path.
    fn add_non_root_subtree(&mut self, path: &[&[u8]], key: Vec<u8>, element: Element) -> (result:
        Result<(), Error>)
        requires
            path@.len() >= 1,
            is_subtree(element@),
        ensures
            match insert_fault(old(self)@, path_view(path@), key@, element@) {
                Some(error) => result == Err::<(), Error>(error) && final(self)@ == old(self)@,
                None => result.is_ok() && inserted(
                    old(self)@,
                    final(self)@,
                    path_view(path@),
                    key@,
                    element@,
                ),
            },
            final(self).order() == order_after(
                old(self)@,
                old(self).order(),
                path_view(path@),
                key@,
                element@,
            ),
    {
        proof {
            use_type_invariant(&*self);
        }
        let ghost segments = path_view(path@);
        let ghost before = self.subtrees@;
        let places = match check_path(&self.subtrees, path, key.as_slice()) {
            Err(error) => {
                return Err(error);
            },
            Ok(places) => places,
        };
        let child = GroveDb::compress_subtree_key(path, Some(key.as_slice()));
        proof {
            lemma_places(before, places@, segments);
        }
        match find_subtree(&self.subtrees, child.as_slice()) {
            Some(at) => {
                proof {
                    assert(before[at as int].prefix_bytes() == child@);
                    assert(on_path(segments, before[at as int].prefix_bytes()) == touched(
                        places@,
                        0,
                        at as int,
                    ));
                }
                if place_taken(&places, at) {
                    return Err(Error::CorruptedData(PREFIXES_COLLIDE));
                }
            },
            None => {
                proof {
                    if on_path(segments, child@) {
                        let i = choose|i: int|
                            1 <= i <= segments.len() && #[trigger] prefix_at(segments, i) == child@;
                        assert(opened_at(before, prefix_at(segments, i), places@[i - 1] as int));
                    }
                }
            },
        }
        let mut subtrees: Vec<Subtree> = Vec::new();
        std::mem::swap(&mut subtrees, &mut self.subtrees);
        let summed = is_sum_tree(&element);
        let prefix = open_subtree(&mut subtrees, path, key.as_slice(), summed);
        let ghost opened_state = subtrees@;
        proof {
            let mid = with_subtree(
                GroveState { subtrees: subtree_map(before), root_leaves: Seq::empty() },
                prefix@,
                summed,
            );
            assert(mid.subtrees.dom().contains(prefix@));
            assert(subtree_map(opened_state).dom().contains(prefix@));
            assert(opened(opened_state, prefix@));
        }
        let at = find_subtree(&subtrees, prefix.as_slice()).unwrap();
        proof {
            lemma_subtree_at(opened_state, at as int);
        }
        let root = subtrees[at].merk.root_or_none();
        let sum = subtrees[at].merk.root_sum();
        let record = match element {
            Element::SumTree(_, _, flags) => Element::SumTree(root, signed_sum(sum), flags),
            Element::Tree(_, flags) => Element::Tree(root, flags),
            other => other,
        };
        let weight = weigh(&record);
        let value = record.serialize();
        proof {
            crate::element::lemma_element_roundtrip(record@);
        }
        proof {
            assert forall|i: int|
                #![trigger prefix_at(segments, i)]
                1 <= i <= segments.len() implies opened_at(
                opened_state,
                prefix_at(segments, i),
                places@[i - 1] as int,
            ) by {
                assert(opened_at(before, prefix_at(segments, i), places@[i - 1] as int));
            }
        }
        write_through(&mut subtrees, &places, path, key.as_slice(), value, weight);
        proof {
            lemma_written_is_propagated(
                opened_state,
                subtrees@,
                old(self)@.root_leaves,
                places@,
                segments,
                key@,
                value@,
            );
        }
        self.subtrees = subtrees;
        proof {
            assert(self@.root_leaves =~= old(self)@.root_leaves);
            let mid = with_subtree(old(self)@, child@, summed);
            assert(mid.subtrees == subtree_map(opened_state));
            assert(mid.root_leaves == old(self)@.root_leaves);
        }
        Ok(())
    }

    /// Inserts an element under `key` into the subtree at `path` and carries
    /// the change up to the root: every subtree on the way takes the new root
    /// hash of the subtree below it, and the new aggregate where that is a
    /// sum tree. A subtree element opens the subtree that it stands for; at
    /// the root only subtrees are taken. Where the insertion is refused the
    /// grove stays as it is.
    pub fn insert(&mut self, path: &[&[u8]], key: Vec<u8>, element: Element) -> (result: Result<
        (),
        Error,
    >)
        ensures
            match insert_fault(old(self)@, path_view(path@), key@, element@) {
                Some(error) => result == Err::<(), Error>(error) && final(self)@ == old(self)@,
                None => result.is_ok() && inserted(
                    old(self)@,
                    final(self)@,
                    path_view(path@),
                    key@,
                    element@,
                ),
            },
            final(self).order() == order_after(
                old(self)@,
                old(self).order(),
                path_view(path@),
                key@,
                element@,
            ),
            final(self).sound(),
    {
        proof {
            use_type_invariant(&*self);
        }
        let ghost segments = path_view(path@);
        if element.is_tree() {
            let result = if path.len() == 0 {
                assert(segments.push(key@) =~= seq![key@]);
                self.add_root_leaf(key.as_slice(), is_sum_tree(&element))
            } else {
                self.add_non_root_subtree(path, key, element)
            };
            proof {
                use_type_invariant(&*self);
                lemma_kept_is_sound(*self);
            }
            result
        } else {
            if path.len() == 0 {
                proof {
                    lemma_kept_is_sound(*self);
                }
                return Err(Error::InvalidPath(ONLY_SUBTREES_AT_ROOT));
            }
            let places = match check_path(&self.subtrees, path, key.as_slice()) {
                Err(error) => {
                    proof {
                        lemma_kept_is_sound(*self);
                    }
                    return Err(error);
                },
                Ok(places) => places,
            };
            let weight = weigh(&element);
            let value = element.serialize();
            proof {
                crate::element::lemma_element_roundtrip(element@);
            }
            let mut subtrees: Vec<Subtree> = Vec::new();
            std::mem::swap(&mut subtrees, &mut self.subtrees);
            let ghost before = subtrees@;
            write_through(&mut subtrees, &places, path, key.as_slice(), value, weight);
            proof {
                lemma_written_is_propagated(
                    before,
                    subtrees@,
                    old(self)@.root_leaves,
                    places@,
                    segments,
                    key@,
                    value@,
                );
            }
            self.subtrees = subtrees;
            proof {
                assert(self@.root_leaves =~= old(self)@.root_leaves);
                lemma_kept_is_sound(*self);
            }
            Ok(())
        }
    }

    /// Inserts the element unless a lookup of `key` in the subtree at `path`,
    /// following references, finds an element already; says whether it did
    /// insert. A reference that leads nowhere counts as nothing found, and is
    /// overwritten.
    pub fn insert_if_not_exists(&mut self, path: &[&[u8]], key: Vec<u8>, element: Element) -> (result:
        Result<bool, Error>)
        ensures
            resolved(old(self)@, path_view(path@), key@, MAX_REFERENCE_HOPS as nat).is_ok()
                ==> result == Ok::<bool, Error>(false) && final(self)@ == old(self)@,
            resolved(old(self)@, path_view(path@), key@, MAX_REFERENCE_HOPS as nat).is_err()
                ==> match insert_fault(old(self)@, path_view(path@), key@, element@) {
                Some(error) => result == Err::<bool, Error>(error) && final(self)@ == old(self)@,
                None => result == Ok::<bool, Error>(true) && inserted(
                    old(self)@,
                    final(self)@,
                    path_view(path@),
                    key@,
                    element@,
                ),
            },
            final(self).order() == if resolved(
                old(self)@,
                path_view(path@),
                key@,
                MAX_REFERENCE_HOPS as nat,
            ).is_ok() {
                old(self).order()
            } else {
                order_after(old(self)@, old(self).order(), path_view(path@), key@, element@)
            },
            final(self).sound(),
    {
        if self.get(path, key.as_slice()).is_ok() {
            proof {
                use_type_invariant(&*self);
                lemma_kept_is_sound(*self);
            }
            return Ok(false);
        }
        match self.insert(path, key, element) {
            Ok(_) => Ok(true),
            Err(e) => Err(e),
        }
    }
}

/// What a lookup finds when it follows references, `hops` of them at most:
/// the first element on the way that is no reference. A reference names the
/// path of its target, the last segment being the key. A chain that is longer
/// than the hops allowed, as every cycle is, ends in `ReferenceLimit`.
pub open spec fn resolved(state: GroveState, path: Seq<Seq<u8>>, key: Seq<u8>, hops: nat)
    -> Result<ElementModel, Error>
    decreases hops,
{
    match stored_element(state, path, key) {
        Err(error) => Err(error),
        Ok(ElementModel::Reference(target, _)) => if hops == 0 {
            Err(Error::ReferenceLimit)
        } else if target.len() == 0 {
            Err(Error::InvalidPath(EMPTY_REFERENCE))
        } else {
            resolved(state, target.drop_last(), target.last(), (hops - 1) as nat)
        },
        Ok(element) => Ok(element),
    }
}

/// The segments of a path as slices.
fn as_slices(path: &Vec<Vec<u8>>, count: usize) -> (slices: Vec<&[u8]>)
    requires
        count <= path@.len(),
    ensures
        path_view(slices@) == crate::element::segments_view(path@).take(count as int),
{
    let mut slices: Vec<&[u8]> = Vec::new();
    let mut i: usize = 0;
    while i < count
        invariant
            i <= count <= path@.len(),
            slices@.len() == i,
            forall|k: int| 0 <= k < i ==> (#[trigger] slices@[k])@ == path@[k]@,
        decreases count - i,
    {
        slices.push(path[i].as_slice());
        i += 1;
    }
    assert(path_view(slices@) =~= crate::element::segments_view(path@).take(count as int));
    slices
}

impl GroveDb {
    /// The element stored under `key` in the subtree at `path`; where that
    /// is a reference, the element that it leads to, through ten references
    /// at most.
    pub fn get(&self, path: &[&[u8]], key: &[u8]) -> (result: Result<Element, Error>)
        ensures
            match resolved(self@, path_view(path@), key@, MAX_REFERENCE_HOPS as nat) {
                Ok(element) => result.is_ok() && result.unwrap()@ == element,
                Err(error) => result == Err::<Element, Error>(error),
            },
    {
        let ghost goal = resolved(self@, path_view(path@), key@, MAX_REFERENCE_HOPS as nat);
        let mut target: Vec<Vec<u8>> = match self.get_raw(path, key) {
            Err(error) => {
                return Err(error);
            },
            Ok(Element::Reference(target, _)) => target,
            Ok(element) => {
                return Ok(element);
            },
        };
        let mut hops: usize = MAX_REFERENCE_HOPS;
        loop
            invariant
                hops <= MAX_REFERENCE_HOPS,
                goal == (if hops == 0 {
                    Err::<ElementModel, Error>(Error::ReferenceLimit)
                } else if target@.len() == 0 {
                    Err::<ElementModel, Error>(Error::InvalidPath(EMPTY_REFERENCE))
                } else {
                    resolved(
                        self@,
                        crate::element::segments_view(target@).drop_last(),
                        crate::element::segments_view(target@).last(),
                        (hops - 1) as nat,
                    )
                }),
                goal == resolved(self@, path_view(path@), key@, MAX_REFERENCE_HOPS as nat),
            decreases hops,
        {
            if hops == 0 {
                return Err(Error::ReferenceLimit);
            }
            if target.len() == 0 {
                return Err(Error::InvalidPath(EMPTY_REFERENCE));
            }
            let last: usize = target.len() - 1;
            let front = as_slices(&target, last);
            proof {
                let segments = crate::element::segments_view(target@);
                assert(segments.take(last as int) =~= segments.drop_last());
                assert(segments.last() == target@[last as int]@);
            }
            let next = match self.get_raw(front.as_slice(), target[last].as_slice()) {
                Err(error) => {
                    return Err(error);
                },
                Ok(Element::Reference(next, _)) => next,
                Ok(element) => {
                    return Ok(element);
                },
            };
            target = next;
            hops -= 1;
        }
    }
}

/// The writes that store the nodes not yet stored of the first `count`
/// subtrees in the order of their opening.
pub open spec fn subtree_writes(state: GroveState, order: Seq<Seq<u8>>, count: int) -> Seq<
    BackendWrite,
>
    decreases count,
{
    if count <= 0 {
        Seq::empty()
    } else {
        subtree_writes(state, order, count - 1) + state.subtrees[order[count - 1]].unwritten
    }
}

/// The write that records a leaf of the root: its prefix in the roots column
/// family, with its place among the leaves as eight bytes.
pub open spec fn leaf_write(prefix: Seq<u8>, place: int) -> BackendWrite {
    BackendWrite {
        column_family: ColumnFamily::Roots,
        key: prefix,
        value: Some(crate::codec::u64_to_be_bytes(place as u64)),
    }
}

/// The writes that record the first `count` leaves of the root.
pub open spec fn leaf_writes(leaves: Seq<Seq<u8>>, count: int) -> Seq<BackendWrite>
    decreases count,
{
    if count <= 0 {
        Seq::empty()
    } else {
        leaf_writes(leaves, count - 1).push(leaf_write(leaves[count - 1], count - 1))
    }
}

/// The writes that bring the backend up to date with the grove: for every
/// subtree, in the order of their opening, the nodes that are not stored yet,
/// and then the leaves of the root.
pub open spec fn pending_writes(state: GroveState, order: Seq<Seq<u8>>) -> Seq<BackendWrite> {
    subtree_writes(state, order, order.len() as int) + leaf_writes(
        state.root_leaves,
        state.root_leaves.len() as int,
    )
}

/// A subtree once its nodes are stored: only its root is written again when
/// it is next stored.
pub open spec fn rewritten(subtree: SubtreeState) -> SubtreeState {
    SubtreeState {
        unwritten: if subtree.unwritten.len() == 0 {
            Seq::empty()
        } else {
            seq![subtree.unwritten.last()]
        },
        ..subtree
    }
}

/// The writes that store the nodes not yet stored of the first `count`
/// subtrees.
spec fn writes_upto(subtrees: Seq<Subtree>, count: int) -> Seq<BackendWrite>
    decreases count,
{
    if count <= 0 {
        Seq::empty()
    } else {
        writes_upto(subtrees, count - 1) + subtrees[count - 1].state().unwritten
    }
}

/// The writes of the subtrees by their places are those of the grove as a
/// plain value by the order of opening.
proof fn lemma_writes_upto(subtrees: Seq<Subtree>, leaves: Seq<Seq<u8>>, count: int)
    requires
        distinct(subtrees),
        0 <= count <= subtrees.len(),
    ensures
        writes_upto(subtrees, count) == subtree_writes(
            GroveState { subtrees: subtree_map(subtrees), root_leaves: leaves },
            opening_order(subtrees),
            count,
        ),
    decreases count,
{
    if count > 0 {
        lemma_writes_upto(subtrees, leaves, count - 1);
        lemma_subtree_at(subtrees, count - 1);
    }
}

/// Stores the nodes of the subtree at place `at`.
fn commit_at(subtrees: &mut Vec<Subtree>, at: usize, batch: &mut StorageBatch)
    requires
        distinct(old(subtrees)@),
        all_kept(old(subtrees)@),
        at < old(subtrees)@.len(),
    ensures
        distinct(final(subtrees)@),
        all_kept(final(subtrees)@),
        same_but_at(old(subtrees)@, final(subtrees)@, at as int),
        final(subtrees)@[at as int].state() == rewritten(old(subtrees)@[at as int].state()),
        final(batch)@ == old(batch)@ + old(subtrees)@[at as int].state().unwritten,
{
    let mut subtree = subtrees.remove(at);
    let ghost before = subtree;
    subtree.merk.commit(subtree.prefix.as_slice(), batch);
    proof {
        if let Some(tree) = before.merk.root_node() {
            let writes = tree.writes(before.prefix@);
            assert(writes.last() == tree.write(before.prefix@));
        }
        assert(subtree.state().unwritten =~= rewritten(before.state()).unwritten);
    }
    subtrees.insert(at, subtree);
    proof {
        assert(subtrees@ =~= old(subtrees)@.update(at as int, subtree));
        lemma_subtree_replaced(old(subtrees)@, at as int, subtree);
        assert(old(subtrees)@[at as int].kept());
        assert forall|k: int| 0 <= k < subtrees@.len() implies (#[trigger] subtrees@[k]).kept() by {
            if k != at {
                assert(old(subtrees)@[k].kept());
            }
        }
    }
}

impl GroveDb {
    /// The prefixes of the subtrees in the order in which they were opened.
    pub closed spec fn order(self) -> Seq<Seq<u8>> {
        opening_order(self.subtrees@)
    }

    /// The subtrees that are open are those whose prefixes the order of
    /// opening holds, each once.
    pub proof fn lemma_order(self)
        ensures
            forall|prefix: Seq<u8>|
                self@.subtrees.dom().contains(prefix) == self.order().contains(prefix),
    {
        let subtrees = self.subtrees@;
        assert forall|prefix: Seq<u8>|
            self@.subtrees.dom().contains(prefix) == self.order().contains(prefix) by {
            if opened(subtrees, prefix) {
                let at = choose|at: int| opened_at(subtrees, prefix, at);
                assert(self.order()[at] == prefix);
            }
            if self.order().contains(prefix) {
                let at = choose|at: int| 0 <= at < self.order().len() && self.order()[at] == prefix;
                assert(opened_at(subtrees, prefix, at));
            }
        }
    }

    /// Gathers the writes that bring the backend up to date with the grove:
    /// the nodes of every subtree that are not stored yet, and the leaves of
    /// the root. The nodes count as stored from then on; nothing else
    /// changes.
    pub fn commit(&mut self) -> (batch: StorageBatch)
        ensures
            batch@ == pending_writes(old(self)@, old(self).order()),
            final(self).order() == old(self).order(),
            final(self)@.root_leaves == old(self)@.root_leaves,
            final(self)@.subtrees.dom() == old(self)@.subtrees.dom(),
            forall|prefix: Seq<u8>| #[trigger]
                old(self)@.subtrees.dom().contains(prefix) ==> final(self)@.subtrees[prefix]
                    == rewritten(old(self)@.subtrees[prefix]),
            final(self).sound(),
    {
        proof {
            use_type_invariant(&*self);
        }
        let mut batch = StorageBatch::new();
        let mut subtrees: Vec<Subtree> = Vec::new();
        std::mem::swap(&mut subtrees, &mut self.subtrees);
        let ghost before = subtrees@;
        let mut i: usize = 0;
        while i < subtrees.len()
            invariant
                i <= subtrees@.len(),
                subtrees@.len() == before.len(),
                distinct(before),
                distinct(subtrees@),
                all_kept(subtrees@),
                forall|k: int|
                    0 <= k < before.len() ==> (#[trigger] subtrees@[k]).prefix_bytes()
                        == before[k].prefix_bytes(),
                forall|k: int|
                    0 <= k < i ==> (#[trigger] subtrees@[k]).state() == rewritten(
                        before[k].state(),
                    ),
                forall|k: int| i <= k < before.len() ==> #[trigger] subtrees@[k] == before[k],
                batch@ == writes_upto(before, i as int),
            decreases subtrees@.len() - i,
        {
            let ghost previous = subtrees@;
            commit_at(&mut subtrees, i, &mut batch);
            proof {
                assert forall|k: int| 0 <= k < i implies (#[trigger] subtrees@[k]).state()
                    == rewritten(before[k].state()) by {
                    assert(subtrees@[k] == previous[k]);
                }
            }
            i += 1;
        }
        proof {
            lemma_writes_upto(before, old(self)@.root_leaves, before.len() as int);
            assert(opening_order(subtrees@) =~= opening_order(before));
            lemma_rewritten_map(before, subtrees@);
        }
        self.subtrees = subtrees;
        proof {
            lemma_kept_is_sound(*self);
        }
        let ghost leaves = self@.root_leaves;
        assert(leaves =~= old(self)@.root_leaves);
        let ghost stored = batch@;
        let mut j: usize = 0;
        while j < self.root_leaf_keys.len()
            invariant
                j <= self.root_leaf_keys@.len(),
                leaves == Seq::new(
                    self.root_leaf_keys@.len(),
                    |i: int| self.root_leaf_keys@[i]@,
                ),
                batch@ == stored + leaf_writes(leaves, j as int),
            decreases self.root_leaf_keys@.len() - j,
        {
            let key = crate::storage::clone_bytes(&self.root_leaf_keys[j]);
            let mut value: Vec<u8> = Vec::new();
            crate::codec::append_u64_be(&mut value, j as u64);
            assert(value@ =~= crate::codec::u64_to_be_bytes(j as u64));
            batch.put_root(key, value);
            j += 1;
            assert(batch@ =~= stored + leaf_writes(leaves, j as int));
        }
        batch
    }
}

/// Subtrees that have kept their prefixes and of which each is as it was but
/// stored make up the map of before with every subtree stored.
proof fn lemma_rewritten_map(before: Seq<Subtree>, after: Seq<Subtree>)
    requires
        distinct(before),
        distinct(after),
        after.len() == before.len(),
        forall|k: int|
            0 <= k < before.len() ==> (#[trigger] after[k]).prefix_bytes()
                == before[k].prefix_bytes(),
        forall|k: int|
            0 <= k < before.len() ==> (#[trigger] after[k]).state() == rewritten(
                before[k].state(),
            ),
    ensures
        subtree_map(after).dom() == subtree_map(before).dom(),
        forall|prefix: Seq<u8>| #[trigger]
            subtree_map(before).dom().contains(prefix) ==> subtree_map(after)[prefix] == rewritten(
                subtree_map(before)[prefix],
            ),
{
    assert forall|prefix: Seq<u8>| subtree_map(after).dom().contains(prefix) == subtree_map(
        before,
    ).dom().contains(prefix) by {
        if opened(after, prefix) {
            let k = choose|k: int| opened_at(after, prefix, k);
            assert(after[k].prefix_bytes() == before[k].prefix_bytes());
            assert(opened_at(before, prefix, k));
        }
        if opened(before, prefix) {
            let k = choose|k: int| opened_at(before, prefix, k);
            assert(after[k].prefix_bytes() == before[k].prefix_bytes());
            assert(opened_at(after, prefix, k));
        }
    }
    assert(subtree_map(after).dom() =~= subtree_map(before).dom());
    assert forall|prefix: Seq<u8>| #[trigger]
        subtree_map(before).dom().contains(prefix) implies subtree_map(after)[prefix] == rewritten(
        subtree_map(before)[prefix],
    ) by {
        let k = choose|k: int| opened_at(before, prefix, k);
        assert(after[k].prefix_bytes() == before[k].prefix_bytes());
        lemma_subtree_at(before, k);
        lemma_subtree_at(after, k);
    }
}

} // verus!
