//! A node of a Merk tree: a key, a value with its hashes, and the links to the
//! two children.

use vstd::prelude::*;
use crate::costs::{CostContext, OperationCost};
use crate::hash::{
    blake3_digest, hash_fails, kv_digest, kv_hash, lemma_digest_not_null, lemma_one_digest,
    node_digest, node_hash, value_digest, value_hash, CryptoHash, NULL_HASH,
};
use crate::link::Link;

verus! {

/// What a node adds to the aggregate of its tree.
#[derive(Clone, Copy, Debug, PartialEq, Eq, Structural)]
pub enum TreeFeatureType {
    /// A node of a tree without aggregate.
    BasicMerk,
    /// A node of a sum tree, with its own weight.
    SummedMerk(i64),
}

/// The key and value of a node, with the hashes that commit to them.
#[derive(Debug, PartialEq, Eq)]
pub struct KV {
    key: Vec<u8>,
    value: Vec<u8>,
    feature_type: TreeFeatureType,
    value_hash: CryptoHash,
    hash: CryptoHash,
}

/// What a node holds.
#[derive(Debug, PartialEq, Eq)]
pub struct TreeInner {
    left: Option<Link>,
    right: Option<Link>,
    kv: KV,
}

/// A node of a Merk tree.
#[derive(Debug, PartialEq, Eq)]
pub struct Tree {
    inner: Box<TreeInner>,
}

impl Clone for Tree {
    fn clone(&self) -> (copy: Self)
        ensures
            self.alike(copy),
    {
        self.duplicate()
    }
}

impl Tree {
    /// The key of the node.
    pub closed spec fn key_bytes(self) -> Seq<u8> {
        self.inner.kv.key@
    }

    /// The value of the node.
    pub closed spec fn value_bytes(self) -> Seq<u8> {
        self.inner.kv.value@
    }

    /// What the node adds to the aggregate of its tree.
    pub closed spec fn feature(self) -> TreeFeatureType {
        self.inner.kv.feature_type
    }

    /// The hash of the node's value.
    pub closed spec fn value_hash_bytes(self) -> Seq<u8> {
        self.inner.kv.value_hash@
    }

    /// The hash of the node's key and value.
    pub closed spec fn kv_hash_bytes(self) -> Seq<u8> {
        self.inner.kv.hash@
    }

    /// The link to the left (`true`) or right (`false`) child, if there is one.
    pub closed spec fn child(self, left: bool) -> Option<Link> {
        if left {
            self.inner.left
        } else {
            self.inner.right
        }
    }

    /// The number of hashes that the child on the given side still has to
    /// compute: what a modified link says, and zero for any other.
    pub open spec fn pending_of(self, left: bool) -> nat {
        match self.child(left) {
            Some(Link::Modified { pending_writes, .. }) => pending_writes as nat,
            _ => 0,
        }
    }

    /// The height of the child on the given side, zero where there is none.
    pub open spec fn height_of(self, left: bool) -> nat {
        match self.child(left) {
            Some(link) => link.height_value(),
            None => 0,
        }
    }

    /// The hashes of the node's key and value are those of its key and value.
    pub open spec fn hashes_match(self) -> bool {
        &&& self.value_hash_bytes() == value_digest(self.value_bytes())
        &&& self.kv_hash_bytes() == kv_digest(self.key_bytes(), self.value_hash_bytes())
    }

    #[verifier::type_invariant]
    spec fn inv(self) -> bool {
        &&& self.child(true) matches Some(link) ==> link.height_fits()
        &&& self.child(false) matches Some(link) ==> link.height_fits()
    }

    /// A node without children. Costs three hashes: of the value, of the
    /// key, and of the two together.
    pub fn new(key: Vec<u8>, value: Vec<u8>, feature_type: TreeFeatureType) -> (tree: CostContext<
        Tree,
    >)
        ensures
            tree.value.key_bytes() == key@,
            tree.value.value_bytes() == value@,
            tree.value.feature() == feature_type,
            tree.value.child(true).is_none(),
            tree.value.child(false).is_none(),
            tree.value.hashes_match(),
            tree.cost == (OperationCost { hash_node_calls: 3, ..OperationCost::none() }),
    {
        let value_hash = value_hash(value.as_slice());
        let hash = kv_hash(key.as_slice(), &value_hash);
        let tree = Tree {
            inner: Box::new(
                TreeInner {
                    left: None,
                    right: None,
                    kv: KV { key, value, feature_type, value_hash, hash },
                },
            ),
        };
        CostContext::wrap_with_cost(tree, OperationCost::with_hash_node_calls(3))
    }

    /// The hashes of a node have 32 bytes each.
    pub proof fn lemma_hash_lengths(self)
        ensures
            self.kv_hash_bytes().len() == 32,
            self.value_hash_bytes().len() == 32,
    {
    }

    /// A node from its parts, as they come out of a record: nothing is
    /// hashed, the hashes are taken as given.
    pub fn from_parts(
        key: Vec<u8>,
        value: Vec<u8>,
        feature_type: TreeFeatureType,
        value_hash: CryptoHash,
        kv_hash: CryptoHash,
        left: Option<Link>,
        right: Option<Link>,
    ) -> (tree: Tree)
        requires
            left matches Some(l) ==> l.height_fits(),
            right matches Some(l) ==> l.height_fits(),
        ensures
            tree.key_bytes() == key@,
            tree.value_bytes() == value@,
            tree.feature() == feature_type,
            tree.value_hash_bytes() == value_hash@,
            tree.kv_hash_bytes() == kv_hash@,
            tree.child(true) == left,
            tree.child(false) == right,
    {
        Tree {
            inner: Box::new(
                TreeInner {
                    left,
                    right,
                    kv: KV { key, value, feature_type, value_hash, hash: kv_hash },
                },
            ),
        }
    }

    /// The key of the node.
    pub fn key(&self) -> (key: &[u8])
        ensures
            key@ == self.key_bytes(),
    {
        self.inner.kv.key.as_slice()
    }

    /// Gives up the node for its key.
    pub fn take_key(self) -> (key: Vec<u8>)
        ensures
            key@ == self.key_bytes(),
    {
        self.inner.kv.key
    }

    /// The value of the node.
    pub fn value(&self) -> (value: &[u8])
        ensures
            value@ == self.value_bytes(),
    {
        self.inner.kv.value.as_slice()
    }

    /// What the node adds to the aggregate of its tree.
    pub fn feature_type(&self) -> (feature_type: TreeFeatureType)
        ensures
            feature_type == self.feature(),
    {
        self.inner.kv.feature_type
    }

    /// The hash of the node's value.
    pub fn value_hash(&self) -> (hash: &CryptoHash)
        ensures
            hash@ == self.value_hash_bytes(),
    {
        &self.inner.kv.value_hash
    }

    /// The hash of the node's key and value.
    pub fn kv_hash(&self) -> (hash: &CryptoHash)
        ensures
            hash@ == self.kv_hash_bytes(),
    {
        &self.inner.kv.hash
    }

    /// The link to the left (`true`) or right (`false`) child, if there is one.
    pub fn link(&self, left: bool) -> (link: Option<&Link>)
        ensures
            link.is_some() == self.child(left).is_some(),
            link matches Some(l) ==> self.child(left) == Some(*l) && l.height_fits(),
    {
        proof {
            use_type_invariant(self);
        }
        if left {
            self.inner.left.as_ref()
        } else {
            self.inner.right.as_ref()
        }
    }

    /// The number of hashes that the child on the given side still has to
    /// compute.
    pub fn child_pending_writes(&self, left: bool) -> (pending: usize)
        ensures
            pending == self.pending_of(left),
    {
        match self.link(left) {
            Some(Link::Modified { pending_writes, .. }) => *pending_writes,
            _ => 0,
        }
    }

    /// The height of the child on the given side, zero where there is none.
    pub fn child_height(&self, left: bool) -> (height: u8)
        ensures
            height == self.height_of(left),
    {
        match self.link(left) {
            Some(child) => child.height(),
            None => 0,
        }
    }

    /// The heights of the left and the right child.
    pub fn child_heights(&self) -> (heights: (u8, u8))
        ensures
            heights.0 == self.height_of(true),
            heights.1 == self.height_of(false),
    {
        (self.child_height(true), self.child_height(false))
    }

    /// The height of the node: one more than the greater of the heights of
    /// its children.
    pub open spec fn height_value(self) -> nat {
        if self.height_of(true) >= self.height_of(false) {
            1 + self.height_of(true)
        } else {
            1 + self.height_of(false)
        }
    }

    /// The number of hashes that the node and its modified children still
    /// have to compute.
    pub open spec fn pending_total(self) -> nat {
        1 + self.pending_of(true) + self.pending_of(false)
    }

    /// The node held by the link on the given side, if there is a link and it
    /// holds a node.
    pub open spec fn subtree_of(self, left: bool) -> Option<Tree> {
        match self.child(left) {
            Some(link) => link.subtree(),
            None => None,
        }
    }

    /// Whether the two nodes hold the same key and value, with the same
    /// hashes and the same feature.
    pub open spec fn same_entry(self, other: Tree) -> bool {
        &&& self.key_bytes() == other.key_bytes()
        &&& self.value_bytes() == other.value_bytes()
        &&& self.feature() == other.feature()
        &&& self.value_hash_bytes() == other.value_hash_bytes()
        &&& self.kv_hash_bytes() == other.kv_hash_bytes()
    }

    /// Takes the link on the given side out of the node.
    pub fn detach(self, left: bool) -> (parts: (Tree, Option<Link>))
        ensures
            parts.1 == self.child(left),
            parts.1 matches Some(link) ==> link.height_fits(),
            parts.0.child(left).is_none(),
            parts.0.child(!left) == self.child(!left),
            parts.0.same_entry(self),
    {
        proof {
            use_type_invariant(&self);
        }
        let inner = *self.inner;
        if left {
            let rest = Tree {
                inner: Box::new(TreeInner { left: None, right: inner.right, kv: inner.kv }),
            };
            (rest, inner.left)
        } else {
            let rest = Tree {
                inner: Box::new(TreeInner { left: inner.left, right: None, kv: inner.kv }),
            };
            (rest, inner.right)
        }
    }

    /// Puts a link on the given side of the node, which has none there.
    pub fn attach(self, left: bool, link: Option<Link>) -> (tree: Tree)
        requires
            self.child(left).is_none(),
            link matches Some(l) ==> l.height_fits(),
        ensures
            tree.child(left) == link,
            tree.child(!left) == self.child(!left),
            tree.same_entry(self),
    {
        proof {
            use_type_invariant(&self);
        }
        let inner = *self.inner;
        if left {
            Tree { inner: Box::new(TreeInner { left: link, right: inner.right, kv: inner.kv }) }
        } else {
            Tree { inner: Box::new(TreeInner { left: inner.left, right: link, kv: inner.kv }) }
        }
    }

    /// Replaces the value of the node, and what it adds to the aggregate of
    /// its tree, and hashes it anew. Costs three hashes, as a new node does.
    pub fn with_value(self, value: Vec<u8>, feature_type: TreeFeatureType) -> (tree: CostContext<
        Tree,
    >)
        ensures
            tree.value.key_bytes() == self.key_bytes(),
            tree.value.value_bytes() == value@,
            tree.value.feature() == feature_type,
            tree.value.child(true) == self.child(true),
            tree.value.child(false) == self.child(false),
            tree.value.hashes_match(),
            tree.cost == (OperationCost { hash_node_calls: 3, ..OperationCost::none() }),
    {
        proof {
            use_type_invariant(&self);
        }
        let inner = *self.inner;
        let value_hash = value_hash(value.as_slice());
        let hash = kv_hash(inner.kv.key.as_slice(), &value_hash);
        let tree = Tree {
            inner: Box::new(
                TreeInner {
                    left: inner.left,
                    right: inner.right,
                    kv: KV { key: inner.kv.key, value, feature_type, value_hash, hash },
                },
            ),
        };
        CostContext::wrap_with_cost(tree, OperationCost::with_hash_node_calls(3))
    }

    /// The hash of the node, from its key-value hash and the hashes that its
    /// links hold; the null hash stands for a child that is not there. A node
    /// with a modified link has no hash yet.
    pub fn hash(&self) -> (hash: CryptoHash)
        requires
            !(self.child(true) matches Some(l) && l is Modified),
            !(self.child(false) matches Some(l) && l is Modified),
        ensures
            hash@ == self.digest(),
    {
        let left = match self.link(true) {
            Some(link) => *link.hash(),
            None => NULL_HASH,
        };
        let right = match self.link(false) {
            Some(link) => *link.hash(),
            None => NULL_HASH,
        };
        node_hash(self.kv_hash(), &left, &right)
    }

    /// The aggregate of the tree, from the weight of the node and the
    /// aggregates that its links hold: their sum, taken modulo 2^64, with
    /// nothing counted for a child that is not there or has no aggregate. A
    /// node that is not summed has none.
    pub open spec fn aggregate(self) -> Option<u64> {
        match self.feature() {
            TreeFeatureType::BasicMerk => None,
            TreeFeatureType::SummedMerk(weight) => Some(
                link_sum(self.child(true)).wrapping_add(
                    link_sum(self.child(false)),
                ).wrapping_add_signed(weight),
            ),
        }
    }

    /// The aggregate of the tree. A node with a modified link has none yet.
    pub fn sum(&self) -> (sum: Option<u64>)
        requires
            !(self.child(true) matches Some(l) && l is Modified),
            !(self.child(false) matches Some(l) && l is Modified),
        ensures
            sum == self.aggregate(),
    {
        match self.feature_type() {
            TreeFeatureType::BasicMerk => None,
            TreeFeatureType::SummedMerk(weight) => {
                let left: u64 = match self.link(true) {
                    Some(link) => link.sum().unwrap_or(0),
                    None => 0,
                };
                let right: u64 = match self.link(false) {
                    Some(link) => link.sum().unwrap_or(0),
                    None => 0,
                };
                Some(left.wrapping_add(right).wrapping_add_signed(weight))
            },
        }
    }

    /// Whether the two trees are alike: node for node they hold the same
    /// keys, values, hashes and features, behind links that are alike.
    pub open spec fn alike(self, other: Tree) -> bool
        decreases self,
    {
        self.same_entry(other) && link_alike(self.child(true), other.child(true)) && link_alike(
            self.child(false),
            other.child(false),
        )
    }

    /// A copy of the tree: every node of it that is held in memory is copied.
    pub fn duplicate(&self) -> (copy: Tree)
        ensures
            self.alike(copy),
        decreases self,
    {
        proof {
            use_type_invariant(self);
        }
        let left = match &self.inner.left {
            Some(link) => Some(link.duplicate()),
            None => None,
        };
        let right = match &self.inner.right {
            Some(link) => Some(link.duplicate()),
            None => None,
        };
        Tree {
            inner: Box::new(
                TreeInner {
                    left,
                    right,
                    kv: KV {
                        key: crate::storage::clone_bytes(&self.inner.kv.key),
                        value: crate::storage::clone_bytes(&self.inner.kv.value),
                        feature_type: self.inner.kv.feature_type,
                        value_hash: self.inner.kv.value_hash,
                        hash: self.inner.kv.hash,
                    },
                },
            ),
        }
    }

    /// The entries of the tree below and with this node, left to right.
    pub open spec fn inorder(self) -> Seq<(Seq<u8>, Seq<u8>)>
        decreases self,
    {
        link_inorder(self.child(true)) + seq![(self.key_bytes(), self.value_bytes())]
            + link_inorder(self.child(false))
    }

    /// The sum of the weights of the nodes of a tree in which every node is
    /// summed; none where a node is not summed or not held.
    pub open spec fn tally(self) -> Option<int>
        decreases self,
    {
        tally_of(self.feature(), link_tally(self.child(true)), link_tally(self.child(false)))
    }

    /// The weight with which the key counts in the tree: that of the node
    /// with the key, and zero where the tree holds no such node.
    pub open spec fn weight_at(self, key: Seq<u8>) -> int
        decreases self,
    {
        weight_here(self.feature(), self.key_bytes(), key) + link_weight_at(self.child(true), key)
            + link_weight_at(self.child(false), key)
    }

    /// Whether the heights of the two children differ by one at most.
    pub open spec fn balanced_here(self) -> bool {
        self.height_of(true) <= self.height_of(false) + 1 && self.height_of(false)
            <= self.height_of(true) + 1
    }

    /// Whether both sides of the node are well shaped.
    pub open spec fn sides_shaped(self) -> bool {
        link_shaped(self.child(true)) && link_shaped(self.child(false))
    }

    /// Whether every node of the tree is held in memory, every link tells the
    /// heights of the children of its node, and at every node the heights of
    /// the two children differ by one at most.
    pub open spec fn shaped(self) -> bool
        decreases self,
    {
        link_shaped(self.child(true)) && link_shaped(self.child(false)) && self.balanced_here()
    }

    /// The hash of the node, from its key-value hash and the hashes that its
    /// links hold.
    pub open spec fn digest(self) -> Seq<u8> {
        node_digest(
            self.kv_hash_bytes(),
            link_digest(self.child(true)),
            link_digest(self.child(false)),
        )
    }

    /// Whether every hash in the tree is up to date: those of keys and
    /// values, and those that the links hold of their nodes, with the
    /// aggregates that the links hold.
    pub open spec fn hashed(self) -> bool
        decreases self,
    {
        self.hashes_match() && link_hashed(self.child(true)) && link_hashed(self.child(false))
    }

    /// Whether the hashes of keys and values are up to date throughout and
    /// every link is in order: what holds of a tree between its mutation and
    /// the computing of its hashes.
    pub open spec fn consistent(self) -> bool
        decreases self,
    {
        self.hashes_match() && link_consistent(self.child(true)) && link_consistent(
            self.child(false),
        )
    }

    /// The Merkle hash of the tree, as its keys, values and shape give it.
    pub open spec fn merkle(self) -> Seq<u8>
        decreases self,
    {
        node_digest(
            kv_digest(self.key_bytes(), value_digest(self.value_bytes())),
            link_merkle(self.child(true)),
            link_merkle(self.child(false)),
        )
    }

    /// The write that stores the node under its key in the subtree with the
    /// given prefix.
    pub open spec fn write(self, prefix: Seq<u8>) -> crate::storage::BackendWrite {
        crate::storage::BackendWrite {
            column_family: crate::storage::ColumnFamily::Main,
            key: prefix + self.key_bytes(),
            value: Some(crate::node::encoded_node(self.record())),
        }
    }

    /// The writes that store every node of the tree that is not stored yet:
    /// those below uncommitted links, the children of a node before the node,
    /// and this node last.
    pub open spec fn writes(self, prefix: Seq<u8>) -> Seq<crate::storage::BackendWrite>
        decreases self,
    {
        link_writes(self.child(true), prefix) + link_writes(self.child(false), prefix) + seq![
            self.write(prefix),
        ]
    }

    /// The height of the tree below and with this node, counted node by
    /// node.
    pub open spec fn depth(self) -> nat
        decreases self,
    {
        if link_depth(self.child(true)) >= link_depth(self.child(false)) {
            1 + link_depth(self.child(true))
        } else {
            1 + link_depth(self.child(false))
        }
    }

    /// Whether at every node of the tree the two subtrees, counted node by
    /// node, differ in height by one at most.
    pub open spec fn avl(self) -> bool
        decreases self,
    {
        &&& link_depth(self.child(true)) <= link_depth(self.child(false)) + 1
        &&& link_depth(self.child(false)) <= link_depth(self.child(true)) + 1
        &&& link_avl(self.child(true))
        &&& link_avl(self.child(false))
    }

    /// A well-shaped tree is balanced at every node: nowhere do the heights
    /// of the two subtrees differ by more than one.
    pub proof fn lemma_shaped_is_avl(self)
        requires
            self.shaped(),
        ensures
            self.avl(),
        decreases self,
    {
        self.lemma_height_is_depth();
        match self.child(true) {
            Some(link) => {
                link.subtree().unwrap().lemma_shaped_is_avl();
            },
            None => {},
        }
        match self.child(false) {
            Some(link) => {
                link.subtree().unwrap().lemma_shaped_is_avl();
            },
            None => {},
        }
    }

    /// In a well-shaped tree the heights that the links tell are the heights
    /// of the subtrees, counted node by node, and at every node the two
    /// subtrees differ in height by one at most.
    pub proof fn lemma_height_is_depth(self)
        requires
            self.shaped(),
        ensures
            self.height_value() == self.depth(),
            self.height_of(true) == link_depth(self.child(true)),
            self.height_of(false) == link_depth(self.child(false)),
            link_depth(self.child(true)) <= link_depth(self.child(false)) + 1,
            link_depth(self.child(false)) <= link_depth(self.child(true)) + 1,
        decreases self,
    {
        match self.child(true) {
            Some(link) => {
                link.subtree().unwrap().lemma_height_is_depth();
            },
            None => {},
        }
        match self.child(false) {
            Some(link) => {
                link.subtree().unwrap().lemma_height_is_depth();
            },
            None => {},
        }
    }

    /// In a tree whose hashes are up to date and whose nodes are all held,
    /// the hash of the root is the Merkle hash that the keys, values and
    /// shape of the tree give: it does not depend on how the tree came about
    /// or on the states of its links.
    pub proof fn lemma_digest_is_merkle(self)
        requires
            self.shaped(),
            self.hashed(),
        ensures
            self.digest() == self.merkle(),
        decreases self,
    {
        match self.child(true) {
            Some(link) => {
                link.subtree().unwrap().lemma_digest_is_merkle();
            },
            None => {},
        }
        match self.child(false) {
            Some(link) => {
                link.subtree().unwrap().lemma_digest_is_merkle();
            },
            None => {},
        }
    }

    /// In a tree whose hashes are up to date and whose nodes are all held
    /// and summed, the aggregate of the root is the sum of the weights of all
    /// nodes, modulo 2^64: it does not depend on the shape of the tree.
    pub proof fn lemma_aggregate_is_tally(self)
        requires
            self.shaped(),
            self.hashed(),
            self.tally().is_some(),
        ensures
            self.aggregate() == Some(wrapped(self.tally().unwrap())),
        decreases self,
    {
        let left = link_tally(self.child(true)).unwrap();
        let right = link_tally(self.child(false)).unwrap();
        match self.child(true) {
            Some(link) => {
                link.subtree().unwrap().lemma_aggregate_is_tally();
                assert(link_sum(self.child(true)) == wrapped(left));
            },
            None => {
                assert(link_sum(self.child(true)) == wrapped(left));
            },
        }
        match self.child(false) {
            Some(link) => {
                link.subtree().unwrap().lemma_aggregate_is_tally();
                assert(link_sum(self.child(false)) == wrapped(right));
            },
            None => {
                assert(link_sum(self.child(false)) == wrapped(right));
            },
        }
        match self.feature() {
            TreeFeatureType::SummedMerk(weight) => {
                lemma_wrapped_sum(left, right, weight);
            },
            TreeFeatureType::BasicMerk => {},
        }
    }

    /// Two trees with the same hash hold the same entries, unless the hash
    /// fails: the hash of a tree whose hashes are up to date and whose nodes
    /// are all held commits to every key and value in it.
    pub proof fn lemma_digest_binds(self, other: Tree)
        requires
            self.shaped(),
            self.hashed(),
            other.shaped(),
            other.hashed(),
            self.digest() == other.digest(),
        ensures
            self.inorder() == other.inorder() || hash_fails(),
        decreases self,
    {
        if hash_fails() {
            return ;
        }
        let mine = self.kv_hash_bytes() + link_digest(self.child(true)) + link_digest(
            self.child(false),
        );
        let theirs = other.kv_hash_bytes() + link_digest(other.child(true)) + link_digest(
            other.child(false),
        );
        lemma_one_digest(mine, theirs);
        assert(self.kv_hash_bytes() == other.kv_hash_bytes()) by {
            assert(mine.subrange(0, 32) =~= self.kv_hash_bytes());
            assert(theirs.subrange(0, 32) =~= other.kv_hash_bytes());
        }
        assert(link_digest(self.child(true)) == link_digest(other.child(true))) by {
            assert(mine.subrange(32, 64) =~= link_digest(self.child(true)));
            assert(theirs.subrange(32, 64) =~= link_digest(other.child(true)));
        }
        assert(link_digest(self.child(false)) == link_digest(other.child(false))) by {
            assert(mine.subrange(64, 96) =~= link_digest(self.child(false)));
            assert(theirs.subrange(64, 96) =~= link_digest(other.child(false)));
        }
        let my_kv = blake3_digest(self.key_bytes()) + self.value_hash_bytes();
        let their_kv = blake3_digest(other.key_bytes()) + other.value_hash_bytes();
        lemma_one_digest(my_kv, their_kv);
        let split = my_kv.len() - 32;
        assert(blake3_digest(self.key_bytes()) == blake3_digest(other.key_bytes())) by {
            assert(my_kv.subrange(0, split) =~= blake3_digest(self.key_bytes()));
            assert(their_kv.subrange(0, split) =~= blake3_digest(other.key_bytes()));
        }
        assert(self.value_hash_bytes() == other.value_hash_bytes()) by {
            assert(my_kv.subrange(split, split + 32) =~= self.value_hash_bytes());
            assert(their_kv.subrange(split, split + 32) =~= other.value_hash_bytes());
        }
        lemma_one_digest(self.key_bytes(), other.key_bytes());
        lemma_one_digest(self.value_bytes(), other.value_bytes());
        lemma_link_digest_binds(self.child(true), other.child(true));
        lemma_link_digest_binds(self.child(false), other.child(false));
    }

    /// A key that no entry of the tree has counts with no weight.
    pub proof fn lemma_absent_weighs_nothing(self, key: Seq<u8>)
        requires
            !crate::entries::holds(self.inorder(), key),
        ensures
            self.weight_at(key) == 0,
        decreases self,
    {
        let left = link_inorder(self.child(true));
        let right = link_inorder(self.child(false));
        let whole = self.inorder();
        let n = left.len() as int;
        assert(whole[n] == (self.key_bytes(), self.value_bytes()));
        assert(!crate::entries::found_at(whole, key, n));
        match self.child(true) {
            Some(link) => match link.subtree() {
                Some(tree) => {
                    if crate::entries::holds(left, key) {
                        let at = choose|at: int| crate::entries::found_at(left, key, at);
                        assert(whole[at] == left[at]);
                        assert(crate::entries::found_at(whole, key, at));
                    }
                    tree.lemma_absent_weighs_nothing(key);
                },
                None => {},
            },
            None => {},
        }
        match self.child(false) {
            Some(link) => match link.subtree() {
                Some(tree) => {
                    if crate::entries::holds(right, key) {
                        let at = choose|at: int| crate::entries::found_at(right, key, at);
                        assert(whole[n + 1 + at] == right[at]);
                        assert(crate::entries::found_at(whole, key, n + 1 + at));
                    }
                    tree.lemma_absent_weighs_nothing(key);
                },
                None => {},
            },
            None => {},
        }
    }

    /// In a tree whose keys rise from left to right a key counts with the
    /// weight of the root where it is the root's, and otherwise as it counts
    /// on the side on which it lies; on the other side it counts for nothing.
    pub proof fn lemma_weight_by_search(self, key: Seq<u8>)
        requires
            crate::entries::sorted(self.inorder()),
        ensures
            key == self.key_bytes() ==> self.weight_at(key) == weight_of(self.feature())
                && link_weight_at(self.child(true), key) == 0 && link_weight_at(
                self.child(false),
                key,
            ) == 0,
            crate::order::key_less(key, self.key_bytes()) ==> self.weight_at(key)
                == link_weight_at(self.child(true), key) && link_weight_at(self.child(false), key)
                == 0,
            crate::order::key_less(self.key_bytes(), key) ==> self.weight_at(key)
                == link_weight_at(self.child(false), key) && link_weight_at(self.child(true), key)
                == 0,
    {
        let left = link_inorder(self.child(true));
        let right = link_inorder(self.child(false));
        let middle = (self.key_bytes(), self.value_bytes());
        crate::entries::lemma_holds_around(left, middle, right, key);
        crate::order::lemma_key_less_asymmetric(key, self.key_bytes());
        crate::order::lemma_key_less_asymmetric(self.key_bytes(), key);
        if !crate::entries::holds(left, key) {
            lemma_link_absent_weighs_nothing(self.child(true), key);
        }
        if !crate::entries::holds(right, key) {
            lemma_link_absent_weighs_nothing(self.child(false), key);
        }
    }

    /// A tree whose hashes are up to date is in order and has but its own
    /// hash to count.
    pub proof fn lemma_hashed_is_consistent(self)
        requires
            self.hashed(),
        ensures
            self.consistent(),
            self.pending_total() == 1,
        decreases self,
    {
        match self.subtree_of(true) {
            Some(tree) => {
                tree.lemma_hashed_is_consistent();
            },
            None => {},
        }
        match self.subtree_of(false) {
            Some(tree) => {
                tree.lemma_hashed_is_consistent();
            },
            None => {},
        }
    }
}

/// A key that no entry behind the link has counts with no weight there.
pub proof fn lemma_link_absent_weighs_nothing(link: Option<Link>, key: Seq<u8>)
    requires
        !crate::entries::holds(link_inorder(link), key),
    ensures
        link_weight_at(link, key) == 0,
{
    if let Some(l) = link {
        if let Some(tree) = l.subtree() {
            tree.lemma_absent_weighs_nothing(key);
        }
    }
}

/// Two links that tell the same hash hold the same entries, unless the hash
/// fails.
pub proof fn lemma_link_digest_binds(one: Option<Link>, other: Option<Link>)
    requires
        link_shaped(one),
        link_hashed(one),
        link_shaped(other),
        link_hashed(other),
        link_digest(one) == link_digest(other),
    ensures
        link_inorder(one) == link_inorder(other) || hash_fails(),
    decreases one,
{
    match (one, other) {
        (Some(a), Some(b)) => {
            a.subtree().unwrap().lemma_digest_binds(b.subtree().unwrap());
        },
        (Some(a), None) => {
            let tree = a.subtree().unwrap();
            lemma_digest_not_null(
                tree.kv_hash_bytes() + link_digest(tree.child(true)) + link_digest(
                    tree.child(false),
                ),
            );
        },
        (None, Some(b)) => {
            let tree = b.subtree().unwrap();
            lemma_digest_not_null(
                tree.kv_hash_bytes() + link_digest(tree.child(true)) + link_digest(
                    tree.child(false),
                ),
            );
        },
        (None, None) => {},
    }
}

/// Whether two links that may be absent are alike: both are absent, or they
/// are in the same state and tell the same, with the same key and with
/// subtrees that are alike.
pub open spec fn link_alike(first: Option<Link>, second: Option<Link>) -> bool
    decreases first,
{
    match (first, second) {
        (None, None) => true,
        (
            Some(Link::Reference { hash, child_heights, key, sum }),
            Some(Link::Reference { hash: h, child_heights: c, key: k, sum: s }),
        ) => hash == h && child_heights == c && key@ == k@ && sum == s,
        (
            Some(Link::Modified { pending_writes, child_heights, tree }),
            Some(Link::Modified { pending_writes: p, child_heights: c, tree: t }),
        ) => pending_writes == p && child_heights == c && tree.alike(t),
        (
            Some(Link::Uncommitted { hash, child_heights, tree, sum }),
            Some(Link::Uncommitted { hash: h, child_heights: c, tree: t, sum: s }),
        ) => hash == h && child_heights == c && sum == s && tree.alike(t),
        (
            Some(Link::Loaded { hash, child_heights, tree, sum }),
            Some(Link::Loaded { hash: h, child_heights: c, tree: t, sum: s }),
        ) => hash == h && child_heights == c && sum == s && tree.alike(t),
        _ => false,
    }
}

/// The height that a link tells of its node; zero where there is no link.
pub open spec fn link_height(link: Option<Link>) -> nat {
    match link {
        Some(l) => l.height_value(),
        None => 0,
    }
}

/// The entries of the subtree that a link holds, in the order of their keys;
/// none where there is no link or the link holds no node.
pub open spec fn link_inorder(link: Option<Link>) -> Seq<(Seq<u8>, Seq<u8>)>
    decreases link,
{
    match link {
        Some(l) => match l.subtree() {
            Some(tree) => tree.inorder(),
            None => Seq::empty(),
        },
        None => Seq::empty(),
    }
}

/// Whether there is no link, or the link holds a well-shaped subtree and tells
/// the heights of the children of its root.
pub open spec fn link_shaped(link: Option<Link>) -> bool
    decreases link,
{
    match link {
        None => true,
        Some(l) => l.height_fits() && match l.subtree() {
            None => false,
            Some(tree) => l.heights().0 == tree.height_of(true) && l.heights().1
                == tree.height_of(false) && tree.shaped(),
        },
    }
}

/// The hash that a link holds of its node; the null hash where there is no
/// link.
pub open spec fn link_digest(link: Option<Link>) -> Seq<u8> {
    match link {
        None => NULL_HASH@,
        Some(l) => l.known_hash()@,
    }
}

/// The weight of a node: what it adds to the aggregate of its tree. A node
/// that is not summed adds nothing.
pub open spec fn weight_of(feature: TreeFeatureType) -> int {
    match feature {
        TreeFeatureType::BasicMerk => 0,
        TreeFeatureType::SummedMerk(weight) => weight as int,
    }
}

/// The sum of the weights of a tree from the feature of its root and the
/// sums of its two sides: none unless the root is summed and both sides have
/// a sum.
pub open spec fn tally_of(feature: TreeFeatureType, one: Option<int>, other: Option<int>)
    -> Option<int> {
    match (feature, one, other) {
        (TreeFeatureType::SummedMerk(weight), Some(a), Some(b)) => Some(weight + a + b),
        _ => None,
    }
}

/// A sum as an aggregate holds it: modulo 2^64.
pub open spec fn wrapped(sum: int) -> u64 {
    (sum % 0x1_0000_0000_0000_0000) as u64
}

/// Adding up what is wrapped and wrapping the sum give the same.
pub proof fn lemma_wrapped_sum(left: int, right: int, weight: i64)
    ensures
        wrapped(left).wrapping_add(wrapped(right)).wrapping_add_signed(weight) == wrapped(
            weight + left + right,
        ),
{
    let m: int = 0x1_0000_0000_0000_0000;
    let a = left % m;
    let b = right % m;
    let both: int = if a + b >= m {
        a + b - m
    } else {
        a + b
    };
    assert(wrapped(left).wrapping_add(wrapped(right)) == both);
    assert(both == (left + right) % m);
    let all: int = both + weight;
    let last: int = if all >= m {
        all - m
    } else if all < 0 {
        all + m
    } else {
        all
    };
    assert((both as u64).wrapping_add_signed(weight) == last);
    assert(last == (weight + left + right) % m);
}

/// The sum of the weights of the subtree that a link holds, as `Tree::tally`
/// gives it; zero where there is no link.
pub open spec fn link_tally(link: Option<Link>) -> Option<int>
    decreases link,
{
    match link {
        Some(l) => match l.subtree() {
            Some(tree) => tree.tally(),
            None => None,
        },
        None => Some(0),
    }
}

/// What a node with the given feature and key adds to the weight of a key:
/// its own weight where the key is its own, and nothing otherwise.
pub open spec fn weight_here(feature: TreeFeatureType, own: Seq<u8>, key: Seq<u8>) -> int {
    if key == own {
        weight_of(feature)
    } else {
        0
    }
}

/// The weight with which the key counts in the subtree that a link holds;
/// zero where it holds none.
pub open spec fn link_weight_at(link: Option<Link>, key: Seq<u8>) -> int
    decreases link,
{
    match link {
        Some(l) => match l.subtree() {
            Some(tree) => tree.weight_at(key),
            None => 0,
        },
        None => 0,
    }
}

/// The aggregate that a link holds of its subtree; zero where there is no
/// link or the link holds none.
pub open spec fn link_sum(link: Option<Link>) -> u64 {
    match link {
        Some(l) => match l.known_sum() {
            Some(sum) => sum,
            None => 0,
        },
        None => 0,
    }
}

/// Whether there is no link, or the link, and every link below it, holds the
/// hash and the aggregate of its node.
pub open spec fn link_hashed(link: Option<Link>) -> bool
    decreases link,
{
    match link {
        None => true,
        Some(l) => !(l is Modified) && match l.subtree() {
            None => true,
            Some(tree) => l.known_hash()@ == tree.digest() && l.known_sum() == tree.aggregate()
                && tree.hashed(),
        },
    }
}

/// Whether the link is in order: a modified link counts the hashes that its
/// node has yet to compute, and any other link holds the hash and the
/// aggregate of its node, below which every hash is up to date.
pub open spec fn link_consistent(link: Option<Link>) -> bool
    decreases link,
{
    match link {
        None => true,
        Some(Link::Modified { pending_writes, tree, .. }) => pending_writes
            == tree.pending_total() && tree.consistent(),
        Some(l) => match l.subtree() {
            None => true,
            Some(tree) => l.known_hash()@ == tree.digest() && l.known_sum() == tree.aggregate()
                && tree.hashed(),
        },
    }
}

/// The Merkle hash of the subtree that a link holds, as its keys, values and
/// shape give it; the null hash where there is none.
pub open spec fn link_merkle(link: Option<Link>) -> Seq<u8>
    decreases link,
{
    match link {
        Some(l) => match l.subtree() {
            Some(tree) => tree.merkle(),
            None => NULL_HASH@,
        },
        None => NULL_HASH@,
    }
}

/// The writes that store the nodes behind a link that are not stored yet:
/// those of the subtree of an uncommitted link, and none for any other link.
pub open spec fn link_writes(link: Option<Link>, prefix: Seq<u8>) -> Seq<
    crate::storage::BackendWrite,
>
    decreases link,
{
    match link {
        Some(Link::Uncommitted { tree, .. }) => tree.writes(prefix),
        _ => Seq::empty(),
    }
}

/// The height of the subtree that a link holds, counted node by node.
pub open spec fn link_depth(link: Option<Link>) -> nat
    decreases link,
{
    match link {
        Some(l) => match l.subtree() {
            Some(tree) => tree.depth(),
            None => 0,
        },
        None => 0,
    }
}

/// Whether the subtree that a link holds, if it holds one, is balanced at
/// every node.
pub open spec fn link_avl(link: Option<Link>) -> bool
    decreases link,
{
    match link {
        Some(l) => match l.subtree() {
            Some(tree) => tree.avl(),
            None => true,
        },
        None => true,
    }
}

/// The balance factor that a link to a well-shaped subtree tells, the height
/// of the right child less that of the left, is -1, 0 or 1, and the heights
/// that the link tells are those of the two subtrees below its node, counted
/// node by node.
pub proof fn lemma_link_balance(link: Link)
    requires
        link_shaped(Some(link)),
    ensures
        -1 <= link.heights().1 - link.heights().0 <= 1,
        link.subtree() matches Some(tree) && link.heights().0 == link_depth(tree.child(true))
            && link.heights().1 == link_depth(tree.child(false)) && tree.avl(),
{
    let tree = link.subtree().unwrap();
    tree.lemma_height_is_depth();
    tree.lemma_shaped_is_avl();
}

/// A link whose subtree has all its hashes up to date is in order.
pub proof fn lemma_link_hashed_is_consistent(link: Option<Link>)
    requires
        link_hashed(link),
    ensures
        link_consistent(link),
        !(link matches Some(l) && l is Modified),
{
}

} // verus!
