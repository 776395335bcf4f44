//! The link from a node to one of its children, in its four states.

use vstd::prelude::*;
use crate::hash::CryptoHash;
use crate::tree::Tree;

verus! {

/// A reference to a child node, which may or may not hold the child itself.
#[derive(Debug, PartialEq, Eq)]
pub enum Link {
    /// The child has been pruned from memory: only its key is kept, by which
    /// it can be fetched from the backing store.
    Reference { hash: CryptoHash, child_heights: (u8, u8), key: Vec<u8>, sum: Option<u64> },
    /// The child has been modified since its hash was last computed, so no
    /// hash is known for it.
    Modified { pending_writes: usize, child_heights: (u8, u8), tree: Tree },
    /// The child has been modified since it was last written, and its hash is
    /// up to date.
    Uncommitted { hash: CryptoHash, child_heights: (u8, u8), tree: Tree, sum: Option<u64> },
    /// The child is unmodified, held in memory, and its hash is up to date.
    Loaded { hash: CryptoHash, child_heights: (u8, u8), tree: Tree, sum: Option<u64> },
}

impl Clone for Link {
    fn clone(&self) -> (copy: Self)
        ensures
            crate::tree::link_alike(Some(*self), Some(copy)),
    {
        self.duplicate()
    }
}

impl Link {
    /// The heights of the children of the node that the link refers to.
    pub open spec fn heights(self) -> (u8, u8) {
        match self {
            Link::Reference { child_heights, .. } => child_heights,
            Link::Modified { child_heights, .. } => child_heights,
            Link::Uncommitted { child_heights, .. } => child_heights,
            Link::Loaded { child_heights, .. } => child_heights,
        }
    }

    /// The height of the node that the link refers to: one more than the
    /// greater of the heights of its children.
    pub open spec fn height_value(self) -> nat {
        if self.heights().0 >= self.heights().1 {
            (1 + self.heights().0) as nat
        } else {
            (1 + self.heights().1) as nat
        }
    }

    /// Whether the height of the node that the link refers to can be held in
    /// a byte.
    pub open spec fn height_fits(self) -> bool {
        self.height_value() <= u8::MAX
    }

    /// The hash that the link knows of the node it refers to. A modified
    /// link knows none.
    pub open spec fn known_hash(self) -> CryptoHash
        recommends
            !(self is Modified),
    {
        match self {
            Link::Reference { hash, .. } => hash,
            Link::Uncommitted { hash, .. } => hash,
            Link::Loaded { hash, .. } => hash,
            Link::Modified { .. } => arbitrary(),
        }
    }

    /// The aggregate that the link knows of the subtree it refers to. A
    /// modified link knows none.
    pub open spec fn known_sum(self) -> Option<u64>
        recommends
            !(self is Modified),
    {
        match self {
            Link::Reference { sum, .. } => sum,
            Link::Uncommitted { sum, .. } => sum,
            Link::Loaded { sum, .. } => sum,
            Link::Modified { .. } => arbitrary(),
        }
    }

    /// The key of the node that the link refers to.
    pub open spec fn key_bytes(self) -> Seq<u8> {
        match self {
            Link::Reference { key, .. } => key@,
            Link::Modified { tree, .. } => tree.key_bytes(),
            Link::Uncommitted { tree, .. } => tree.key_bytes(),
            Link::Loaded { tree, .. } => tree.key_bytes(),
        }
    }

    /// The node that the link holds, if it holds one.
    pub open spec fn subtree(self) -> Option<Tree> {
        match self {
            Link::Reference { .. } => None,
            Link::Modified { tree, .. } => Some(tree),
            Link::Uncommitted { tree, .. } => Some(tree),
            Link::Loaded { tree, .. } => Some(tree),
        }
    }

    /// The link with the heights of the children replaced.
    pub open spec fn with_heights(self, heights: (u8, u8)) -> Link {
        match self {
            Link::Reference { hash, key, sum, .. } => Link::Reference {
                hash,
                child_heights: heights,
                key,
                sum,
            },
            Link::Modified { pending_writes, tree, .. } => Link::Modified {
                pending_writes,
                child_heights: heights,
                tree,
            },
            Link::Uncommitted { hash, tree, sum, .. } => Link::Uncommitted {
                hash,
                child_heights: heights,
                tree,
                sum,
            },
            Link::Loaded { hash, tree, sum, .. } => Link::Loaded {
                hash,
                child_heights: heights,
                tree,
                sum,
            },
        }
    }

    /// A modified link to `tree`: it has one hash to compute for the node
    /// itself and those that its modified children still have to compute.
    pub fn from_modified_tree(tree: Tree) -> (link: Self)
        requires
            1 + tree.pending_of(true) + tree.pending_of(false) <= usize::MAX,
        ensures
            link == (Link::Modified {
                pending_writes: (1 + tree.pending_of(true) + tree.pending_of(false)) as usize,
                child_heights: (tree.height_of(true) as u8, tree.height_of(false) as u8),
                tree,
            }),
    {
        let pending_writes: usize = 1 + tree.child_pending_writes(true)
            + tree.child_pending_writes(false);
        Link::Modified { pending_writes, child_heights: tree.child_heights(), tree }
    }

    /// A modified link to the given node, if there is one.
    pub fn maybe_from_modified_tree(maybe_tree: Option<Tree>) -> (link: Option<Self>)
        requires
            maybe_tree matches Some(tree) ==> 1 + tree.pending_of(true) + tree.pending_of(false)
                <= usize::MAX,
        ensures
            maybe_tree.is_none() ==> link.is_none(),
            maybe_tree matches Some(tree) ==> link == Some(
                Link::Modified {
                    pending_writes: (1 + tree.pending_of(true) + tree.pending_of(false)) as usize,
                    child_heights: (tree.height_of(true) as u8, tree.height_of(false) as u8),
                    tree,
                },
            ),
    {
        match maybe_tree {
            Some(tree) => Some(Link::from_modified_tree(tree)),
            None => None,
        }
    }

    /// Whether the link is a `Reference`.
    pub fn is_reference(&self) -> (yes: bool)
        ensures
            yes == (*self is Reference),
    {
        matches!(self, Link::Reference { .. })
    }

    /// Whether the link is `Modified`.
    pub fn is_modified(&self) -> (yes: bool)
        ensures
            yes == (*self is Modified),
    {
        matches!(self, Link::Modified { .. })
    }

    /// Whether the link is `Uncommitted`.
    pub fn is_uncommitted(&self) -> (yes: bool)
        ensures
            yes == (*self is Uncommitted),
    {
        matches!(self, Link::Uncommitted { .. })
    }

    /// Whether the link is `Loaded`.
    pub fn is_stored(&self) -> (yes: bool)
        ensures
            yes == (*self is Loaded),
    {
        matches!(self, Link::Loaded { .. })
    }

    /// The key of the node that the link refers to.
    pub fn key(&self) -> (key: &[u8])
        ensures
            key@ == self.key_bytes(),
    {
        match self {
            Link::Reference { key, .. } => key.as_slice(),
            Link::Modified { tree, .. } => tree.key(),
            Link::Uncommitted { tree, .. } => tree.key(),
            Link::Loaded { tree, .. } => tree.key(),
        }
    }

    /// The node that the link holds; a `Reference` holds none.
    pub fn tree(&self) -> (tree: Option<&Tree>)
        ensures
            tree.is_some() == !(*self is Reference),
            tree matches Some(t) ==> self.subtree() == Some(*t),
    {
        match self {
            Link::Reference { .. } => None,
            Link::Modified { tree, .. } => Some(tree),
            Link::Uncommitted { tree, .. } => Some(tree),
            Link::Loaded { tree, .. } => Some(tree),
        }
    }

    /// The hash of the node that the link refers to. A modified link has
    /// none.
    pub fn hash(&self) -> (hash: &CryptoHash)
        requires
            !(*self is Modified),
        ensures
            *hash == self.known_hash(),
    {
        match self {
            Link::Modified { .. } => vstd::pervasive::unreached(),
            Link::Reference { hash, .. } => hash,
            Link::Uncommitted { hash, .. } => hash,
            Link::Loaded { hash, .. } => hash,
        }
    }

    /// The aggregate of the subtree that the link refers to. A modified
    /// link has none.
    pub fn sum(&self) -> (sum: Option<u64>)
        requires
            !(*self is Modified),
        ensures
            sum == self.known_sum(),
    {
        match self {
            Link::Modified { .. } => vstd::pervasive::unreached(),
            Link::Reference { sum, .. } => *sum,
            Link::Uncommitted { sum, .. } => *sum,
            Link::Loaded { sum, .. } => *sum,
        }
    }

    /// The height of the node that the link refers to.
    pub fn height(&self) -> (height: u8)
        requires
            self.height_fits(),
        ensures
            height == self.height_value(),
    {
        let (left_height, right_height) = match self {
            Link::Reference { child_heights, .. } => *child_heights,
            Link::Modified { child_heights, .. } => *child_heights,
            Link::Uncommitted { child_heights, .. } => *child_heights,
            Link::Loaded { child_heights, .. } => *child_heights,
        };
        if left_height >= right_height {
            1 + left_height
        } else {
            1 + right_height
        }
    }

    /// The balance factor of the node that the link refers to: the height of
    /// its right child less that of its left child.
    pub fn balance_factor(&self) -> (factor: i8)
        requires
            i8::MIN <= self.heights().1 - self.heights().0 <= i8::MAX,
        ensures
            factor == self.heights().1 - self.heights().0,
    {
        let (left_height, right_height) = match self {
            Link::Reference { child_heights, .. } => *child_heights,
            Link::Modified { child_heights, .. } => *child_heights,
            Link::Uncommitted { child_heights, .. } => *child_heights,
            Link::Loaded { child_heights, .. } => *child_heights,
        };
        (right_height as i16 - left_height as i16) as i8
    }

    /// Lets go of the node and keeps its key. Only a link whose node is
    /// stored can do so: a `Loaded` one, or one that is a `Reference` already.
    pub fn into_reference(self) -> (reference: Self)
        requires
            self is Reference || self is Loaded,
        ensures
            self is Reference ==> reference == self,
            reference is Reference,
            reference.known_hash() == self.known_hash(),
            reference.known_sum() == self.known_sum(),
            reference.heights() == self.heights(),
            reference.key_bytes() == self.key_bytes(),
    {
        match self {
            Link::Reference { .. } => self,
            Link::Modified { .. } => vstd::pervasive::unreached(),
            Link::Uncommitted { .. } => vstd::pervasive::unreached(),
            Link::Loaded { hash, sum, child_heights, tree } => Link::Reference {
                hash,
                sum,
                child_heights,
                key: tree.take_key(),
            },
        }
    }

    /// A copy of the link, with a copy of the node that it holds.
    pub fn duplicate(&self) -> (copy: Link)
        ensures
            crate::tree::link_alike(Some(*self), Some(copy)),
            copy.heights() == self.heights(),
        decreases self,
    {
        match self {
            Link::Reference { hash, child_heights, key, sum } => Link::Reference {
                hash: *hash,
                child_heights: *child_heights,
                key: crate::storage::clone_bytes(key),
                sum: *sum,
            },
            Link::Modified { pending_writes, child_heights, tree } => Link::Modified {
                pending_writes: *pending_writes,
                child_heights: *child_heights,
                tree: tree.duplicate(),
            },
            Link::Uncommitted { hash, child_heights, tree, sum } => Link::Uncommitted {
                hash: *hash,
                child_heights: *child_heights,
                tree: tree.duplicate(),
                sum: *sum,
            },
            Link::Loaded { hash, child_heights, tree, sum } => Link::Loaded {
                hash: *hash,
                child_heights: *child_heights,
                tree: tree.duplicate(),
                sum: *sum,
            },
        }
    }

    /// Gives up the link for the node that it holds, if it holds one.
    pub fn into_tree(self) -> (tree: Option<Tree>)
        ensures
            tree == self.subtree(),
    {
        match self {
            Link::Reference { .. } => None,
            Link::Modified { tree, .. } => Some(tree),
            Link::Uncommitted { tree, .. } => Some(tree),
            Link::Loaded { tree, .. } => Some(tree),
        }
    }

    /// The heights of the children, to be read and changed in place.
    pub(crate) fn child_heights_mut(&mut self) -> (heights: &mut (u8, u8))
        ensures
            *heights == old(self).heights(),
            *final(self) == old(self).with_heights(*final(heights)),
    {
        match self {
            Link::Reference { child_heights, .. } => child_heights,
            Link::Modified { child_heights, .. } => child_heights,
            Link::Uncommitted { child_heights, .. } => child_heights,
            Link::Loaded { child_heights, .. } => child_heights,
        }
    }
}

} // verus!
