//! Changing a tree: rotations, rebalancing and the insertion of an entry.

use vstd::prelude::*;
use crate::entries::{
    entry_map, lemma_absent_key, lemma_lookup_on_side, lemma_remove_at, lemma_set_in_middle,
    lemma_no_entries, lemma_set_on_side, lemma_single_entry, lemma_sorted_parts, lemma_unset_on_side, short_keys,
    sorted, Entry,
};
use crate::storage::StorageBatch;
use crate::link::Link;
use crate::order::{compare_keys, KeyOrder};
use crate::tree::{
    link_consistent, link_digest, link_hashed, link_height, link_inorder, link_shaped,
    link_tally, link_weight_at, link_writes, tally_of, weight_here, weight_of, Tree,
    TreeFeatureType,
};

verus! {

/// The greater of two heights.
pub open spec fn higher(a: nat, b: nat) -> nat {
    if a >= b {
        a
    } else {
        b
    }
}

/// Whether the child on the given side can be lifted into the place of its
/// parent: it is held, its link tells the heights of its children, and both
/// of its sides are well shaped.
pub open spec fn liftable(tree: Tree, left: bool) -> bool {
    match tree.child(left) {
        Some(link) => link.height_fits() && match link.subtree() {
            Some(child) => link.heights().0 == child.height_of(true) && link.heights().1
                == child.height_of(false) && child.sides_shaped(),
            None => false,
        },
        None => false,
    }
}

/// What holds of the node that a rotation lowers: with the grandchild in
/// place of the lifted child it is well shaped and in order.
proof fn lemma_lowered(tree: Tree, child: Tree, lowered: Tree, left: bool)
    requires
        tree.consistent(),
        link_shaped(tree.child(!left)),
        child.consistent(),
        child.sides_shaped(),
        lowered.child(left) == child.child(!left),
        lowered.child(!left) == tree.child(!left),
        lowered.same_entry(tree),
        child.height_of(!left) <= tree.height_of(!left) + 1,
        tree.height_of(!left) <= child.height_of(!left) + 1,
    ensures
        lowered.shaped(),
        lowered.consistent(),
        lowered.height_of(left) == child.height_of(!left),
        lowered.height_of(!left) == tree.height_of(!left),
        lowered.pending_of(left) == child.pending_of(!left),
        lowered.pending_of(!left) == tree.pending_of(!left),
        lowered.inorder() == if left {
            link_inorder(child.child(false)) + seq![(tree.key_bytes(), tree.value_bytes())]
                + link_inorder(tree.child(false))
        } else {
            link_inorder(tree.child(true)) + seq![(tree.key_bytes(), tree.value_bytes())]
                + link_inorder(child.child(true))
        },
        lowered.tally() == tally_of(
            tree.feature(),
            link_tally(child.child(!left)),
            link_tally(tree.child(!left)),
        ),
        forall|key: Seq<u8>| #[trigger]
            lowered.weight_at(key) == weight_here(tree.feature(), tree.key_bytes(), key)
                + link_weight_at(child.child(!left), key) + link_weight_at(
                tree.child(!left),
                key,
            ),
{
    if left {
        assert(lowered.child(true) == child.child(false));
        assert(lowered.child(false) == tree.child(false));
    } else {
        assert(lowered.child(false) == child.child(true));
        assert(lowered.child(true) == tree.child(true));
    }
    assert forall|key: Seq<u8>| #[trigger]
        lowered.weight_at(key) == weight_here(tree.feature(), tree.key_bytes(), key)
            + link_weight_at(child.child(!left), key) + link_weight_at(tree.child(!left), key) by {
        lemma_sides_weight(lowered, left, key);
    }
}

/// What holds of the node that a rotation lifts: with the lowered node as
/// its child it holds the entries of the tree in their order, its sides are
/// well shaped and it is in order.
proof fn lemma_lifted(
    tree: Tree,
    child: Tree,
    lowered: Tree,
    lowered_link: Link,
    rotated: Tree,
    left: bool,
)
    requires
        tree.subtree_of(left) == Some(child),
        child.consistent(),
        child.sides_shaped(),
        lowered.shaped(),
        lowered.consistent(),
        lowered.height_value() <= 255,
        lowered_link == (Link::Modified {
            pending_writes: lowered.pending_total() as usize,
            child_heights: (lowered.height_of(true) as u8, lowered.height_of(false) as u8),
            tree: lowered,
        }),
        lowered.pending_total() <= usize::MAX,
        rotated.child(left) == child.child(left),
        rotated.child(!left) == Some(lowered_link),
        rotated.same_entry(child),
        lowered.inorder() == if left {
            link_inorder(child.child(false)) + seq![(tree.key_bytes(), tree.value_bytes())]
                + link_inorder(tree.child(false))
        } else {
            link_inorder(tree.child(true)) + seq![(tree.key_bytes(), tree.value_bytes())]
                + link_inorder(child.child(true))
        },
        lowered.tally() == tally_of(
            tree.feature(),
            link_tally(child.child(!left)),
            link_tally(tree.child(!left)),
        ),
    ensures
        rotated.inorder() == tree.inorder(),
        rotated.tally() == tree.tally(),
        rotated.consistent(),
        rotated.sides_shaped(),
        rotated.height_of(left) == child.height_of(left),
        rotated.height_of(!left) == lowered.height_value(),
        rotated.pending_of(left) == child.pending_of(left),
        rotated.pending_of(!left) == lowered.pending_total(),
{
    assert(lowered_link.subtree() == Some(lowered));
    assert(link_shaped(Some(lowered_link)));
    assert(link_consistent(Some(lowered_link)));
    assert(link_inorder(Some(lowered_link)) == lowered.inorder());
    assert(link_inorder(tree.child(left)) == child.inorder());
    assert(link_tally(Some(lowered_link)) == lowered.tally());
    assert(link_tally(tree.child(left)) == child.tally());
    if left {
        assert(rotated.child(true) == child.child(true));
        assert(rotated.child(false) == Some(lowered_link));
        assert(rotated.inorder() =~= tree.inorder());
    } else {
        assert(rotated.child(false) == child.child(false));
        assert(rotated.child(true) == Some(lowered_link));
        assert(rotated.inorder() =~= tree.inorder());
    }
}

/// The weight with which a key counts in a tree, whichever side is named
/// first.
proof fn lemma_sides_weight(tree: Tree, left: bool, key: Seq<u8>)
    ensures
        tree.weight_at(key) == weight_here(tree.feature(), tree.key_bytes(), key)
            + link_weight_at(tree.child(left), key) + link_weight_at(tree.child(!left), key),
{
}

/// A rotation leaves every key the weight with which it counts.
proof fn lemma_lifted_weights(
    tree: Tree,
    child: Tree,
    lowered: Tree,
    side: Option<Link>,
    rotated: Tree,
    left: bool,
)
    requires
        tree.subtree_of(left) == Some(child),
        side == rotated.child(!left),
        forall|key: Seq<u8>| #[trigger] link_weight_at(side, key) == lowered.weight_at(key),
        rotated.child(left) == child.child(left),
        rotated.same_entry(child),
        forall|key: Seq<u8>| #[trigger]
            lowered.weight_at(key) == weight_here(tree.feature(), tree.key_bytes(), key)
                + link_weight_at(child.child(!left), key) + link_weight_at(
                tree.child(!left),
                key,
            ),
    ensures
        forall|key: Seq<u8>| #[trigger] rotated.weight_at(key) == tree.weight_at(key),
{
    assert forall|key: Seq<u8>| #[trigger] rotated.weight_at(key) == tree.weight_at(key) by {
        lemma_sides_weight(rotated, left, key);
        lemma_sides_weight(child, left, key);
        lemma_sides_weight(tree, left, key);
        assert(link_weight_at(tree.child(left), key) == child.weight_at(key));
        assert(link_weight_at(side, key) == lowered.weight_at(key));
    }
}

/// Lifts the child on the given side into the place of the node, which
/// becomes that child's child on the other side and takes over the grandchild
/// in between. The entries keep their order.
pub fn rotate(tree: Tree, left: bool) -> (rotated: Tree)
    requires
        liftable(tree, left),
        link_shaped(tree.child(!left)),
        tree.consistent(),
        tree.height_value() <= 255,
        tree.pending_total() + 1 <= usize::MAX,
        tree.subtree_of(left).unwrap().height_of(!left) <= tree.height_of(!left) + 1,
        tree.height_of(!left) <= tree.subtree_of(left).unwrap().height_of(!left) + 1,
    ensures
        rotated.inorder() == tree.inorder(),
        rotated.tally() == tree.tally(),
        forall|key: Seq<u8>| #[trigger] rotated.weight_at(key) == tree.weight_at(key),
        rotated.consistent(),
        rotated.sides_shaped(),
        rotated.height_of(left) == tree.subtree_of(left).unwrap().height_of(left),
        rotated.height_of(!left) == 1 + higher(
            tree.subtree_of(left).unwrap().height_of(!left),
            tree.height_of(!left),
        ),
        rotated.pending_total() <= tree.pending_total() + 1,
{
    let ghost child0 = tree.subtree_of(left).unwrap();
    let ghost link0 = tree.child(left).unwrap();
    proof {
        if !(link0 is Modified) {
            child0.lemma_hashed_is_consistent();
        }
    }
    let (rest, link) = tree.detach(left);
    let child = link.unwrap().into_tree().unwrap();
    let (child_rest, grandchild) = child.detach(!left);
    let lowered = rest.attach(left, grandchild);
    proof {
        lemma_lowered(tree, child0, lowered, left);
    }
    let lowered_link = Link::from_modified_tree(lowered);
    let rotated = child_rest.attach(!left, Some(lowered_link));
    proof {
        lemma_lifted(tree, child0, lowered, lowered_link, rotated, left);
        let side = Some(lowered_link);
        assert forall|key: Seq<u8>| #[trigger]
            link_weight_at(side, key) == lowered.weight_at(key) by {
            assert(lowered_link.subtree() == Some(lowered));
        }
        lemma_lifted_weights(tree, child0, lowered, side, rotated, left);
    }
    rotated
}

/// What holds of a node whose child on one side has been replaced by a
/// modified link to `child`.
proof fn lemma_replaced_child(before: Tree, child: Tree, link: Link, after: Tree, left: bool)
    requires
        before.consistent(),
        link_shaped(before.child(!left)),
        child.consistent(),
        child.sides_shaped(),
        child.height_value() <= 255,
        child.pending_total() <= usize::MAX,
        link == (Link::Modified {
            pending_writes: child.pending_total() as usize,
            child_heights: (child.height_of(true) as u8, child.height_of(false) as u8),
            tree: child,
        }),
        after.child(left) == Some(link),
        after.child(!left) == before.child(!left),
        after.same_entry(before),
    ensures
        liftable(after, left),
        link_shaped(after.child(!left)),
        child.shaped() ==> after.sides_shaped(),
        after.consistent(),
        after.subtree_of(left) == Some(child),
        after.height_of(left) == child.height_value(),
        after.height_of(!left) == before.height_of(!left),
        after.pending_of(left) == child.pending_total(),
        after.pending_of(!left) == before.pending_of(!left),
        after.inorder() == if left {
            child.inorder() + seq![(before.key_bytes(), before.value_bytes())] + link_inorder(
                before.child(false),
            )
        } else {
            link_inorder(before.child(true)) + seq![(before.key_bytes(), before.value_bytes())]
                + child.inorder()
        },
        after.tally() == tally_of(
            before.feature(),
            child.tally(),
            link_tally(before.child(!left)),
        ),
        forall|key: Seq<u8>| #[trigger]
            after.weight_at(key) == weight_here(before.feature(), before.key_bytes(), key)
                + child.weight_at(key) + link_weight_at(before.child(!left), key),
{
    assert(link.subtree() == Some(child));
    assert(link_consistent(Some(link)));
    assert(link_inorder(Some(link)) == child.inorder());
    assert(link_tally(Some(link)) == child.tally());
    assert forall|key: Seq<u8>| #[trigger]
        after.weight_at(key) == weight_here(before.feature(), before.key_bytes(), key)
            + child.weight_at(key) + link_weight_at(before.child(!left), key) by {
        assert(link_weight_at(Some(link), key) == child.weight_at(key));
        lemma_sides_weight(after, left, key);
    }
    if left {
        assert(after.child(true) == Some(link));
        assert(after.child(false) == before.child(false));
    } else {
        assert(after.child(false) == Some(link));
        assert(after.child(true) == before.child(true));
    }
}

/// Prepares the child that is to be lifted on side `left` of its parent:
/// where it leans toward the parent, a rotation of its own makes it lean the
/// other way.
fn lean_outward(child: Tree, left: bool) -> (settled: Tree)
    requires
        child.shaped(),
        child.consistent(),
        child.height_value() <= 255,
        child.pending_total() + 1 <= usize::MAX,
    ensures
        settled.sides_shaped(),
        settled.consistent(),
        settled.inorder() == child.inorder(),
        settled.tally() == child.tally(),
        forall|key: Seq<u8>| #[trigger] settled.weight_at(key) == child.weight_at(key),
        settled.height_value() == child.height_value(),
        settled.height_of(!left) <= settled.height_of(left),
        settled.height_of(left) <= settled.height_of(!left) + 2,
        settled.pending_total() <= child.pending_total() + 1,
{
    let outer: u8 = child.child_height(left);
    let inner: u8 = child.child_height(!left);
    if inner > outer {
        proof {
            let grandchild = child.subtree_of(!left).unwrap();
            assert(link_shaped(child.child(!left)));
            assert(grandchild.shaped());
        }
        rotate(child, !left)
    } else {
        child
    }
}

/// Restores the balance of a node whose children differ in height by two at
/// most, by one rotation or two. The entries keep their order.
#[verifier::rlimit(50)]
pub fn maybe_balance(tree: Tree) -> (balanced: Tree)
    requires
        tree.sides_shaped(),
        tree.consistent(),
        tree.height_value() <= 255,
        tree.pending_total() + 3 <= usize::MAX,
        tree.height_of(true) <= tree.height_of(false) + 2,
        tree.height_of(false) <= tree.height_of(true) + 2,
    ensures
        balanced.shaped(),
        balanced.consistent(),
        balanced.inorder() == tree.inorder(),
        balanced.tally() == tree.tally(),
        forall|key: Seq<u8>| #[trigger] balanced.weight_at(key) == tree.weight_at(key),
        balanced.height_value() == tree.height_value() || balanced.height_value() + 1
            == tree.height_value(),
        tree.balanced_here() ==> balanced.height_value() == tree.height_value(),
        balanced.pending_total() <= tree.pending_total() + 3,
{
    let left_height: u8 = tree.child_height(true);
    let right_height: u8 = tree.child_height(false);
    if left_height as u16 <= right_height as u16 + 1 && right_height as u16 <= left_height as u16
        + 1 {
        return tree;
    }
    let left = left_height > right_height;
    let ghost link0 = tree.child(left).unwrap();
    let ghost child0 = tree.subtree_of(left).unwrap();
    proof {
        if !(link0 is Modified) {
            child0.lemma_hashed_is_consistent();
        }
        assert(link_shaped(tree.child(left)));
        assert(child0.shaped());
        assert(child0.height_value() == tree.height_of(left));
    }
    let (rest, link) = tree.detach(left);
    let child = lean_outward(link.unwrap().into_tree().unwrap(), left);
    let link = Link::from_modified_tree(child);
    let joined = rest.attach(left, Some(link));
    proof {
        lemma_replaced_child(tree, child, link, joined, left);
        assert forall|key: Seq<u8>| #[trigger] joined.weight_at(key) == tree.weight_at(key) by {
            assert(link_weight_at(tree.child(left), key) == child0.weight_at(key));
            lemma_sides_weight(tree, left, key);
        }
    }
    rotate(joined, left)
}

/// A copy of a key.
fn copy_key(key: &[u8]) -> (copy: Vec<u8>)
    ensures
        copy@ == key@,
{
    let mut copy: Vec<u8> = Vec::new();
    copy.extend_from_slice(key);
    assert(copy@ =~= key@);
    copy
}

/// What the entries of a tree are once one side has taken in a key: sorted,
/// and the map of before with the key set.
proof fn lemma_side_took_key(
    tree: Tree,
    changed: Seq<(Seq<u8>, Seq<u8>)>,
    key: Seq<u8>,
    value: Seq<u8>,
    left: bool,
)
    requires
        sorted(tree.inorder()),
        sorted(changed),
        if left {
            crate::order::key_less(key, tree.key_bytes())
        } else {
            crate::order::key_less(tree.key_bytes(), key)
        },
        entry_map(changed) == entry_map(link_inorder(tree.child(left))).insert(key, value),
    ensures
        ({
            let after = if left {
                changed + seq![(tree.key_bytes(), tree.value_bytes())] + link_inorder(
                    tree.child(false),
                )
            } else {
                link_inorder(tree.child(true)) + seq![(tree.key_bytes(), tree.value_bytes())]
                    + changed
            };
            sorted(after) && entry_map(after) == entry_map(tree.inorder()).insert(key, value)
        }),
{
    lemma_set_on_side(
        link_inorder(tree.child(true)),
        (tree.key_bytes(), tree.value_bytes()),
        link_inorder(tree.child(false)),
        changed,
        key,
        value,
        left,
    );
}

/// The weights and their sum once the root, which has the key, has taken a
/// new feature.
proof fn lemma_tally_replaced(tree: Tree, updated: Tree, key: Seq<u8>)
    requires
        sorted(tree.inorder()),
        key == tree.key_bytes(),
        updated.key_bytes() == key,
        updated.child(true) == tree.child(true),
        updated.child(false) == tree.child(false),
    ensures
        tree.tally() matches Some(total) ==> updated.tally() == match updated.feature() {
            TreeFeatureType::SummedMerk(weight) => Some(total - tree.weight_at(key) + weight),
            TreeFeatureType::BasicMerk => None,
        },
        forall|other: Seq<u8>| #[trigger]
            updated.weight_at(other) == if other == key {
                weight_of(updated.feature())
            } else {
                tree.weight_at(other)
            },
{
    tree.lemma_weight_by_search(key);
    assert forall|other: Seq<u8>| #[trigger]
        updated.weight_at(other) == if other == key {
            weight_of(updated.feature())
        } else {
            tree.weight_at(other)
        } by {
        assert(updated.weight_at(other) == weight_here(updated.feature(), key, other)
            + link_weight_at(tree.child(true), other) + link_weight_at(tree.child(false), other));
        assert(tree.weight_at(other) == weight_here(tree.feature(), key, other) + link_weight_at(
            tree.child(true),
            other,
        ) + link_weight_at(tree.child(false), other));
    }
}

/// The weights and their sum once the side on which the key lies has taken
/// in an entry with the key.
proof fn lemma_tally_on_side(
    tree: Tree,
    child: Tree,
    joined: Tree,
    key: Seq<u8>,
    left: bool,
    feature_type: TreeFeatureType,
)
    requires
        sorted(tree.inorder()),
        key != tree.key_bytes(),
        left == crate::order::key_less(key, tree.key_bytes()),
        joined.tally() == tally_of(tree.feature(), child.tally(), link_tally(tree.child(!left))),
        link_tally(tree.child(left)) matches Some(total) ==> child.tally() == match feature_type {
            TreeFeatureType::SummedMerk(weight) => Some(
                total - link_weight_at(tree.child(left), key) + weight,
            ),
            TreeFeatureType::BasicMerk => None,
        },
        forall|other: Seq<u8>| #[trigger]
            joined.weight_at(other) == weight_here(tree.feature(), tree.key_bytes(), other)
                + child.weight_at(other) + link_weight_at(tree.child(!left), other),
        forall|other: Seq<u8>| #[trigger]
            child.weight_at(other) == if other == key {
                weight_of(feature_type)
            } else {
                link_weight_at(tree.child(left), other)
            },
    ensures
        tree.tally() matches Some(total) ==> joined.tally() == match feature_type {
            TreeFeatureType::SummedMerk(weight) => Some(total - tree.weight_at(key) + weight),
            TreeFeatureType::BasicMerk => None,
        },
        forall|other: Seq<u8>| #[trigger]
            joined.weight_at(other) == if other == key {
                weight_of(feature_type)
            } else {
                tree.weight_at(other)
            },
{
    lemma_sides_tally(tree, left);
    lemma_weight_on_side(tree, key, left);
    assert forall|other: Seq<u8>| #[trigger]
        joined.weight_at(other) == if other == key {
            weight_of(feature_type)
        } else {
            tree.weight_at(other)
        } by {
        lemma_sides_weight(tree, left, other);
        assert(child.weight_at(other) == if other == key {
            weight_of(feature_type)
        } else {
            link_weight_at(tree.child(left), other)
        });
    }
}

/// Sets `key` to `value` in the tree: the value and the feature of the node
/// with that key are replaced, or a new node is added at the bottom and the
/// balance restored on the way up. Every link on the way becomes modified. In
/// a tree of summed nodes the sum of the weights changes by what the node
/// with the key weighs more than before; every other key counts as before.
#[verifier::rlimit(50)]
pub fn put(tree: Tree, key: &[u8], value: Vec<u8>, feature_type: TreeFeatureType) -> (updated:
    Tree)
    requires
        tree.shaped(),
        tree.hashed(),
        sorted(tree.inorder()),
        tree.height_value() < 255,
    ensures
        updated.shaped(),
        updated.consistent(),
        sorted(updated.inorder()),
        entry_map(updated.inorder()) == entry_map(tree.inorder()).insert(key@, value@),
        updated.height_value() == tree.height_value() || updated.height_value()
            == tree.height_value() + 1,
        updated.pending_total() <= 4 * tree.height_value() + 1,
        tree.tally() matches Some(total) ==> updated.tally() == match feature_type {
            TreeFeatureType::SummedMerk(weight) => Some(total - tree.weight_at(key@) + weight),
            TreeFeatureType::BasicMerk => None,
        },
        forall|other: Seq<u8>| #[trigger]
            updated.weight_at(other) == if other == key@ {
                weight_of(feature_type)
            } else {
                tree.weight_at(other)
            },
    decreases tree.height_value(),
{
    proof {
        tree.lemma_hashed_is_consistent();
    }
    let left = match compare_keys(key, tree.key()) {
        KeyOrder::Same => {
            proof {
                lemma_set_in_middle(
                    link_inorder(tree.child(true)),
                    (tree.key_bytes(), tree.value_bytes()),
                    link_inorder(tree.child(false)),
                    value@,
                );
            }
            let updated = tree.with_value(value, feature_type).unwrap();
            proof {
                lemma_tally_replaced(tree, updated, key@);
            }
            return updated;
        },
        KeyOrder::Before => true,
        KeyOrder::After => false,
    };
    proof {
        lemma_sorted_parts(
            link_inorder(tree.child(true)),
            (tree.key_bytes(), tree.value_bytes()),
            link_inorder(tree.child(false)),
        );
        lemma_single_entry(key@, value@);
        lemma_no_entries();
    }
    let (rest, link) = tree.detach(left);
    let child = match link {
        None => {
            let leaf = Tree::new(copy_key(key), value, feature_type).unwrap();
            proof {
                assert(leaf.tally() == tally_of(feature_type, Some(0), Some(0)));
                assert forall|other: Seq<u8>| #[trigger]
                    leaf.weight_at(other) == weight_here(feature_type, key@, other) by {
                    assert(link_weight_at(leaf.child(true), other) == 0);
                    assert(link_weight_at(leaf.child(false), other) == 0);
                }
            }
            leaf
        },
        Some(link) => {
            proof {
                assert(link_shaped(tree.child(left)));
                assert(link_hashed(tree.child(left)));
                let below = link.subtree().unwrap();
                assert(link_tally(tree.child(left)) == below.tally());
                assert forall|other: Seq<u8>| #[trigger]
                    link_weight_at(tree.child(left), other) == below.weight_at(other) by {}
            }
            put(link.into_tree().unwrap(), key, value, feature_type)
        },
    };
    proof {
        assert(child.height_value() <= tree.height_of(left) + 1);
        assert(child.pending_total() <= 4 * tree.height_of(left) + 1);
        lemma_side_took_key(tree, child.inorder(), key@, value@, left);
    }
    let link = Link::from_modified_tree(child);
    let joined = rest.attach(left, Some(link));
    proof {
        lemma_replaced_child(tree, child, link, joined, left);
        lemma_tally_on_side(tree, child, joined, key@, left, feature_type);
    }
    maybe_balance(joined)
}

/// What holds of a node whose link on one side has been replaced by a link
/// to the same subtree with its hashes computed.
proof fn lemma_side_hashed(before: Tree, link: Option<Link>, after: Tree, left: bool)
    requires
        link_shaped(link),
        link_hashed(link),
        link_inorder(link) == link_inorder(before.child(left)),
        link_tally(link) == link_tally(before.child(left)),
        forall|key: Seq<u8>| #[trigger]
            link_weight_at(link, key) == link_weight_at(before.child(left), key),
        crate::tree::link_height(link) == before.height_of(left),
        after.child(left) == link,
        after.child(!left) == before.child(!left),
        after.same_entry(before),
    ensures
        after.inorder() == before.inorder(),
        after.tally() == before.tally(),
        forall|key: Seq<u8>| #[trigger] after.weight_at(key) == before.weight_at(key),
        after.height_of(true) == before.height_of(true),
        after.height_of(false) == before.height_of(false),
        link_shaped(after.child(left)),
        link_hashed(after.child(left)),
{
    if left {
        assert(after.child(true) == link);
        assert(after.child(false) == before.child(false));
    } else {
        assert(after.child(false) == link);
        assert(after.child(true) == before.child(true));
    }
    assert forall|key: Seq<u8>| #[trigger] after.weight_at(key) == before.weight_at(key) by {
        lemma_sides_weight(after, left, key);
        lemma_sides_weight(before, left, key);
    }
}

/// Computes the hash and the aggregate of the node behind a modified link,
/// after those of the modified links below it, and makes the link
/// uncommitted. Any other link stays as it is.
fn hash_link(link: Option<Link>) -> (hashed: Option<Link>)
    requires
        link_shaped(link),
        link_consistent(link),
    ensures
        link_shaped(hashed),
        link_hashed(hashed),
        link_inorder(hashed) == link_inorder(link),
        link_tally(hashed) == link_tally(link),
        forall|key: Seq<u8>| #[trigger] link_weight_at(hashed, key) == link_weight_at(link, key),
        crate::tree::link_height(hashed) == crate::tree::link_height(link),
        hashed.is_some() == link.is_some(),
    decreases crate::tree::link_height(link), 1nat,
{
    match link {
        Some(Link::Modified { child_heights, tree, .. }) => {
            let ghost held = tree;
            let tree = hash_pending(tree);
            let hash = tree.hash();
            let sum = tree.sum();
            let hashed = Some(Link::Uncommitted { hash, child_heights, tree, sum });
            proof {
                assert forall|key: Seq<u8>| #[trigger]
                    link_weight_at(hashed, key) == link_weight_at(link, key) by {
                    assert(link_weight_at(hashed, key) == tree.weight_at(key));
                    assert(link_weight_at(link, key) == held.weight_at(key));
                }
            }
            hashed
        },
        other => other,
    }
}

/// Computes every hash that is pending in the tree, bottom up: modified
/// links become uncommitted links that hold the hashes and the aggregates of
/// their nodes.
pub fn hash_pending(tree: Tree) -> (hashed: Tree)
    requires
        tree.shaped(),
        tree.consistent(),
    ensures
        hashed.shaped(),
        hashed.hashed(),
        hashed.inorder() == tree.inorder(),
        hashed.tally() == tree.tally(),
        forall|key: Seq<u8>| #[trigger] hashed.weight_at(key) == tree.weight_at(key),
        hashed.height_of(true) == tree.height_of(true),
        hashed.height_of(false) == tree.height_of(false),
        hashed.same_entry(tree),
    decreases tree.height_value(), 0nat,
{
    let (rest, left) = tree.detach(true);
    let left = hash_link(left);
    let half = rest.attach(true, left);
    proof {
        lemma_side_hashed(tree, left, half, true);
    }
    let (rest, right) = half.detach(false);
    let right = hash_link(right);
    let hashed = rest.attach(false, right);
    proof {
        lemma_side_hashed(half, right, hashed, false);
    }
    hashed
}

/// Looks a key up in the tree.
pub fn lookup<'a>(tree: &'a Tree, key: &[u8]) -> (found: Option<&'a [u8]>)
    requires
        tree.shaped(),
        sorted(tree.inorder()),
    ensures
        found.is_some() == entry_map(tree.inorder()).dom().contains(key@),
        found matches Some(value) ==> value@ == entry_map(tree.inorder())[key@],
    decreases tree.height_value(),
{
    let ghost left_entries = link_inorder(tree.child(true));
    let ghost right_entries = link_inorder(tree.child(false));
    let ghost middle = (tree.key_bytes(), tree.value_bytes());
    let left = match compare_keys(key, tree.key()) {
        KeyOrder::Same => {
            proof {
                crate::entries::lemma_holds_around(left_entries, middle, right_entries, key@);
            }
            return Some(tree.value());
        },
        KeyOrder::Before => true,
        KeyOrder::After => false,
    };
    proof {
        lemma_sorted_parts(left_entries, middle, right_entries);
        crate::entries::lemma_lookup_on_side(left_entries, middle, right_entries, key@, left);
        lemma_no_entries();
        assert(link_shaped(tree.child(left)));
    }
    match tree.link(left) {
        None => None,
        Some(link) => match link.tree() {
            Some(child) => lookup(child, key),
            None => None,
        },
    }
}

/// The key of the node behind a link is among the entries of the link's
/// subtree, and the entries of the subtree are among those of any tree that
/// holds the link: so where a tree has short keys, its links have them too.
proof fn lemma_link_keys_short(tree: Tree, left: bool)
    requires
        tree.sides_shaped(),
        short_keys(tree.inorder()),
    ensures
        short_keys(link_inorder(tree.child(left))),
        tree.child(left) matches Some(link) ==> link.key_bytes().len() < 256,
        tree.key_bytes().len() < 256,
{
    let whole = tree.inorder();
    let before = link_inorder(tree.child(true));
    let after = link_inorder(tree.child(false));
    assert(whole[before.len() as int] == (tree.key_bytes(), tree.value_bytes()));
    assert forall|i: int| 0 <= i < before.len() implies (#[trigger] before[i]).0.len() < 256 by {
        assert(whole[i] == before[i]);
    }
    assert forall|i: int| 0 <= i < after.len() implies (#[trigger] after[i]).0.len() < 256 by {
        assert(whole[before.len() + 1 + i] == after[i]);
    }
    if let Some(link) = tree.child(left) {
        let child = link.subtree().unwrap();
        let entries = child.inorder();
        let at = link_inorder(child.child(true)).len() as int;
        assert(entries[at] == (child.key_bytes(), child.value_bytes()));
        assert(entries == link_inorder(tree.child(left)));
    }
}

/// What holds of a node one of whose links has been replaced by the same
/// link with the nodes below it stored.
proof fn lemma_side_stored(before: Tree, link: Option<Link>, after: Tree, left: bool)
    requires
        link_shaped(link),
        link_hashed(link),
        link_inorder(link) == link_inorder(before.child(left)),
        link_tally(link) == link_tally(before.child(left)),
        link_height(link) == before.height_of(left),
        link_digest(link) == link_digest(before.child(left)),
        crate::node::side_record(link) == crate::node::side_record(before.child(left)),
        forall|key: Seq<u8>| #[trigger]
            link_weight_at(link, key) == link_weight_at(before.child(left), key),
        after.child(left) == link,
        after.child(!left) == before.child(!left),
        after.same_entry(before),
    ensures
        after.inorder() == before.inorder(),
        after.tally() == before.tally(),
        forall|key: Seq<u8>| #[trigger] after.weight_at(key) == before.weight_at(key),
        after.height_of(true) == before.height_of(true),
        after.height_of(false) == before.height_of(false),
        after.digest() == before.digest(),
        after.record() == before.record(),
        link_shaped(after.child(left)),
        link_hashed(after.child(left)),
{
    if left {
        assert(after.child(true) == link);
        assert(after.child(false) == before.child(false));
    } else {
        assert(after.child(false) == link);
        assert(after.child(true) == before.child(true));
    }
    assert forall|key: Seq<u8>| #[trigger] after.weight_at(key) == before.weight_at(key) by {
        lemma_sides_weight(after, left, key);
        lemma_sides_weight(before, left, key);
    }
}

/// Stores the nodes behind an uncommitted link and makes the link a loaded
/// one. Any other link stays as it is.
fn store_link(link: Option<Link>, prefix: &[u8], batch: &mut StorageBatch) -> (stored: Option<
    Link,
>)
    requires
        link_shaped(link),
        link_hashed(link),
        short_keys(link_inorder(link)),
    ensures
        link_shaped(stored),
        link_hashed(stored),
        link_inorder(stored) == link_inorder(link),
        link_tally(stored) == link_tally(link),
        link_height(stored) == link_height(link),
        link_digest(stored) == link_digest(link),
        crate::node::side_record(stored) == crate::node::side_record(link),
        forall|key: Seq<u8>| #[trigger] link_weight_at(stored, key) == link_weight_at(link, key),
        !(stored matches Some(l) && (l is Uncommitted || l is Modified)),
        final(batch)@ == old(batch)@ + link_writes(link, prefix@),
    decreases link_height(link), 1nat,
{
    match link {
        Some(Link::Uncommitted { hash, child_heights, tree, sum }) => {
            let ghost held = tree;
            let tree = store_pending(tree, prefix, batch);
            let stored = Some(Link::Loaded { hash, child_heights, tree, sum });
            proof {
                assert forall|key: Seq<u8>| #[trigger]
                    link_weight_at(stored, key) == link_weight_at(link, key) by {
                    assert(link_weight_at(stored, key) == tree.weight_at(key));
                    assert(link_weight_at(link, key) == held.weight_at(key));
                }
            }
            stored
        },
        other => {
            assert(batch@ + link_writes(other, prefix@) =~= batch@);
            other
        },
    }
}

/// Writes into `batch` every node of the tree that is not stored yet, each
/// under its key behind `prefix`, the children of a node before the node and
/// this node last. The uncommitted links on the way become loaded links;
/// every node stays in memory.
pub fn store_pending(tree: Tree, prefix: &[u8], batch: &mut StorageBatch) -> (stored: Tree)
    requires
        tree.shaped(),
        tree.hashed(),
        short_keys(tree.inorder()),
    ensures
        stored.shaped(),
        stored.hashed(),
        stored.inorder() == tree.inorder(),
        stored.tally() == tree.tally(),
        forall|key: Seq<u8>| #[trigger] stored.weight_at(key) == tree.weight_at(key),
        stored.height_of(true) == tree.height_of(true),
        stored.height_of(false) == tree.height_of(false),
        stored.same_entry(tree),
        stored.digest() == tree.digest(),
        stored.record() == tree.record(),
        stored.writes(prefix@) == seq![tree.write(prefix@)],
        final(batch)@ == old(batch)@ + tree.writes(prefix@),
    decreases tree.height_value(), 0nat,
{
    proof {
        lemma_link_keys_short(tree, true);
        lemma_link_keys_short(tree, false);
    }
    let (rest, left) = tree.detach(true);
    let left = store_link(left, prefix, batch);
    let half = rest.attach(true, left);
    proof {
        lemma_side_stored(tree, left, half, true);
    }
    let (rest, right) = half.detach(false);
    let right = store_link(right, prefix, batch);
    let stored = rest.attach(false, right);
    proof {
        lemma_side_stored(half, right, stored, false);
        assert(link_writes(stored.child(true), prefix@) =~= Seq::empty());
        assert(link_writes(stored.child(false), prefix@) =~= Seq::empty());
        assert(stored.writes(prefix@) =~= seq![stored.write(prefix@)]);
    }
    let mut key: Vec<u8> = Vec::new();
    key.extend_from_slice(prefix);
    key.extend_from_slice(stored.key());
    assert(key@ =~= prefix@ + stored.key_bytes());
    let mut value: Vec<u8> = Vec::new();
    let encoded = stored.encode_into(&mut value);
    assert(value@ =~= crate::node::encoded_node(stored.record()));
    batch.put(key, value);
    proof {
        assert(batch@ =~= old(batch)@ + tree.writes(prefix@));
    }
    stored
}

/// The entries of a tree that may be empty.
pub open spec fn grown_inorder(tree: Option<Tree>) -> Seq<Entry> {
    match tree {
        Some(t) => t.inorder(),
        None => Seq::empty(),
    }
}

/// The height of a tree that may be empty.
pub open spec fn grown_height(tree: Option<Tree>) -> nat {
    match tree {
        Some(t) => t.height_value(),
        None => 0,
    }
}

/// The number of hashes that a tree that may be empty has yet to compute.
pub open spec fn grown_pending(tree: Option<Tree>) -> nat {
    match tree {
        Some(t) => t.pending_total(),
        None => 0,
    }
}

/// The sum of the weights of a tree that may be empty.
pub open spec fn grown_tally(tree: Option<Tree>) -> Option<int> {
    match tree {
        Some(t) => t.tally(),
        None => Some(0),
    }
}

/// The weight with which a key counts in a tree that may be empty.
pub open spec fn grown_weight_at(tree: Option<Tree>, key: Seq<u8>) -> int {
    match tree {
        Some(t) => t.weight_at(key),
        None => 0,
    }
}

/// Whether a tree that may be empty is well shaped and in order.
pub open spec fn grown_ok(tree: Option<Tree>) -> bool {
    tree matches Some(t) ==> t.shaped() && t.consistent()
}

/// What holds of a node that has no child on one side.
proof fn lemma_bare_side(rest: Tree, left: bool)
    requires
        rest.child(left).is_none(),
        rest.hashes_match(),
        link_shaped(rest.child(!left)),
        link_consistent(rest.child(!left)),
    ensures
        rest.sides_shaped(),
        rest.consistent(),
        rest.height_of(left) == 0,
        rest.pending_of(left) == 0,
        rest.inorder() == if left {
            seq![(rest.key_bytes(), rest.value_bytes())] + link_inorder(rest.child(false))
        } else {
            link_inorder(rest.child(true)) + seq![(rest.key_bytes(), rest.value_bytes())]
        },
        rest.tally() == tally_of(rest.feature(), Some(0), link_tally(rest.child(!left))),
        forall|key: Seq<u8>| #[trigger]
            rest.weight_at(key) == weight_here(rest.feature(), rest.key_bytes(), key)
                + link_weight_at(rest.child(!left), key),
{
    assert forall|key: Seq<u8>| #[trigger]
        rest.weight_at(key) == weight_here(rest.feature(), rest.key_bytes(), key)
            + link_weight_at(rest.child(!left), key) by {
        lemma_sides_weight(rest, left, key);
    }
    if left {
        assert(rest.child(true).is_none());
        assert(link_inorder(rest.child(true)) =~= Seq::empty());
        assert(rest.inorder() =~= seq![(rest.key_bytes(), rest.value_bytes())] + link_inorder(
            rest.child(false),
        ));
    } else {
        assert(rest.child(false).is_none());
        assert(link_inorder(rest.child(false)) =~= Seq::empty());
        assert(rest.inorder() =~= link_inorder(rest.child(true)) + seq![
            (rest.key_bytes(), rest.value_bytes()),
        ]);
    }
}

/// Puts a tree that may be empty on the bare side of a node, behind a
/// modified link.
fn graft(rest: Tree, left: bool, child: Option<Tree>) -> (joined: Tree)
    requires
        rest.child(left).is_none(),
        rest.hashes_match(),
        link_shaped(rest.child(!left)),
        link_consistent(rest.child(!left)),
        grown_ok(child),
        grown_height(child) <= 255,
        grown_pending(child) <= usize::MAX,
    ensures
        joined.sides_shaped(),
        joined.consistent(),
        joined.same_entry(rest),
        joined.child(!left) == rest.child(!left),
        joined.height_of(left) == grown_height(child),
        joined.height_of(!left) == rest.height_of(!left),
        joined.pending_of(left) == grown_pending(child),
        joined.pending_of(!left) == rest.pending_of(!left),
        joined.inorder() == if left {
            grown_inorder(child) + seq![(rest.key_bytes(), rest.value_bytes())] + link_inorder(
                rest.child(false),
            )
        } else {
            link_inorder(rest.child(true)) + seq![(rest.key_bytes(), rest.value_bytes())]
                + grown_inorder(child)
        },
        joined.tally() == tally_of(
            rest.feature(),
            grown_tally(child),
            link_tally(rest.child(!left)),
        ),
        forall|key: Seq<u8>| #[trigger]
            joined.weight_at(key) == weight_here(rest.feature(), rest.key_bytes(), key)
                + grown_weight_at(child, key) + link_weight_at(rest.child(!left), key),
{
    proof {
        lemma_bare_side(rest, left);
    }
    match child {
        None => {
            proof {
                if left {
                    assert(Seq::<Entry>::empty() + seq![(rest.key_bytes(), rest.value_bytes())]
                        =~= seq![(rest.key_bytes(), rest.value_bytes())]);
                } else {
                    assert(link_inorder(rest.child(true)) + seq![
                        (rest.key_bytes(), rest.value_bytes()),
                    ] + Seq::<Entry>::empty() =~= link_inorder(rest.child(true)) + seq![
                        (rest.key_bytes(), rest.value_bytes()),
                    ]);
                }
            }
            rest
        },
        Some(tree) => {
            let link = Link::from_modified_tree(tree);
            let joined = rest.attach(left, Some(link));
            proof {
                lemma_replaced_child(rest, tree, link, joined, left);
            }
            joined
        },
    }
}

/// Puts a tree that may be empty on the bare side of a node and restores
/// the balance of the node.
fn mend(rest: Tree, left: bool, child: Option<Tree>) -> (mended: Tree)
    requires
        rest.child(left).is_none(),
        rest.hashes_match(),
        link_shaped(rest.child(!left)),
        link_consistent(rest.child(!left)),
        grown_ok(child),
        grown_height(child) <= 254,
        rest.height_of(!left) <= 254,
        grown_height(child) <= rest.height_of(!left) + 2,
        rest.height_of(!left) <= grown_height(child) + 2,
        grown_pending(child) + rest.pending_of(!left) + 4 <= usize::MAX,
    ensures
        mended.shaped(),
        mended.consistent(),
        mended.inorder() == if left {
            grown_inorder(child) + seq![(rest.key_bytes(), rest.value_bytes())] + link_inorder(
                rest.child(false),
            )
        } else {
            link_inorder(rest.child(true)) + seq![(rest.key_bytes(), rest.value_bytes())]
                + grown_inorder(child)
        },
        mended.tally() == tally_of(
            rest.feature(),
            grown_tally(child),
            link_tally(rest.child(!left)),
        ),
        forall|key: Seq<u8>| #[trigger]
            mended.weight_at(key) == weight_here(rest.feature(), rest.key_bytes(), key)
                + grown_weight_at(child, key) + link_weight_at(rest.child(!left), key),
        mended.height_value() == 1 + higher(grown_height(child), rest.height_of(!left))
            || mended.height_value() == higher(grown_height(child), rest.height_of(!left)),
        grown_height(child) <= rest.height_of(!left) + 1 && rest.height_of(!left) <= grown_height(
            child,
        ) + 1 ==> mended.height_value() == 1 + higher(
            grown_height(child),
            rest.height_of(!left),
        ),
        mended.pending_total() <= grown_pending(child) + rest.pending_of(!left) + 4,
{
    let joined = graft(rest, left, child);
    maybe_balance(joined)
}

/// The sum of the weights of a tree, whichever side is named first.
proof fn lemma_sides_tally(tree: Tree, left: bool)
    ensures
        tree.tally() == tally_of(
            tree.feature(),
            link_tally(tree.child(left)),
            link_tally(tree.child(!left)),
        ),
{
}

/// A key that is not that of the root counts as it does on the side on
/// which it lies.
proof fn lemma_weight_on_side(tree: Tree, key: Seq<u8>, left: bool)
    requires
        sorted(tree.inorder()),
        key != tree.key_bytes(),
        left == crate::order::key_less(key, tree.key_bytes()),
    ensures
        tree.weight_at(key) == link_weight_at(tree.child(left), key),
        link_weight_at(tree.child(!left), key) == 0,
{
    tree.lemma_weight_by_search(key);
    crate::order::lemma_key_less_total(key, tree.key_bytes());
}

/// The entries of a tree once the outermost entry of one side has been set
/// apart: the entry stands at the end of that side, and the rest follows.
proof fn lemma_edge_apart(
    inner: Seq<Entry>,
    edge: Entry,
    middle: Entry,
    other: Seq<Entry>,
    left: bool,
)
    ensures
        left ==> (seq![edge] + inner) + seq![middle] + other == seq![edge] + (inner + seq![
            middle,
        ] + other),
        !left ==> other + seq![middle] + (inner + seq![edge]) == (other + seq![middle] + inner)
            + seq![edge],
{
    if left {
        assert((seq![edge] + inner) + seq![middle] + other =~= seq![edge] + (inner + seq![middle]
            + other));
    } else {
        assert(other + seq![middle] + (inner + seq![edge]) =~= (other + seq![middle] + inner)
            + seq![edge]);
    }
}

/// The sum of the weights of a tree whose root is its outermost node on one
/// side.
proof fn lemma_edge_is_root(tree: Tree, left: bool, edge: TreeFeatureType, remaining: Option<int>)
    requires
        tree.child(left).is_none(),
        edge == tree.feature(),
        remaining == link_tally(tree.child(!left)),
    ensures
        tree.tally() == tally_of(edge, Some(0), remaining),
{
    lemma_sides_tally(tree, left);
}

/// The sum of the weights of a tree whose outermost node on one side has
/// been taken out from below the root.
proof fn lemma_edge_below(
    tree: Tree,
    left: bool,
    edge: TreeFeatureType,
    remaining: Option<int>,
    mended: Option<int>,
)
    requires
        link_tally(tree.child(left)) == tally_of(edge, Some(0), remaining),
        mended == tally_of(tree.feature(), remaining, link_tally(tree.child(!left))),
    ensures
        tree.tally() == tally_of(edge, Some(0), mended),
{
    lemma_sides_tally(tree, left);
}

/// Takes the outermost node on the given side out of the tree: the node with
/// the least key on the left, with the greatest on the right. Gives that
/// node, without children, and what is left of the tree, balanced again.
#[verifier::rlimit(50)]
fn remove_edge(tree: Tree, left: bool) -> (parts: (Tree, Option<Tree>))
    requires
        tree.shaped(),
        tree.hashed(),
        tree.height_value() <= 255,
    ensures
        parts.0.child(true).is_none(),
        parts.0.child(false).is_none(),
        parts.0.hashes_match(),
        grown_ok(parts.1),
        tree.inorder() == if left {
            seq![(parts.0.key_bytes(), parts.0.value_bytes())] + grown_inorder(parts.1)
        } else {
            grown_inorder(parts.1) + seq![(parts.0.key_bytes(), parts.0.value_bytes())]
        },
        tree.tally() == tally_of(parts.0.feature(), Some(0), grown_tally(parts.1)),
        forall|key: Seq<u8>|
            tree.weight_at(key) == weight_here(parts.0.feature(), parts.0.key_bytes(), key)
                + #[trigger] grown_weight_at(parts.1, key),
        grown_height(parts.1) == tree.height_value() || grown_height(parts.1) + 1
            == tree.height_value(),
        grown_pending(parts.1) <= 4 * tree.height_value() + 1,
    decreases tree.height_value(),
{
    proof {
        tree.lemma_hashed_is_consistent();
        assert(link_shaped(tree.child(left)));
        assert(link_hashed(tree.child(left)));
        assert(link_shaped(tree.child(!left)));
        assert(link_hashed(tree.child(!left)));
        crate::tree::lemma_link_hashed_is_consistent(tree.child(!left));
    }
    let ghost middle = (tree.key_bytes(), tree.value_bytes());
    let (rest, link) = tree.detach(left);
    match link {
        None => {
            let (edge, other) = rest.detach(!left);
            proof {
                lemma_bare_side(rest, left);
            }
            let remaining = match other {
                Some(l) => {
                    proof {
                        l.subtree().unwrap().lemma_hashed_is_consistent();
                    }
                    l.into_tree()
                },
                None => None,
            };
            proof {
                assert(grown_inorder(remaining) == link_inorder(tree.child(!left)));
                assert(grown_tally(remaining) == link_tally(tree.child(!left)));
                lemma_edge_is_root(tree, left, edge.feature(), grown_tally(remaining));
                assert forall|key: Seq<u8>|
                    tree.weight_at(key) == weight_here(edge.feature(), edge.key_bytes(), key)
                        + #[trigger] grown_weight_at(remaining, key) by {
                    lemma_sides_weight(tree, left, key);
                    assert(grown_weight_at(remaining, key) == link_weight_at(
                        tree.child(!left),
                        key,
                    ));
                }
            }
            (edge, remaining)
        },
        Some(l) => {
            let child = l.into_tree().unwrap();
            let ghost other = link_inorder(tree.child(!left));
            let (edge, remaining) = remove_edge(child, left);
            let mended = mend(rest, left, remaining);
            proof {
                assert(link_tally(tree.child(left)) == child.tally());
                lemma_edge_below(
                    tree,
                    left,
                    edge.feature(),
                    grown_tally(remaining),
                    mended.tally(),
                );
                assert forall|key: Seq<u8>|
                    tree.weight_at(key) == weight_here(edge.feature(), edge.key_bytes(), key)
                        + #[trigger] grown_weight_at(Some(mended), key) by {
                    lemma_sides_weight(tree, left, key);
                    assert(link_weight_at(tree.child(left), key) == child.weight_at(key));
                    assert(child.weight_at(key) == weight_here(
                        edge.feature(),
                        edge.key_bytes(),
                        key,
                    ) + grown_weight_at(remaining, key));
                    assert(mended.weight_at(key) == weight_here(
                        tree.feature(),
                        tree.key_bytes(),
                        key,
                    ) + grown_weight_at(remaining, key) + link_weight_at(tree.child(!left), key));
                }
                assert(link_inorder(tree.child(left)) == child.inorder());
                lemma_edge_apart(
                    grown_inorder(remaining),
                    (edge.key_bytes(), edge.value_bytes()),
                    middle,
                    other,
                    left,
                );
            }
            (edge, Some(mended))
        },
    }
}

/// The entries of a tree once the entry next to the root has taken the
/// place of the root: the entries of the tree without that of the root.
proof fn lemma_root_replaced(
    inner: Seq<Entry>,
    edge: Entry,
    middle: Entry,
    other: Seq<Entry>,
    side: bool,
)
    ensures
        side ==> inner + seq![edge] + other == ((inner + seq![edge]) + seq![middle] + other).remove(
            (inner + seq![edge]).len() as int,
        ),
        !side ==> other + seq![edge] + inner == (other + seq![middle] + (seq![edge]
            + inner)).remove(other.len() as int),
{
    if side {
        assert(inner + seq![edge] + other =~= ((inner + seq![edge]) + seq![middle]
            + other).remove((inner + seq![edge]).len() as int));
    } else {
        assert(other + seq![edge] + inner =~= (other + seq![middle] + (seq![edge]
            + inner)).remove(other.len() as int));
    }
}

/// Takes the root out of a tree with two children: the outermost node of
/// the higher side, next to the root in the order of keys, takes its place.
fn replace_root(tree: Tree) -> (replaced: Tree)
    requires
        tree.shaped(),
        tree.hashed(),
        tree.height_value() <= 255,
        tree.child(true).is_some(),
        tree.child(false).is_some(),
    ensures
        replaced.shaped(),
        replaced.consistent(),
        replaced.inorder() == tree.inorder().remove(
            link_inorder(tree.child(true)).len() as int,
        ),
        tree.tally() matches Some(total) ==> replaced.tally() == Some(
            total - weight_of(tree.feature()),
        ),
        forall|key: Seq<u8>| #[trigger]
            replaced.weight_at(key) == tree.weight_at(key) - weight_here(
                tree.feature(),
                tree.key_bytes(),
                key,
            ),
        replaced.height_value() == tree.height_value() || replaced.height_value() + 1
            == tree.height_value(),
        replaced.pending_total() <= 4 * tree.height_value() + 1,
{
    proof {
        tree.lemma_hashed_is_consistent();
        assert(link_shaped(tree.child(true)));
        assert(link_hashed(tree.child(true)));
        assert(link_shaped(tree.child(false)));
        assert(link_hashed(tree.child(false)));
        crate::tree::lemma_link_hashed_is_consistent(tree.child(true));
        crate::tree::lemma_link_hashed_is_consistent(tree.child(false));
    }
    let ghost middle = (tree.key_bytes(), tree.value_bytes());
    let side = tree.child_height(true) >= tree.child_height(false);
    let ghost other_entries = link_inorder(tree.child(!side));
    let (rest, link) = tree.detach(side);
    let (_, other) = rest.detach(!side);
    let child = link.unwrap().into_tree().unwrap();
    let (edge, remaining) = remove_edge(child, !side);
    let bare = edge.attach(!side, other);
    let replaced = mend(bare, side, remaining);
    proof {
        assert forall|key: Seq<u8>| #[trigger]
            replaced.weight_at(key) == tree.weight_at(key) - weight_here(
                tree.feature(),
                tree.key_bytes(),
                key,
            ) by {
            lemma_sides_weight(tree, side, key);
            assert(link_weight_at(tree.child(side), key) == child.weight_at(key));
            assert(child.weight_at(key) == weight_here(edge.feature(), edge.key_bytes(), key)
                + grown_weight_at(remaining, key));
            assert(replaced.weight_at(key) == weight_here(bare.feature(), bare.key_bytes(), key)
                + grown_weight_at(remaining, key) + link_weight_at(bare.child(!side), key));
        }
        assert(link_inorder(tree.child(side)) == child.inorder());
        lemma_root_replaced(
            grown_inorder(remaining),
            (edge.key_bytes(), edge.value_bytes()),
            middle,
            other_entries,
            side,
        );
    }
    replaced
}

/// Takes the root out of a tree: what is left is nothing, the one child, or
/// the tree with the entry next to the root in place of the root.
fn remove_root(tree: Tree) -> (remaining: Option<Tree>)
    requires
        tree.shaped(),
        tree.hashed(),
        tree.height_value() <= 255,
    ensures
        grown_ok(remaining),
        grown_inorder(remaining) == tree.inorder().remove(
            link_inorder(tree.child(true)).len() as int,
        ),
        tree.tally() matches Some(total) ==> grown_tally(remaining) == Some(
            total - weight_of(tree.feature()),
        ),
        forall|key: Seq<u8>| #[trigger]
            grown_weight_at(remaining, key) == tree.weight_at(key) - weight_here(
                tree.feature(),
                tree.key_bytes(),
                key,
            ),
        grown_height(remaining) == tree.height_value() || grown_height(remaining) + 1
            == tree.height_value(),
        grown_pending(remaining) <= 4 * tree.height_value() + 1,
{
    let has_left = tree.link(true).is_some();
    let has_right = tree.link(false).is_some();
    if has_left && has_right {
        return Some(replace_root(tree));
    }
    proof {
        assert(link_shaped(tree.child(has_left)));
        assert(link_hashed(tree.child(has_left)));
    }
    let ghost before = tree.inorder();
    let ghost at = link_inorder(tree.child(true)).len() as int;
    proof {
        assert forall|key: Seq<u8>|
            tree.weight_at(key) == weight_here(tree.feature(), tree.key_bytes(), key)
                + #[trigger] link_weight_at(tree.child(has_left), key) by {
            lemma_sides_weight(tree, has_left, key);
        }
    }
    let (rest, first) = tree.detach(has_left);
    match first {
        None => {
            assert(before.remove(at) =~= Seq::<Entry>::empty());
            None
        },
        Some(l) => {
            proof {
                l.subtree().unwrap().lemma_hashed_is_consistent();
                assert(before.remove(at) =~= l.subtree().unwrap().inorder());
                assert forall|key: Seq<u8>|
                    l.subtree().unwrap().weight_at(key) == #[trigger] link_weight_at(
                        tree.child(has_left),
                        key,
                    ) by {}
            }
            l.into_tree()
        },
    }
}

/// Takes `key` out of the tree, if the tree holds it, and restores the
/// balance on the way up. Gives what is left of the tree: nothing where the
/// key was its only one. In a tree of summed nodes the sum of the weights
/// falls by the weight of the node that left.
#[verifier::rlimit(50)]
pub fn remove(tree: Tree, key: &[u8]) -> (remaining: Option<Tree>)
    requires
        tree.shaped(),
        tree.hashed(),
        tree.height_value() <= 255,
        sorted(tree.inorder()),
    ensures
        grown_ok(remaining),
        sorted(grown_inorder(remaining)),
        entry_map(grown_inorder(remaining)) == entry_map(tree.inorder()).remove(key@),
        short_keys(tree.inorder()) ==> short_keys(grown_inorder(remaining)),
        tree.tally() matches Some(total) ==> grown_tally(remaining) == Some(
            total - tree.weight_at(key@),
        ),
        forall|other: Seq<u8>| #[trigger]
            grown_weight_at(remaining, other) == if other == key@ {
                0
            } else {
                tree.weight_at(other)
            },
        grown_height(remaining) == tree.height_value() || grown_height(remaining) + 1
            == tree.height_value(),
        grown_pending(remaining) <= 4 * tree.height_value() + 1,
    decreases tree.height_value(),
{
    let ghost before = tree.inorder();
    let ghost left_entries = link_inorder(tree.child(true));
    let ghost right_entries = link_inorder(tree.child(false));
    let ghost middle = (tree.key_bytes(), tree.value_bytes());
    proof {
        tree.lemma_hashed_is_consistent();
        tree.lemma_weight_by_search(key@);
    }
    let left = match compare_keys(key, tree.key()) {
        KeyOrder::Same => {
            proof {
                let at = left_entries.len() as int;
                assert(before[at] == middle);
                lemma_remove_at(before, at);
            }
            return remove_root(tree);
        },
        KeyOrder::Before => true,
        KeyOrder::After => false,
    };
    proof {
        lemma_sorted_parts(left_entries, middle, right_entries);
        lemma_lookup_on_side(left_entries, middle, right_entries, key@, left);
        lemma_no_entries();
        assert(link_shaped(tree.child(left)));
        assert(link_hashed(tree.child(left)));
        assert(link_shaped(tree.child(!left)));
        assert(link_hashed(tree.child(!left)));
        crate::tree::lemma_link_hashed_is_consistent(tree.child(!left));
    }
    proof {
        lemma_sides_tally(tree, left);
        lemma_weight_on_side(tree, key@, left);
    }
    if tree.link(left).is_none() {
        proof {
            lemma_absent_key(before, key@);
        }
        return Some(tree);
    }
    let (rest, link) = tree.detach(left);
    let child = link.unwrap().into_tree().unwrap();
    proof {
        assert(link_tally(tree.child(left)) == child.tally());
        assert(link_weight_at(tree.child(left), key@) == child.weight_at(key@));
    }
    let shrunk = remove(child, key);
    proof {
        lemma_unset_on_side(left_entries, middle, right_entries, grown_inorder(shrunk), key@, left);
    }
    let mended = mend(rest, left, shrunk);
    proof {
        assert forall|other: Seq<u8>| #[trigger]
            grown_weight_at(Some(mended), other) == if other == key@ {
                0
            } else {
                tree.weight_at(other)
            } by {
            lemma_sides_weight(tree, left, other);
            assert(link_weight_at(tree.child(left), other) == child.weight_at(other));
            assert(grown_weight_at(shrunk, other) == if other == key@ {
                0
            } else {
                child.weight_at(other)
            });
            assert(mended.weight_at(other) == weight_here(
                tree.feature(),
                tree.key_bytes(),
                other,
            ) + grown_weight_at(shrunk, other) + link_weight_at(tree.child(!left), other));
        }
    }
    Some(mended)
}

} // verus!
