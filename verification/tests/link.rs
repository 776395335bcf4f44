use grovedb::hash::NULL_HASH;
use grovedb::link::Link;
use grovedb::tree::Tree;
use grovedb::tree::TreeFeatureType::BasicMerk;

#[test]
fn from_modified_tree() {
    let tree = Tree::new(vec![0], vec![1], BasicMerk).unwrap();
    let link = Link::from_modified_tree(tree);
    assert!(link.is_modified());
    assert_eq!(link.height(), 1);
    assert_eq!(link.tree().expect("expected tree").key(), &[0]);
    if let Link::Modified { pending_writes, .. } = link {
        assert_eq!(pending_writes, 1);
    } else {
        panic!("Expected Link::Modified");
    }
}

#[test]
fn maybe_from_modified_tree() {
    let link = Link::maybe_from_modified_tree(None);
    assert!(link.is_none());

    let tree = Tree::new(vec![0], vec![1], BasicMerk).unwrap();
    let link = Link::maybe_from_modified_tree(Some(tree));
    assert!(link.expect("expected link").is_modified());
}

#[test]
fn types() {
    let hash = NULL_HASH;
    let sum = None;
    let child_heights = (0, 0);
    let pending_writes = 1;
    let key = vec![0];
    let tree = || Tree::new(vec![0], vec![1], BasicMerk).unwrap();

    let reference = Link::Reference {
        hash,
        sum,
        child_heights,
        key,
    };
    let modified = Link::Modified {
        pending_writes,
        child_heights,
        tree: tree(),
    };
    let uncommitted = Link::Uncommitted {
        hash,
        sum,
        child_heights,
        tree: tree(),
    };
    let loaded = Link::Loaded {
        hash,
        sum,
        child_heights,
        tree: tree(),
    };

    assert!(reference.is_reference());
    assert!(!reference.is_modified());
    assert!(!reference.is_uncommitted());
    assert!(!reference.is_stored());
    assert!(reference.tree().is_none());
    assert_eq!(reference.hash(), &[0; 32]);
    assert_eq!(reference.height(), 1);
    assert!(reference.into_reference().is_reference());

    assert!(!modified.is_reference());
    assert!(modified.is_modified());
    assert!(!modified.is_uncommitted());
    assert!(!modified.is_stored());
    assert!(modified.tree().is_some());
    assert_eq!(modified.height(), 1);

    assert!(!uncommitted.is_reference());
    assert!(!uncommitted.is_modified());
    assert!(uncommitted.is_uncommitted());
    assert!(!uncommitted.is_stored());
    assert!(uncommitted.tree().is_some());
    assert_eq!(uncommitted.hash(), &[0; 32]);
    assert_eq!(uncommitted.height(), 1);

    assert!(!loaded.is_reference());
    assert!(!loaded.is_modified());
    assert!(!loaded.is_uncommitted());
    assert!(loaded.is_stored());
    assert!(loaded.tree().is_some());
    assert_eq!(loaded.hash(), &[0; 32]);
    assert_eq!(loaded.height(), 1);
    assert!(loaded.into_reference().is_reference());
}

#[test]
fn clone_copies_the_subtree() {
    let tree = Tree::new(vec![0], vec![1], BasicMerk).unwrap();
    let inner = Link::from_modified_tree(tree);
    let parent = Tree::new(vec![5], vec![6], BasicMerk)
        .unwrap()
        .attach(true, Some(inner));
    let link = Link::Loaded {
        hash: [3; 32],
        child_heights: (1, 0),
        tree: parent,
        sum: Some(9),
    };
    let copy = link.clone();
    assert_eq!(copy, link);
    assert_eq!(copy.tree().unwrap().link(true).unwrap().key(), &[0]);
    let reference = link.into_reference();
    assert_eq!(reference.clone(), reference);
    assert_ne!(reference, copy);
}
