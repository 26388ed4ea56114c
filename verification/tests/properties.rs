use binarysearchtree::{str_leq, BinarySearchTree, Node};

/// Draining the tree by repeatedly taking and deleting the minimum observes
/// the in-order key sequence: it must come out non-decreasing, duplicates
/// included.
#[test]
fn inorder_is_sorted() {
    let mut tree = BinarySearchTree::new();
    for k in [5, 3, 44, 5, 1] {
        tree.insert(k);
    }

    let mut drained = Vec::new();
    loop {
        let m = match tree.min() {
            Some(&m) => m,
            None => break,
        };
        drained.push(m);
        tree.delete(&m);
    }

    assert_eq!(drained, vec![1, 3, 5, 5, 44]);
}

/// Every key inserted and not yet deleted is reported present, and `get`
/// hands back a key equal to it.
#[test]
fn inserted_keys_round_trip() {
    let mut tree = BinarySearchTree::new();
    let keys = [8, 2, 100, 55, 3];
    for k in keys {
        tree.insert(k);
    }

    for k in keys {
        assert!(tree.contains(&k));
        assert_eq!(tree.get(&k), Some(&k));
    }
}

/// Inserting {3, 44, 5} and deleting each empties the tree; deleting a key
/// that is not present changes nothing.
#[test]
fn deletion_empties_and_misses_are_noops() {
    let mut tree = BinarySearchTree::new();
    tree.insert(3);
    tree.insert(44);
    tree.insert(5);

    tree.delete(&99);
    assert!(tree.contains(&3));
    assert!(tree.contains(&44));
    assert!(tree.contains(&5));
    assert!(!tree.contains(&99));

    tree.delete(&3);
    tree.delete(&44);
    tree.delete(&5);

    assert!(tree.min().is_none());
    assert!(tree.max().is_none());
}

/// Deleting the same key twice is safe; once the only occurrence is gone,
/// the second call is a no-op.
#[test]
fn delete_twice_is_safe() {
    let mut tree = BinarySearchTree::new();
    tree.insert(3);
    tree.insert(44);
    tree.insert(5);

    tree.delete(&5);
    tree.delete(&5);

    assert!(tree.contains(&3));
    assert!(tree.contains(&44));
    assert!(!tree.contains(&5));
    assert_eq!(tree.min(), Some(&3));
    assert_eq!(tree.max(), Some(&44));
}

/// Duplicate keys are kept, not rejected: each deletion removes exactly one
/// occurrence.
#[test]
fn duplicate_keys_accumulate() {
    let mut tree = BinarySearchTree::new();
    tree.insert(5);
    tree.insert(5);
    tree.insert(3);

    tree.delete(&5);
    assert!(tree.contains(&5));
    tree.delete(&5);
    assert!(!tree.contains(&5));
    assert!(tree.contains(&3));
}

/// A deep unbalanced tree is built and dropped without manual cleanup: every
/// node is owned by exactly one child edge, so teardown frees each exactly
/// once.
#[test]
fn builds_and_drops_degenerate_tree() {
    let mut tree = BinarySearchTree::new();
    for k in 0..512u64 {
        tree.insert(k);
    }
    assert_eq!(tree.min(), Some(&0));
    assert_eq!(tree.max(), Some(&511));
}

/// The lexicographic order on strings: the first differing code point
/// decides, and a prefix comes before its extensions.
#[test]
fn string_order_is_lexicographic() {
    assert!(str_leq("abc", "abd"));
    assert!(!str_leq("abd", "abc"));
    assert!(str_leq("ab", "abc"));
    assert!(!str_leq("abc", "ab"));
    assert!(str_leq("", "a"));
    assert!(str_leq("Hello", "Hello"));
    // 'z' is U+007A, 'é' is U+00E9: code-point order, not alphabetical.
    assert!(str_leq("z", "é"));
    assert!(!str_leq("é", "z"));
}

/// String keys order the tree the same way: min and max follow the
/// lexicographic order.
#[test]
fn string_keys_order_the_tree() {
    let mut tree = BinarySearchTree::new();
    tree.insert(String::from("pear"));
    tree.insert(String::from("apple"));
    tree.insert(String::from("quince"));

    assert_eq!(tree.min().unwrap(), "apple");
    assert_eq!(tree.max().unwrap(), "quince");

    tree.delete("apple");
    assert_eq!(tree.min().unwrap(), "pear");
}

/// A detached node holds the key it was built with.
#[test]
fn node_holds_its_item() {
    let node = Node::new(7);
    assert_eq!(*node.item(), 7);
}

/// A tree built through `Default` starts empty.
#[test]
fn default_tree_is_empty() {
    let tree: BinarySearchTree<i32> = BinarySearchTree::default();
    assert!(tree.min().is_none());
    assert!(!tree.contains(&0));
}
