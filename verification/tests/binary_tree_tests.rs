use lilypads::BinaryTree;

#[test]
fn binary_tree_write() {
    let mut tree = BinaryTree::new();
    tree.resize(7);

    // Does setting work correctly
    tree.set_leaf(1, true);
    assert_eq!(tree.is_full(1).unwrap(), true);

    // Make sure setting and unsetting work
    tree.set_leaf(3, true);
    assert_eq!(tree.is_full(3).unwrap(), true);
    tree.set_leaf(3, false);
    assert_eq!(tree.is_full(3).unwrap(), false);

    // Do we correctly catch sets outside of bounds
    assert_eq!(tree.set_leaf(7, false), None);
}

// We have to verify the paths were built correctly by descending, since normal reads are O(1)
#[test]
fn paths() {
    let mut tree = BinaryTree::new();
    tree.resize(8);

    tree.set_leaf(0, true);
    tree.set_leaf(1, true);
    tree.set_leaf(6, true);

    assert_eq!(tree.find_first_free().unwrap(), 2);
    assert_eq!(tree.find_leaf(true, true).unwrap(), 0);
    assert_eq!(tree.find_last_full().unwrap(), 6);
}

#[test]
fn resize() {
    let mut tree = BinaryTree::new();
    tree.resize(8);

    // Test resizing
    tree.set_leaf(6, true);
    tree.set_leaf(2, true);
    // Ensure we also crop the old root head
    tree.resize(3);
    assert_eq!(tree.is_full(2).unwrap(), true);
    tree.resize(8);
    assert_eq!(tree.is_full(6).unwrap(), false); // The 6 was reset as it's out of bounds
    assert_eq!(tree.is_full(2).unwrap(), true); // The 2 wasn't because it remained in bounds
    assert_eq!(tree.find_leaf(true, true).unwrap(), 2);
    assert_eq!(tree.find_last_full().unwrap(), 2);
}

#[test]
fn resize_to_zero_and_back() {
    let mut tree = BinaryTree::new();
    tree.resize(5);
    tree.set_leaf(3, true);
    tree.resize(0);
    assert_eq!(tree.is_full(0), None);
    assert_eq!(tree.find_first_free(), None);
    tree.resize(4);
    // Everything reads free after the tree was emptied
    assert_eq!(tree.find_last_full(), None);
    assert_eq!(tree.find_first_free(), Some(0));
}

#[test]
fn empty_tree_queries() {
    let tree = BinaryTree::new();
    assert_eq!(tree.find_first_free(), None);
    assert_eq!(tree.find_last_full(), None);
    assert_eq!(tree.is_full(0), None);
}

#[test]
fn last_occupied_tracks_highest() {
    let mut tree = BinaryTree::new();
    tree.resize(16);
    tree.set_leaf(2, true);
    tree.set_leaf(9, true);
    tree.set_leaf(15, true);
    assert_eq!(tree.find_last_full(), Some(15));
    tree.set_leaf(15, false);
    assert_eq!(tree.find_last_full(), Some(9));
    tree.set_leaf(9, false);
    assert_eq!(tree.find_last_full(), Some(2));
    tree.set_leaf(2, false);
    assert_eq!(tree.find_last_full(), None);
}

#[test]
fn first_free_when_all_full() {
    let mut tree = BinaryTree::new();
    tree.resize(4);
    for i in 0..4 {
        tree.set_leaf(i, true);
    }
    assert_eq!(tree.find_first_free(), None);
    tree.set_leaf(2, false);
    assert_eq!(tree.find_first_free(), Some(2));
}
