use logos::tree::bst::BinarySearchTree;
use logos::tree::Error;

fn insert_node(tree: &mut BinarySearchTree, item: u32) {
    tree.insert(item).expect("unable to insert node");
}

#[test]
fn bst_insert_nodes() {
    let mut tree = BinarySearchTree::new();
    assert_eq!(0, tree.size());

    insert_node(&mut tree, 1);
    assert_eq!(1, tree.size());

    insert_node(&mut tree, 2);
    assert_eq!(2, tree.size());
}

#[test]
fn bst_contains() {
    let mut tree = BinarySearchTree::new();
    let values = [2, 1, 3, 4];

    for v in values {
        insert_node(&mut tree, v);
    }

    for v in values {
        assert!(tree.contains(&v));
    }

    assert!(!tree.contains(&0));
    assert!(!tree.contains(&5));
}

#[test]
fn bst_height() {
    let mut tree = BinarySearchTree::new();

    insert_node(&mut tree, 2);
    assert_eq!(0, tree.height());
    insert_node(&mut tree, 1);
    assert_eq!(1, tree.height());
    insert_node(&mut tree, 3);
    assert_eq!(1, tree.height());
    insert_node(&mut tree, 4);
    assert_eq!(2, tree.height());
}

#[test]
fn iterator() {
    let mut tree = BinarySearchTree::new();
    let insertions = [3, 4, 5, 2, 1, 7, 6];

    for i in insertions {
        insert_node(&mut tree, i);
    }

    let nodes: Vec<u32> = tree.iter();
    assert_eq!(vec![1, 2, 3, 4, 5, 6, 7], nodes);
}

#[test]
fn into_iterator() {
    let mut tree = BinarySearchTree::new();
    let insertions = [3, 4, 5, 2, 1, 7, 6];

    for i in insertions {
        insert_node(&mut tree, i);
    }

    let nodes: Vec<u32> = tree.into_iter();
    assert_eq!(vec![1, 2, 3, 4, 5, 6, 7], nodes);
}

#[test]
fn level_iterator() {
    let mut tree = BinarySearchTree::new();

    insert_node(&mut tree, 2);
    insert_node(&mut tree, 3);
    insert_node(&mut tree, 1);

    let mut level_iter = tree.level_iter().into_iter();
    assert_eq!(Some(2), level_iter.next());
    assert_eq!(Some(1), level_iter.next());
    assert_eq!(Some(3), level_iter.next());
    assert_eq!(None, level_iter.next());
    assert_eq!(None, level_iter.next());
}

#[test]
fn bst_duplicate_is_refused() {
    let mut tree = BinarySearchTree::new();
    insert_node(&mut tree, 5);
    assert_eq!(Err(Error::InsertionError), tree.insert(5));
    assert_eq!(1, tree.size());
}

#[test]
fn bst_unbalanced_chain() {
    let mut tree = BinarySearchTree::new();
    for i in 1..=5u32 {
        insert_node(&mut tree, i);
    }
    assert_eq!(4, tree.height());
    assert_eq!(vec![1, 2, 3, 4, 5], tree.level_iter());
    let empty = BinarySearchTree::new();
    assert_eq!(0, empty.height());
    assert!(empty.iter().is_empty());
}
