use logos::tree::avl::AVLTree;
use logos::tree::Error;

fn insert_node(tree: &mut AVLTree, value: u32) {
    tree.insert(value).expect("unable to insert node");
}

#[test]
fn avl_insert_nodes() {
    let mut tree = AVLTree::new();
    assert_eq!(0, tree.size());

    insert_node(&mut tree, 1);
    assert_eq!(1, tree.size());

    insert_node(&mut tree, 2);
    assert_eq!(2, tree.size());
}

#[test]
fn avl_contains() {
    let mut tree = AVLTree::new();
    let values = [2, 1, 3, 4];

    for v in values {
        insert_node(&mut tree, v);
    }

    for v in values {
        assert!(tree.contains(&v));
    }

    assert!(!tree.contains(&0));
    assert!(!tree.contains(&5));
}

#[test]
fn avl_height() {
    let mut tree = AVLTree::new();

    insert_node(&mut tree, 2);
    assert_eq!(0, tree.height());
    insert_node(&mut tree, 1);
    assert_eq!(1, tree.height());
    insert_node(&mut tree, 3);
    assert_eq!(1, tree.height());
    insert_node(&mut tree, 4);
    assert_eq!(2, tree.height());
}

#[test]
fn balance() {
    let mut tree = AVLTree::new();

    // Each insertion leaves every node balanced.
    let insertions = [
        3, 4, 5, // Right Heavy
        2, 1, // Left Heavy
        7, 6, // Right Heavy (Left-Right rotation)
    ];

    for i in insertions {
        insert_node(&mut tree, i);
        assert!(tree.is_balanced());
    }

    let nodes: Vec<u32> = tree.level_iter();
    assert_eq!(vec![4, 2, 6, 1, 3, 5, 7], nodes);
}

#[test]
fn rotate() {
    let mut tree = AVLTree::new();

    insert_node(&mut tree, 1);
    insert_node(&mut tree, 2);
    insert_node(&mut tree, 3);

    assert_eq!(3, tree.size());
    assert_eq!(1, tree.height());

    let mut level_iter = tree.level_iter().into_iter();
    assert_eq!(Some(2), level_iter.next());
    assert_eq!(Some(1), level_iter.next());
    assert_eq!(Some(3), level_iter.next());
    assert_eq!(None, level_iter.next());
}

#[test]
fn avl_duplicate_is_refused() {
    let mut tree = AVLTree::new();
    insert_node(&mut tree, 8);
    insert_node(&mut tree, 3);
    assert_eq!(Err(Error::InsertionError), tree.insert(8));
    assert_eq!(2, tree.size());
    assert_eq!(vec![3, 8], tree.iter());
}

#[test]
fn avl_ascending_inserts_stay_balanced() {
    let mut tree = AVLTree::new();
    for i in 0..100u32 {
        insert_node(&mut tree, i);
        assert!(tree.is_balanced());
    }
    assert_eq!(6, tree.height());
    assert_eq!((0..100).collect::<Vec<u32>>(), tree.iter());
}

#[test]
fn avl_right_left_case() {
    let mut tree = AVLTree::new();
    for i in [10, 30, 20] {
        insert_node(&mut tree, i);
    }
    assert_eq!(vec![20, 10, 30], tree.level_iter());
    let mut tree = AVLTree::new();
    for i in [30, 10, 20] {
        insert_node(&mut tree, i);
    }
    assert_eq!(vec![20, 10, 30], tree.level_iter());
}
