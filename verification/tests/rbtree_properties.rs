use rust_trees::node::Node;
use rust_trees::rbtree::NodeColor;
use rust_trees::rbtree::RBTree;

fn is_red(node: Option<&Node<u32, NodeColor>>) -> bool {
    match node {
        Some(n) => n.color() == NodeColor::Red,
        None => false,
    }
}

/// Black height of the subtree; panics where the colour rules are broken.
fn black_height(node: Option<&Node<u32, NodeColor>>) -> u32 {
    match node {
        None => 0,
        Some(n) => {
            if n.color() == NodeColor::Red {
                assert!(!is_red(n.left()), "red node {} has a red left child", n.key());
                assert!(!is_red(n.right()), "red node {} has a red right child", n.key());
            }
            let l = black_height(n.left());
            let r = black_height(n.right());
            assert_eq!(l, r, "black heights differ below {}", n.key());
            l + if n.color() == NodeColor::Black { 1 } else { 0 }
        }
    }
}

fn assert_red_black(tree: &RBTree<u32>) {
    assert!(!is_red(tree.root()), "the root is red");
    black_height(tree.root());
    let keys = tree.inorder();
    for pair in keys.windows(2) {
        assert!(pair[0] < pair[1], "in-order keys {} and {} are out of order", pair[0], pair[1]);
    }
    assert_eq!(keys.len() as u32, tree.count());
}

/// A fixed pseudo-random sequence.
fn scramble(state: &mut u32) -> u32 {
    *state = state.wrapping_mul(1664525).wrapping_add(1013904223);
    (*state >> 8) % 512
}

fn floor_log2(mut n: u32) -> u32 {
    let mut log = 0;
    while n > 1 {
        n /= 2;
        log += 1;
    }
    log
}

#[test]
fn rb_invariants_hold_after_every_insert_and_delete() {
    let mut tree = RBTree::new();
    let mut state = 7;
    for _ in 0..2000 {
        let key = scramble(&mut state);
        if scramble(&mut state) % 3 == 0 {
            tree.delete(key);
        } else {
            tree.insert(key);
        }
        assert_red_black(&tree);
    }
}

#[test]
fn rb_matches_a_model_set() {
    let mut tree = RBTree::new();
    let mut model = std::collections::BTreeSet::new();
    let mut state = 99;
    for _ in 0..3000 {
        let key = scramble(&mut state);
        if scramble(&mut state) % 2 == 0 {
            assert_eq!(tree.delete(key), model.remove(&key));
        } else {
            assert_eq!(tree.insert(key), model.insert(key));
        }
        assert_eq!(tree.count() as usize, model.len());
    }
    let expected: Vec<u32> = model.iter().copied().collect();
    assert_eq!(tree.inorder(), expected);
    for key in 0..512 {
        assert_eq!(tree.search(key).map(|n| n.key()), model.get(&key).copied());
    }
    assert_eq!(tree.min().map(|n| n.key()), model.iter().next().copied());
    assert_eq!(tree.max().map(|n| n.key()), model.iter().next_back().copied());
}

#[test]
fn rb_count_ignores_duplicates_and_missing_keys() {
    let mut tree = RBTree::new();
    assert!(tree.insert(5u32));
    assert!(tree.insert(3));
    assert!(!tree.insert(5));
    assert_eq!(tree.count(), 2);
    assert!(!tree.delete(9));
    assert_eq!(tree.count(), 2);
    assert!(tree.delete(5));
    assert_eq!(tree.count(), 1);
    assert!(!tree.delete(5));
    assert_eq!(tree.count(), 1);
    assert!(tree.delete(3));
    assert_eq!(tree.count(), 0);
    assert!(tree.is_empty());
}

#[test]
fn rb_duplicate_insert_keeps_the_tree() {
    let mut tree = RBTree::new();
    for key in [15u32, 11, 19, 8, 13, 16, 23, 12, 14] {
        tree.insert(key);
    }
    let before = (tree.preorder(), tree.height(), tree.leaves());
    assert!(!tree.insert(13));
    assert!(!tree.delete(100));
    assert_eq!((tree.preorder(), tree.height(), tree.leaves()), before);
    assert_red_black(&tree);
}

#[test]
fn rb_search_round_trip() {
    let mut tree = RBTree::new();
    for key in [40u32, 10, 30, 20, 50] {
        tree.insert(key);
    }
    for key in [40u32, 10, 30, 20, 50] {
        assert_eq!(tree.search(key).unwrap().key(), key);
    }
    assert!(tree.search(25).is_none());
    tree.delete(30);
    assert!(tree.search(30).is_none());
    assert_eq!(tree.search(20).unwrap().key(), 20);
}

#[test]
fn rb_empty_tree() {
    let tree: RBTree<u32> = RBTree::new();
    assert!(tree.is_empty());
    assert_eq!(tree.count(), 0);
    assert!(tree.root().is_none());
    assert!(tree.min().is_none());
    assert!(tree.max().is_none());
    assert!(tree.search(1).is_none());
    assert_eq!(tree.height(), 0);
    assert_eq!(tree.leaves(), 0);
    assert_eq!(tree.inorder(), Vec::<u32>::new());
    assert_eq!(tree.preorder(), Vec::<u32>::new());
    assert_eq!(tree.levelorder(), Vec::<u32>::new());
}

#[test]
fn rb_delete_from_empty_tree() {
    let mut tree: RBTree<u32> = RBTree::new();
    assert!(!tree.delete(1));
    assert!(tree.is_empty());
    assert_eq!(tree.count(), 0);
}

#[test]
fn rb_single_node() {
    let mut tree = RBTree::new();
    tree.insert(7u32);
    assert!(!tree.is_empty());
    assert_eq!(tree.height(), 0);
    assert_eq!(tree.leaves(), 1);
    assert_eq!(tree.root().unwrap().color(), NodeColor::Black);
    assert_eq!(tree.min().unwrap().key(), 7);
    assert_eq!(tree.max().unwrap().key(), 7);
    assert!(tree.delete(7));
    assert!(tree.is_empty());
    assert!(tree.root().is_none());
}

#[test]
fn rb_height_counts_edges() {
    let mut tree = RBTree::new();
    tree.insert(2u32);
    tree.insert(1);
    assert_eq!(tree.height(), 1);
    tree.insert(3);
    assert_eq!(tree.height(), 1);
    tree.insert(4);
    assert_eq!(tree.height(), 2);
}

#[test]
fn rb_traversals_of_a_known_tree() {
    let mut tree = RBTree::new();
    for key in [15u32, 11, 19, 8, 13, 16, 23, 12, 14] {
        tree.insert(key);
    }
    assert_eq!(tree.inorder(), vec![8, 11, 12, 13, 14, 15, 16, 19, 23]);
    assert_eq!(tree.preorder(), vec![15, 11, 8, 13, 12, 14, 19, 16, 23]);
    assert_eq!(tree.levelorder(), vec![15, 11, 19, 8, 13, 16, 23, 12, 14]);
    assert_eq!(tree.height(), 3);
    assert_eq!(tree.leaves(), 5);
    assert_eq!(tree.count(), 9);
}

#[test]
fn rb_successor_takes_the_place_of_a_deleted_node() {
    let mut tree = RBTree::new();
    for key in [15u32, 11, 19, 8, 13, 16, 23, 12, 14] {
        tree.insert(key);
    }
    assert!(tree.delete(13));
    let slot = tree.root().unwrap().left().unwrap().right().unwrap();
    assert_eq!(slot.key(), 14);
    assert_eq!(slot.color(), NodeColor::Black);
    assert_eq!(slot.left().unwrap().key(), 12);
    assert!(slot.right().is_none());
    assert_red_black(&tree);
}

#[test]
fn rb_height_stays_logarithmic() {
    let mut tree = RBTree::new();
    for key in 0..4096u32 {
        tree.insert(key);
        let bound = 2 * floor_log2(tree.count() + 1);
        assert!(tree.height() <= bound, "height {} over {}", tree.height(), bound);
        assert!(f64::from(tree.height()) <= 2.0 * f64::from(tree.count() + 1).log2());
    }
    for key in 0..4000u32 {
        tree.delete(key);
        let bound = 2 * floor_log2(tree.count() + 1);
        assert!(tree.height() <= bound, "height {} over {}", tree.height(), bound);
    }
    assert_red_black(&tree);
}

#[test]
fn rb_delete_with_a_red_sibling() {
    let mut tree = RBTree::new();
    for key in [10u32, 5, 20, 15, 30, 25, 40, 35] {
        tree.insert(key);
    }
    assert!(tree.delete(5));
    assert_red_black(&tree);
    assert_eq!(tree.inorder(), vec![10, 15, 20, 25, 30, 35, 40]);
}

#[test]
fn rb_delete_every_key_in_turn() {
    for gone in 1..=15u32 {
        let mut tree = RBTree::new();
        for key in 1..=15u32 {
            tree.insert(key);
        }
        assert!(tree.delete(gone));
        assert_red_black(&tree);
        let expected: Vec<u32> = (1..=15).filter(|k| *k != gone).collect();
        assert_eq!(tree.inorder(), expected);
    }
}

#[test]
fn rb_new_node_is_a_red_leaf() {
    let node = Node::<u32, NodeColor>::new(4).unwrap();
    assert_eq!(node.key(), 4);
    assert_eq!(node.color(), NodeColor::Red);
    assert!(node.left().is_none());
    assert!(node.right().is_none());
}

#[test]
fn rb_clone_is_an_independent_copy() {
    let mut tree = RBTree::new();
    for key in [15u32, 11, 19, 8, 13] {
        tree.insert(key);
    }
    let mut copy = tree.clone();
    assert_eq!(copy.preorder(), tree.preorder());
    assert_eq!(copy.count(), tree.count());
    assert_red_black(&copy);
    copy.delete(11);
    copy.insert(100);
    assert_eq!(tree.inorder(), vec![8, 11, 13, 15, 19]);
    assert_eq!(copy.inorder(), vec![8, 13, 15, 19, 100]);
}

#[test]
fn rb_handles_large_inputs() {
    let mut tree = RBTree::new();
    for key in 0..130_000u32 {
        tree.insert(key);
    }
    assert_eq!(tree.count(), 130_000);
    for key in 0..13_000u32 {
        assert_eq!(tree.search(key).unwrap().key(), key);
    }
    assert!(tree.height() <= 2 * floor_log2(tree.count() + 1));
    assert_eq!(tree.inorder().len(), 130_000);
    assert_eq!(tree.levelorder().len(), 130_000);
    assert_eq!(tree.min().unwrap().key(), 0);
    assert_eq!(tree.max().unwrap().key(), 129_999);
}
