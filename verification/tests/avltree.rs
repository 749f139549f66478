use rust_trees::avltree::AvlTree;
use rust_trees::node::Node;

/// Number of levels below and including `node`; panics where the balance rule
/// is broken or a stored number of levels is wrong.
fn checked_levels(node: Option<&Node<u32, u32>>) -> u32 {
    match node {
        None => 0,
        Some(n) => {
            let l = checked_levels(n.left());
            let r = checked_levels(n.right());
            assert!(l <= r + 1 && r <= l + 1, "balance factor out of range at {}", n.key());
            let levels = 1 + l.max(r);
            assert_eq!(n.tag(), levels, "stored levels wrong at {}", n.key());
            levels
        }
    }
}

fn assert_avl(tree: &AvlTree<u32>) {
    checked_levels(tree.root());
    let keys = tree.inorder();
    for pair in keys.windows(2) {
        assert!(pair[0] < pair[1], "in-order keys {} and {} are out of order", pair[0], pair[1]);
    }
    assert_eq!(keys.len() as u32, tree.count());
}

fn scramble(state: &mut u32) -> u32 {
    *state = state.wrapping_mul(1664525).wrapping_add(1013904223);
    (*state >> 8) % 512
}

fn floor_log2(mut n: u32) -> u32 {
    let mut log = 0;
    while n > 1 {
        n /= 2;
        log += 1;
    }
    log
}

#[test]
fn avl_empty_tree() {
    let tree: AvlTree<u32> = AvlTree::new();
    assert!(tree.is_empty());
    assert_eq!(tree.count(), 0);
    assert!(tree.root().is_none());
    assert!(tree.min().is_none());
    assert!(tree.max().is_none());
    assert!(tree.search(3).is_none());
    assert_eq!(tree.height(), 0);
    assert_eq!(tree.leaves(), 0);
    assert_eq!(tree.inorder(), Vec::<u32>::new());
}

#[test]
fn avl_single_node() {
    let mut tree = AvlTree::new();
    assert!(tree.insert(5u32));
    assert_eq!(tree.height(), 0);
    assert_eq!(tree.leaves(), 1);
    assert_eq!(tree.count(), 1);
    assert_eq!(tree.root().unwrap().key(), 5);
    assert_eq!(tree.root().unwrap().tag(), 1);
}

#[test]
fn avl_left_left_rotation() {
    let mut tree = AvlTree::new();
    for key in [3u32, 2, 1] {
        tree.insert(key);
    }
    assert_eq!(tree.preorder(), vec![2, 1, 3]);
    assert_avl(&tree);
}

#[test]
fn avl_right_right_rotation() {
    let mut tree = AvlTree::new();
    for key in [1u32, 2, 3] {
        tree.insert(key);
    }
    assert_eq!(tree.preorder(), vec![2, 1, 3]);
    assert_avl(&tree);
}

#[test]
fn avl_left_right_rotation() {
    let mut tree = AvlTree::new();
    for key in [3u32, 1, 2] {
        tree.insert(key);
    }
    assert_eq!(tree.preorder(), vec![2, 1, 3]);
    assert_avl(&tree);
}

#[test]
fn avl_right_left_rotation() {
    let mut tree = AvlTree::new();
    for key in [1u32, 3, 2] {
        tree.insert(key);
    }
    assert_eq!(tree.preorder(), vec![2, 1, 3]);
    assert_avl(&tree);
}

#[test]
fn avl_scenario_stays_balanced_through_deletes() {
    let mut tree = AvlTree::new();
    for key in [13u32, 11, 53, 61, 21, 8, 9] {
        assert!(tree.insert(key));
        assert_avl(&tree);
    }
    assert_eq!(tree.preorder(), vec![13, 9, 8, 11, 53, 21, 61]);
    assert_eq!(tree.levelorder(), vec![13, 9, 53, 8, 11, 21, 61]);
    assert_eq!(tree.height(), 2);
    assert_eq!(tree.leaves(), 4);

    assert!(tree.delete(13));
    assert_avl(&tree);
    assert_eq!(tree.preorder(), vec![21, 9, 8, 11, 53, 61]);

    assert!(tree.delete(11));
    assert_avl(&tree);
    assert_eq!(tree.preorder(), vec![21, 9, 8, 53, 61]);

    assert!(tree.delete(53));
    assert_avl(&tree);
    assert_eq!(tree.preorder(), vec![21, 9, 8, 61]);

    assert!(tree.delete(61));
    assert_avl(&tree);
    assert_eq!(tree.preorder(), vec![9, 8, 21]);
    assert_eq!(tree.count(), 3);
    assert_eq!(tree.height(), 1);
}

#[test]
fn avl_invariants_hold_after_every_insert_and_delete() {
    let mut tree = AvlTree::new();
    let mut state = 3;
    for _ in 0..2000 {
        let key = scramble(&mut state);
        if scramble(&mut state) % 3 == 0 {
            tree.delete(key);
        } else {
            tree.insert(key);
        }
        assert_avl(&tree);
    }
}

#[test]
fn avl_matches_a_model_set() {
    let mut tree = AvlTree::new();
    let mut model = std::collections::BTreeSet::new();
    let mut state = 41;
    for _ in 0..3000 {
        let key = scramble(&mut state);
        if scramble(&mut state) % 2 == 0 {
            assert_eq!(tree.delete(key), model.remove(&key));
        } else {
            assert_eq!(tree.insert(key), model.insert(key));
        }
        assert_eq!(tree.count() as usize, model.len());
    }
    let expected: Vec<u32> = model.iter().copied().collect();
    assert_eq!(tree.inorder(), expected);
    for key in 0..512 {
        assert_eq!(tree.search(key).map(|n| n.key()), model.get(&key).copied());
    }
    assert_eq!(tree.min().map(|n| n.key()), model.iter().next().copied());
    assert_eq!(tree.max().map(|n| n.key()), model.iter().next_back().copied());
}

#[test]
fn avl_count_ignores_duplicates_and_missing_keys() {
    let mut tree = AvlTree::new();
    assert!(tree.insert(5u32));
    assert!(!tree.insert(5));
    assert_eq!(tree.count(), 1);
    assert!(!tree.delete(6));
    assert_eq!(tree.count(), 1);
    assert!(tree.delete(5));
    assert!(!tree.delete(5));
    assert_eq!(tree.count(), 0);
    assert!(tree.is_empty());
}

#[test]
fn avl_height_stays_logarithmic() {
    let mut tree = AvlTree::new();
    for key in 0..4096u32 {
        tree.insert(key);
        let levels = if tree.is_empty() { 0 } else { tree.height() + 1 };
        assert!(9 * (levels / 13) <= floor_log2(tree.count() + 1));
        let bound = 1.4405 * f64::from(tree.count() + 2).log2();
        assert!(f64::from(levels) <= bound, "{} levels over {}", levels, bound);
    }
    assert_eq!(tree.height(), 12);
    assert_avl(&tree);
}

#[test]
fn avl_min_max_and_search() {
    let mut tree = AvlTree::new();
    for key in [455u32, 32, 4, 9, 12, 1] {
        tree.insert(key);
    }
    assert_eq!(tree.min().unwrap().key(), 1);
    assert_eq!(tree.max().unwrap().key(), 455);
    assert_eq!(tree.search(9).unwrap().key(), 9);
    assert!(tree.search(10).is_none());
    assert_eq!(tree.inorder(), vec![1, 4, 9, 12, 32, 455]);
}

#[test]
fn avl_delete_rebalances_several_ancestors() {
    let mut tree = AvlTree::new();
    for key in [50u32, 25, 75, 12, 37, 62, 87, 6, 18, 31, 43, 56, 81, 93, 3, 9, 15, 28, 34, 40, 46, 95] {
        tree.insert(key);
    }
    assert_avl(&tree);
    for key in [56u32, 62, 81, 87] {
        assert!(tree.delete(key));
        assert_avl(&tree);
    }
}

#[test]
fn avl_string_keys() {
    let mut tree = AvlTree::new();
    for key in ["c", "b", "a"] {
        tree.insert(key);
    }
    assert_eq!(tree.preorder(), vec!["b", "a", "c"]);
    assert_eq!(tree.leaves(), 2);
}

#[test]
fn avl_clone_is_an_independent_copy() {
    let mut tree = AvlTree::new();
    for key in [15u32, 11, 19, 8, 13] {
        tree.insert(key);
    }
    let mut copy = tree.clone();
    assert_eq!(copy.preorder(), tree.preorder());
    assert_eq!(copy.count(), tree.count());
    assert_avl(&copy);
    copy.delete(11);
    copy.insert(100);
    assert_eq!(tree.inorder(), vec![8, 11, 13, 15, 19]);
    assert_eq!(copy.inorder(), vec![8, 13, 15, 19, 100]);
}

#[test]
fn avl_handles_large_inputs() {
    let mut tree = AvlTree::new();
    for key in 0..130_000u32 {
        tree.insert(key);
    }
    assert_eq!(tree.count(), 130_000);
    for key in 0..13_000u32 {
        assert_eq!(tree.search(key).unwrap().key(), key);
    }
    assert_eq!(tree.height(), 16);
    assert_eq!(tree.leaves(), 65_000);
    assert_eq!(tree.inorder().len(), 130_000);
}

#[test]
fn avl_traversals_of_a_known_tree() {
    let mut tree = AvlTree::new();
    for key in [13u32, 11, 53, 61, 21, 8, 9] {
        tree.insert(key);
    }
    assert_eq!(tree.inorder(), vec![8, 9, 11, 13, 21, 53, 61]);
    assert_eq!(tree.preorder(), vec![13, 9, 8, 11, 53, 21, 61]);
    assert_eq!(tree.levelorder(), vec![13, 9, 53, 8, 11, 21, 61]);
    assert_eq!(tree.root().unwrap().tag(), 3);
}
