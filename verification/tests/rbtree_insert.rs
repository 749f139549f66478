use rust_trees::rbtree::NodeColor;
use rust_trees::rbtree::RBTree;

#[test]
fn create_empty_rbtree() {
    let rbtree: RBTree<u32> = RBTree::new();
    assert!(rbtree.root().is_none());
}

#[test]
fn insert_into_rbtree_1() {
    let mut x = RBTree::new();
    assert_eq!(0,x.count());
    x.insert(3);
    assert_eq!(x.root().unwrap().key(), 3);
    assert_eq!(x.count(),1);
    x.insert(2);
    assert_eq!(x.root().unwrap().left().unwrap().key(), 2);
    assert_eq!(x.count(), 2);
}

#[test]
fn insert_into_rbtree_2() {
    let mut x = RBTree::new();
    assert_eq!(0,x.count());
    x.insert(3);
    assert_eq!(x.root().unwrap().key(), 3);
    assert_eq!(x.count(),1);
    x.insert(2);
    assert_eq!(x.root().unwrap().left().unwrap().key(), 2);
    assert_eq!(x.count(), 2);
    x.insert(1);
    assert_eq!(x.root().unwrap().key(),2);
    assert_eq!(x.root().unwrap().left().unwrap().key(),1);
    assert_eq!(x.root().unwrap().right().unwrap().key(),3);
    assert_eq!(x.count(), 3);
}

#[test]
fn insert_into_rbtree_3() {
    let mut x = RBTree::new();
    assert_eq!(0,x.count());
    x.insert(4);
    assert_eq!(x.root().unwrap().key(), 4);
    assert_eq!(x.count(),1);
    x.insert(2);
    assert_eq!(x.root().unwrap().left().unwrap().key(), 2);
    assert_eq!(x.count(), 2);
    x.insert(3);
    assert_eq!(x.root().unwrap().key(),3);
    assert_eq!(x.root().unwrap().left().unwrap().key(),2);
    assert_eq!(x.root().unwrap().right().unwrap().key(),4);
    assert_eq!(x.count(), 3);
}

#[test]
fn insert_into_rbtree_4() {
    let mut x = RBTree::new();
    assert_eq!(0,x.count());
    x.insert(4);
    assert_eq!(x.root().unwrap().key(), 4);
    assert_eq!(x.count(),1);
    x.insert(5);
    assert_eq!(x.root().unwrap().right().unwrap().key(), 5);
    assert_eq!(x.count(), 2);
    x.insert(6);
    assert_eq!(x.root().unwrap().key(),5);
    assert_eq!(x.root().unwrap().left().unwrap().key(),4);
    assert_eq!(x.root().unwrap().right().unwrap().key(),6);
    assert_eq!(x.count(), 3);
}

#[test]
fn insert_into_rbtree_5() {
    let mut x = RBTree::new();
    assert_eq!(0,x.count());
    x.insert(4);
    assert_eq!(x.root().unwrap().key(), 4);
    assert_eq!(x.count(),1);
    x.insert(6);
    assert_eq!(x.root().unwrap().right().unwrap().key(), 6);
    assert_eq!(x.count(), 2);
    x.insert(5);
    assert_eq!(x.root().unwrap().key(),5);
    assert_eq!(x.root().unwrap().left().unwrap().key(),4);
    assert_eq!(x.root().unwrap().right().unwrap().key(),6);
    assert_eq!(x.count(), 3);
}

#[test]
fn is_empty_1() {
    let x: RBTree<u32> = RBTree::new();
    assert!(x.is_empty());
}

#[test]
fn search_1() {
    let mut x = RBTree::new();
    x.insert(9);
    x.insert(8);
    x.insert(12);
    x.insert(3);

    let y = x.search(8);
    assert_eq!(8,y.unwrap().key());
    let z = x.search(81);
    assert!(z.is_none());
}

#[test]
fn insert_test_1() {
    let mut x = RBTree::new();
    x.insert(15);
    x.insert(11);
    x.insert(19);
    x.insert(8);
    x.insert(13);
    x.insert(16);
    x.insert(23);
    x.insert(12);
    x.insert(14);
    assert_eq!(x.root().unwrap().key(),15);
    assert_eq!(x.root().unwrap().color(),NodeColor::Black);

    let x_right = x.root().unwrap().right();
    assert_eq!(x_right.unwrap().key(),19);
    assert_eq!(x_right.unwrap().color(),NodeColor::Black);

    let x_left = x.root().unwrap().left();
    assert_eq!(x_left.unwrap().key(),11);
    assert_eq!(x_left.unwrap().color(),NodeColor::Red);

    let x_right_right = x_right.unwrap().right();
    assert_eq!(x_right_right.unwrap().key(),23);
    assert_eq!(x_right_right.unwrap().color(),NodeColor::Red);

    let x_right_left = x_right.unwrap().left();
    assert_eq!(x_right_left.unwrap().key(),16);
    assert_eq!(x_right_left.unwrap().color(),NodeColor::Red);

    let x_left_left = x_left.unwrap().left();
    assert_eq!(x_left_left.unwrap().key(),8);
    assert_eq!(x_left_left.unwrap().color(),NodeColor::Black);

    let x_left_right = x_left.unwrap().right();
    assert_eq!(x_left_right.unwrap().key(),13);
    assert_eq!(x_left_right.unwrap().color(),NodeColor::Black);

    let x_left_right_right = x_left_right.unwrap().right();
    assert_eq!(x_left_right_right.unwrap().key(),14);
    assert_eq!(x_left_right_right.unwrap().color(),NodeColor::Red);

    let x_left_right_left = x_left_right.unwrap().left();
    assert_eq!(x_left_right_left.unwrap().key(),12);
    assert_eq!(x_left_right_left.unwrap().color(),NodeColor::Red);
}

#[test]
fn insert_test_2() {
    let mut x = RBTree::new();
    x.insert(10);
    x.insert(5);
    x.insert(30);
    x.insert(2);
    x.insert(9);
    x.insert(25);
    x.insert(40);
    x.insert(38);
    assert_eq!(x.root().unwrap().key(),10);
    assert_eq!(x.root().unwrap().color(),NodeColor::Black);

    let x_right = x.root().unwrap().right();
    assert_eq!(x_right.unwrap().key(),30);
    assert_eq!(x_right.unwrap().color(),NodeColor::Red);

    let x_left = x.root().unwrap().left();
    assert_eq!(x_left.unwrap().key(),5);
    assert_eq!(x_left.unwrap().color(),NodeColor::Black);

    let x_right_right = x_right.unwrap().right();
    assert_eq!(x_right_right.unwrap().key(),40);
    assert_eq!(x_right_right.unwrap().color(),NodeColor::Black);

    let x_right_left = x_right.unwrap().left();
    assert_eq!(x_right_left.unwrap().key(),25);
    assert_eq!(x_right_left.unwrap().color(),NodeColor::Black);

    let x_right_right_left = x_right_right.unwrap().left();
    assert_eq!(x_right_right_left.unwrap().key(),38);
    assert_eq!(x_right_right_left.unwrap().color(),NodeColor::Red);

    let x_left_left = x_left.unwrap().left();
    assert_eq!(x_left_left.unwrap().key(),2);
    assert_eq!(x_left_left.unwrap().color(),NodeColor::Red);

    let x_left_right = x_left.unwrap().right();
    assert_eq!(x_left_right.unwrap().key(),9);
    assert_eq!(x_left_right.unwrap().color(),NodeColor::Red);
}

#[test]
fn insert_test_3() {
    let mut x = RBTree::new();
    x.insert(10);
    x.insert(5);
    x.insert(20);
    x.insert(15);
    x.insert(30);
    assert_eq!(x.root().unwrap().key(),10);
    assert_eq!(x.root().unwrap().color(),NodeColor::Black);

    let x_right = x.root().unwrap().right();
    assert_eq!(x_right.unwrap().key(),20);
    assert_eq!(x_right.unwrap().color(),NodeColor::Black);

    let x_left = x.root().unwrap().left();
    assert_eq!(x_left.unwrap().key(),5);
    assert_eq!(x_left.unwrap().color(),NodeColor::Black);

    let x_right_right = x_right.unwrap().right();
    assert_eq!(x_right_right.unwrap().key(),30);
    assert_eq!(x_right_right.unwrap().color(),NodeColor::Red);

    let x_right_left = x_right.unwrap().left();
    assert_eq!(x_right_left.unwrap().key(),15);
    assert_eq!(x_right_left.unwrap().color(),NodeColor::Red);
}

#[test]
fn delete_test_3() {
    let mut x = RBTree::new();
    x.insert(10);
    x.insert(5);
    x.insert(20);
    x.insert(15);
    x.insert(30);
    assert_eq!(x.root().unwrap().key(),10);
    assert_eq!(x.root().unwrap().color(),NodeColor::Black);

    let x_right = x.root().unwrap().right();
    assert_eq!(x_right.unwrap().key(),20);
    assert_eq!(x_right.unwrap().color(),NodeColor::Black);

    let x_left = x.root().unwrap().left();
    assert_eq!(x_left.unwrap().key(),5);
    assert_eq!(x_left.unwrap().color(),NodeColor::Black);

    let x_right_right = x_right.unwrap().right();
    assert_eq!(x_right_right.unwrap().key(),30);
    assert_eq!(x_right_right.unwrap().color(),NodeColor::Red);
}

#[test]
fn insert_test_4() {
    let mut x = RBTree::new();
    x.insert(10);
    x.insert(5);
    x.insert(20);
    x.insert(1);
    x.insert(7);
    x.insert(15);
    x.insert(30);
    assert_eq!(x.root().unwrap().key(),10);
    assert_eq!(x.root().unwrap().color(),NodeColor::Black);

    let x_right = x.root().unwrap().right();
    assert_eq!(x_right.unwrap().key(),20);
    assert_eq!(x_right.unwrap().color(),NodeColor::Black);

    let x_left = x.root().unwrap().left();
    assert_eq!(x_left.unwrap().key(),5);
    assert_eq!(x_left.unwrap().color(),NodeColor::Black);

    let x_right_right = x_right.unwrap().right();
    assert_eq!(x_right_right.unwrap().key(),30);
    assert_eq!(x_right_right.unwrap().color(),NodeColor::Red);

    let x_right_left = x_right.unwrap().left();
    assert_eq!(x_right_left.unwrap().key(),15);
    assert_eq!(x_right_left.unwrap().color(),NodeColor::Red);

    let x_left_left = x_left.unwrap().left();
    assert_eq!(x_left_left.unwrap().key(),1);
    assert_eq!(x_left_left.unwrap().color(),NodeColor::Red);

    let x_left_right = x_left.unwrap().right();
    assert_eq!(x_left_right.unwrap().key(),7);
    assert_eq!(x_left_right.unwrap().color(),NodeColor::Red);
}

#[test]
fn insert_test_5() {
    let mut x = RBTree::new();
    x.insert(10);
    x.insert(5);
    x.insert(20);
    x.insert(1);
    x.insert(7);
    x.insert(15);
    x.insert(30);
    x.insert(25);
    x.insert(40);
    assert_eq!(x.root().unwrap().key(),10);
    assert_eq!(x.root().unwrap().color(),NodeColor::Black);

    let x_right = x.root().unwrap().right();
    assert_eq!(x_right.unwrap().key(),20);
    assert_eq!(x_right.unwrap().color(),NodeColor::Red);

    let x_left = x.root().unwrap().left();
    assert_eq!(x_left.unwrap().key(),5);
    assert_eq!(x_left.unwrap().color(),NodeColor::Black);

    let x_right_right = x_right.unwrap().right();
    assert_eq!(x_right_right.unwrap().key(),30);
    assert_eq!(x_right_right.unwrap().color(),NodeColor::Black);

    let x_right_left = x_right.unwrap().left();
    assert_eq!(x_right_left.unwrap().key(),15);
    assert_eq!(x_right_left.unwrap().color(),NodeColor::Black);

    let x_right_right_left = x_right_right.unwrap().left();
    assert_eq!(x_right_right_left.unwrap().key(),25);
    assert_eq!(x_right_right_left.unwrap().color(),NodeColor::Red);

    let x_right_right_right = x_right_right.unwrap().right();
    assert_eq!(x_right_right_right.unwrap().key(),40);
    assert_eq!(x_right_right_right.unwrap().color(),NodeColor::Red);

    let x_left_left = x_left.unwrap().left();
    assert_eq!(x_left_left.unwrap().key(),1);
    assert_eq!(x_left_left.unwrap().color(),NodeColor::Red);

    let x_left_right = x_left.unwrap().right();
    assert_eq!(x_left_right.unwrap().key(),7);
    assert_eq!(x_left_right.unwrap().color(),NodeColor::Red);
}

#[test]
fn insert_test_6() {
    let mut x = RBTree::new();
    x.insert(1);
    x.insert(5);
    x.insert(7);
    x.insert(10);
    x.insert(20);
    x.insert(25);
    x.insert(28);
    x.insert(30);
    x.insert(40);
    assert_eq!(x.root().unwrap().key(),10);
    assert_eq!(x.root().unwrap().color(),NodeColor::Black);

    let x_right = x.root().unwrap().right();
    assert_eq!(x_right.unwrap().key(),25);
    assert_eq!(x_right.unwrap().color(),NodeColor::Red);

    let x_left = x.root().unwrap().left();
    assert_eq!(x_left.unwrap().key(),5);
    assert_eq!(x_left.unwrap().color(),NodeColor::Red);

    let x_right_right = x_right.unwrap().right();
    assert_eq!(x_right_right.unwrap().key(),30);
    assert_eq!(x_right_right.unwrap().color(),NodeColor::Black);

    let x_right_left = x_right.unwrap().left();
    assert_eq!(x_right_left.unwrap().key(),20);
    assert_eq!(x_right_left.unwrap().color(),NodeColor::Black);

    let x_right_right_left = x_right_right.unwrap().left();
    assert_eq!(x_right_right_left.unwrap().key(),28);
    assert_eq!(x_right_right_left.unwrap().color(),NodeColor::Red);

    let x_right_right_right = x_right_right.unwrap().right();
    assert_eq!(x_right_right_right.unwrap().key(),40);
    assert_eq!(x_right_right_right.unwrap().color(),NodeColor::Red);

    let x_left_left = x_left.unwrap().left();
    assert_eq!(x_left_left.unwrap().key(),1);
    assert_eq!(x_left_left.unwrap().color(),NodeColor::Black);

    let x_left_right = x_left.unwrap().right();
    assert_eq!(x_left_right.unwrap().key(),7);
    assert_eq!(x_left_right.unwrap().color(),NodeColor::Black);
}

#[test]
fn test_min_max_1() {
    let mut a = RBTree::new();
    a.insert(455);
    a.insert(32);
    a.insert(4);
    a.insert(9);
    a.insert(12);
    a.insert(1);
    assert_eq!(a.min().unwrap().key(), 1);
    assert_eq!(a.max().unwrap().key(), 455);
}

#[test]
fn test_min_max_2() {
    let mut a = RBTree::new();
    a.insert("a");
    a.insert("f");
    a.insert("d");
    a.insert("g");
    a.insert("u");
    a.insert("c");
    assert_eq!(a.min().unwrap().key(), "a");
    assert_eq!(a.max().unwrap().key(), "u");
}
