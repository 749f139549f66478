use rust_trees::rbtree::NodeColor;
use rust_trees::rbtree::RBTree;

#[test]
fn test_delete_1() {
    let mut x = RBTree::new();
    x.insert(12);
    x.insert(8);
    x.insert(15);
    x.delete(12);

    assert_eq!(x.root().unwrap().key(),15);
    assert_eq!(x.root().unwrap().left().unwrap().key(),8);
}

#[test]
fn delete_test_1() {
    let mut x = RBTree::new();
    x.insert(15);
    x.insert(11);
    x.insert(19);
    x.insert(8);
    x.insert(13);
    x.insert(16);
    x.insert(23);
    x.insert(12);
    x.insert(14);
    x.delete(13);
    assert_eq!(x.root().unwrap().key(),15);
    assert_eq!(x.root().unwrap().color(),NodeColor::Black);

    let x_right = x.root().unwrap().right();
    assert_eq!(x_right.unwrap().key(),19);
    assert_eq!(x_right.unwrap().color(),NodeColor::Black);

    let x_left = x.root().unwrap().left();
    assert_eq!(x_left.unwrap().key(),11);
    assert_eq!(x_left.unwrap().color(),NodeColor::Red);

    let x_right_right = x_right.unwrap().right();
    assert_eq!(x_right_right.unwrap().key(),23);
    assert_eq!(x_right_right.unwrap().color(),NodeColor::Red);

    let x_right_left = x_right.unwrap().left();
    assert_eq!(x_right_left.unwrap().key(),16);
    assert_eq!(x_right_left.unwrap().color(),NodeColor::Red);

    let x_left_left = x_left.unwrap().left();
    assert_eq!(x_left_left.unwrap().key(),8);
    assert_eq!(x_left_left.unwrap().color(),NodeColor::Black);

    let x_left_right = x_left.unwrap().right();
    assert_eq!(x_left_right.unwrap().key(),14);
    assert_eq!(x_left_right.unwrap().color(),NodeColor::Black);

    let x_left_right_left = x_left_right.unwrap().left();
    assert_eq!(x_left_right_left.unwrap().key(),12);
    assert_eq!(x_left_right_left.unwrap().color(),NodeColor::Red);
}

#[test]
fn delete_test_2() {
    let mut x = RBTree::new();
    x.insert(10);
    x.insert(5);
    x.insert(30);
    x.insert(2);
    x.insert(9);
    x.insert(25);
    x.insert(40);
    x.insert(38);
    x.delete(30);
    assert_eq!(x.root().unwrap().key(),10);
    assert_eq!(x.root().unwrap().color(),NodeColor::Black);

    let x_right = x.root().unwrap().right();
    assert_eq!(x_right.unwrap().key(),38);
    assert_eq!(x_right.unwrap().color(),NodeColor::Red);

    let x_left = x.root().unwrap().left();
    assert_eq!(x_left.unwrap().key(),5);
    assert_eq!(x_left.unwrap().color(),NodeColor::Black);

    let x_right_right = x_right.unwrap().right();
    assert_eq!(x_right_right.unwrap().key(),40);
    assert_eq!(x_right_right.unwrap().color(),NodeColor::Black);

    let x_right_left = x_right.unwrap().left();
    assert_eq!(x_right_left.unwrap().key(),25);
    assert_eq!(x_right_left.unwrap().color(),NodeColor::Black);

    let x_left_left = x_left.unwrap().left();
    assert_eq!(x_left_left.unwrap().key(),2);
    assert_eq!(x_left_left.unwrap().color(),NodeColor::Red);

    let x_left_right = x_left.unwrap().right();
    assert_eq!(x_left_right.unwrap().key(),9);
    assert_eq!(x_left_right.unwrap().color(),NodeColor::Red);
}

#[test]
fn delete_test_4() {
    let mut x = RBTree::new();
    x.insert(10);
    x.insert(5);
    x.insert(20);
    x.insert(1);
    x.insert(7);
    x.insert(15);
    x.insert(30);
    x.delete(15);
    assert_eq!(x.root().unwrap().key(),10);
    assert_eq!(x.root().unwrap().color(),NodeColor::Black);

    let x_right = x.root().unwrap().right();
    assert_eq!(x_right.unwrap().key(),20);
    assert_eq!(x_right.unwrap().color(),NodeColor::Black);

    let x_left = x.root().unwrap().left();
    assert_eq!(x_left.unwrap().key(),5);
    assert_eq!(x_left.unwrap().color(),NodeColor::Black);

    let x_right_right = x_right.unwrap().right();
    assert_eq!(x_right_right.unwrap().key(),30);
    assert_eq!(x_right_right.unwrap().color(),NodeColor::Red);

    let x_left_left = x_left.unwrap().left();
    assert_eq!(x_left_left.unwrap().key(),1);
    assert_eq!(x_left_left.unwrap().color(),NodeColor::Red);

    let x_left_right = x_left.unwrap().right();
    assert_eq!(x_left_right.unwrap().key(),7);
    assert_eq!(x_left_right.unwrap().color(),NodeColor::Red);
}

#[test]
fn delete_test_5() {
    let mut x = RBTree::new();
    x.insert(10);
    x.insert(5);
    x.insert(20);
    x.insert(1);
    x.insert(7);
    x.insert(15);
    x.insert(30);
    x.insert(25);
    x.insert(40);
    x.delete(15);
    assert_eq!(x.root().unwrap().key(),10);
    assert_eq!(x.root().unwrap().color(),NodeColor::Black);

    let x_right = x.root().unwrap().right();
    assert_eq!(x_right.unwrap().key(),30);
    assert_eq!(x_right.unwrap().color(),NodeColor::Red);

    let x_left = x.root().unwrap().left();
    assert_eq!(x_left.unwrap().key(),5);
    assert_eq!(x_left.unwrap().color(),NodeColor::Black);

    let x_right_right = x_right.unwrap().right();
    assert_eq!(x_right_right.unwrap().key(),40);
    assert_eq!(x_right_right.unwrap().color(),NodeColor::Black);

    let x_right_left = x_right.unwrap().left();
    assert_eq!(x_right_left.unwrap().key(),20);
    assert_eq!(x_right_left.unwrap().color(),NodeColor::Black);

    let x_right_left_right = x_right_left.unwrap().right();
    assert_eq!(x_right_left_right.unwrap().key(),25);
    assert_eq!(x_right_left_right.unwrap().color(),NodeColor::Red);

    let x_left_left = x_left.unwrap().left();
    assert_eq!(x_left_left.unwrap().key(),1);
    assert_eq!(x_left_left.unwrap().color(),NodeColor::Red);

    let x_left_right = x_left.unwrap().right();
    assert_eq!(x_left_right.unwrap().key(),7);
    assert_eq!(x_left_right.unwrap().color(),NodeColor::Red);
}

#[test]
fn delete_test_6() {
    let mut x = RBTree::new();
    x.insert(1);
    x.insert(5);
    x.insert(7);
    x.insert(10);
    x.insert(20);
    x.insert(25);
    x.insert(28);
    x.insert(30);
    x.insert(40);
    x.delete(1);
    assert_eq!(x.root().unwrap().key(),10);
    assert_eq!(x.root().unwrap().color(),NodeColor::Black);

    let x_right = x.root().unwrap().right();
    assert_eq!(x_right.unwrap().key(),25);
    assert_eq!(x_right.unwrap().color(),NodeColor::Red);

    let x_left = x.root().unwrap().left();
    assert_eq!(x_left.unwrap().key(),5);
    assert_eq!(x_left.unwrap().color(),NodeColor::Black);

    let x_right_right = x_right.unwrap().right();
    assert_eq!(x_right_right.unwrap().key(),30);
    assert_eq!(x_right_right.unwrap().color(),NodeColor::Black);

    let x_right_left = x_right.unwrap().left();
    assert_eq!(x_right_left.unwrap().key(),20);
    assert_eq!(x_right_left.unwrap().color(),NodeColor::Black);

    let x_right_right_left = x_right_right.unwrap().left();
    assert_eq!(x_right_right_left.unwrap().key(),28);
    assert_eq!(x_right_right_left.unwrap().color(),NodeColor::Red);

    let x_right_right_right = x_right_right.unwrap().right();
    assert_eq!(x_right_right_right.unwrap().key(),40);
    assert_eq!(x_right_right_right.unwrap().color(),NodeColor::Red);

    let x_left_right = x_left.unwrap().right();
    assert_eq!(x_left_right.unwrap().key(),7);
    assert_eq!(x_left_right.unwrap().color(),NodeColor::Red);
}

#[test]
fn test_letters() {
    let mut x = RBTree::new();
    x.insert("a");
    x.insert("b");
    x.insert("c");
    x.insert("p");
    x.insert("m");
    x.delete("c");

    assert_eq!(x.root().unwrap().key(),"b");
    assert_eq!(x.root().unwrap().color(),NodeColor::Black);

    let x_right = x.root().unwrap().right();
    assert_eq!(x_right.unwrap().key(),"m");
    assert_eq!(x_right.unwrap().color(),NodeColor::Black);

    let x_left = x.root().unwrap().left();
    assert_eq!(x_left.unwrap().key(),"a");
    assert_eq!(x_left.unwrap().color(),NodeColor::Black);

    let x_right_right = x_right.unwrap().right();
    assert_eq!(x_right_right.unwrap().key(), "p");
    assert_eq!(x_right_right.unwrap().color(),NodeColor::Red);
}
