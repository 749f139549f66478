//! Insertion into a red-black tree: what it gives, that it keeps the rules, and
//! the code that does it.

use vstd::prelude::*;
use crate::key::{Key, KeyOrder};
use crate::node::{rotate_left, rotate_right, shape_of, Link, Node};
use crate::order::{above, below, gains, lemma_lt_asymmetric};
use crate::rbtree::model::{balanced, black_height, is_red, no_red_red, NodeColor, RbShape};
use crate::shape::{
    lemma_fork_contains,
    lemma_retag_keeps,
    lemma_rotate_left_keeps,
    lemma_rotate_right_keeps,
    lemma_search_tree_fork,
    search_tree,
    Direction,
    Shape,
};

verus! {

/// The repair at a grandparent `g` after an insertion below its child on `side`.
///
/// Nothing changes unless that child (the parent) is red and has a red child.
/// With a red uncle, parent and uncle turn black and `g` turns red. With a black
/// uncle, an inner red grandchild is first rotated outwards; then the parent
/// turns black, `g` turns red, and `g` is rotated away from the parent's side.
pub open spec fn insert_fix_spec<K>(g: RbShape<K>, side: Direction) -> RbShape<K> {
    let l = g.left();
    let r = g.right();
    match side {
        Direction::Left => if g is Fork && is_red(l) && (is_red(l.left()) || is_red(l.right())) {
            if is_red(r) {
                Shape::fork(
                    NodeColor::Red,
                    l.retag(NodeColor::Black),
                    g->key,
                    r.retag(NodeColor::Black),
                )
            } else {
                let p = if is_red(l.right()) {
                    l.rotate_left()
                } else {
                    l
                };
                Shape::fork(NodeColor::Red, p.retag(NodeColor::Black), g->key, r).rotate_right()
            }
        } else {
            g
        },
        Direction::Right => if g is Fork && is_red(r) && (is_red(r.left()) || is_red(r.right())) {
            if is_red(l) {
                Shape::fork(
                    NodeColor::Red,
                    l.retag(NodeColor::Black),
                    g->key,
                    r.retag(NodeColor::Black),
                )
            } else {
                let p = if is_red(r.left()) {
                    r.rotate_right()
                } else {
                    r
                };
                Shape::fork(NodeColor::Red, l, g->key, p.retag(NodeColor::Black)).rotate_left()
            }
        } else {
            g
        },
    }
}

/// The subtree `t` after `k` was placed in it as a red leaf by an ordinary
/// descent, every fork on the way back repaired by `insert_fix_spec`.
/// A tree that holds `k` already is left as it is.
pub open spec fn insert_node_spec<T: Key>(t: RbShape<T::V>, k: T::V) -> RbShape<T::V>
    decreases t,
{
    match t {
        Shape::Nil => Shape::fork(NodeColor::Red, Shape::Nil, k, Shape::Nil),
        Shape::Fork { tag, left, key, right } => if T::lt(k, key) {
            insert_fix_spec(
                Shape::fork(tag, insert_node_spec::<T>(*left, k), key, *right),
                Direction::Left,
            )
        } else if T::lt(key, k) {
            insert_fix_spec(
                Shape::fork(tag, *left, key, insert_node_spec::<T>(*right, k)),
                Direction::Right,
            )
        } else {
            t
        },
    }
}

/// The whole tree `t` after the insertion of `k`: placed and repaired as by
/// `insert_node_spec`, and the root black.
pub open spec fn insert_spec<T: Key>(t: RbShape<T::V>, k: T::V) -> RbShape<T::V> {
    insert_node_spec::<T>(t, k).retag(NodeColor::Black)
}

/// What a repaired subtree may still break: its root may be red with one red child.
pub open spec fn nearly_red_black<K>(t: RbShape<K>) -> bool {
    &&& t is Fork
    &&& no_red_red(t.left())
    &&& no_red_red(t.right())
    &&& is_red(t) ==> !(is_red(t.left()) && is_red(t.right()))
}

/// The repair moves no key: it keeps their order and their number.
pub proof fn lemma_insert_fix_keeps<K>(g: RbShape<K>, side: Direction)
    ensures
        insert_fix_spec(g, side).inorder() == g.inorder(),
        insert_fix_spec(g, side).size() == g.size(),
        g is Fork ==> insert_fix_spec(g, side) is Fork,
{
    let l = g.left();
    let r = g.right();
    let black = NodeColor::Black;
    lemma_retag_keeps(l, black);
    lemma_retag_keeps(r, black);
    match side {
        Direction::Left => {
            let p = if is_red(l.right()) {
                l.rotate_left()
            } else {
                l
            };
            lemma_rotate_left_keeps(l);
            lemma_retag_keeps(p, black);
            lemma_rotate_right_keeps(Shape::fork(NodeColor::Red, p.retag(black), g->key, r));
        },
        Direction::Right => {
            let p = if is_red(r.left()) {
                r.rotate_right()
            } else {
                r
            };
            lemma_rotate_right_keeps(r);
            lemma_retag_keeps(p, black);
            lemma_rotate_left_keeps(Shape::fork(NodeColor::Red, l, g->key, p.retag(black)));
        },
    }
}

/// Insertion into a search tree gives a search tree that holds the old keys
/// and `k`, one fork larger unless `k` was there.
pub proof fn lemma_insert_node_keys<T: Key>(t: RbShape<T::V>, k: T::V)
    requires
        search_tree::<T, NodeColor>(t),
    ensures
        search_tree::<T, NodeColor>(insert_node_spec::<T>(t, k)),
        gains(insert_node_spec::<T>(t, k).inorder(), t.inorder(), k),
        insert_node_spec::<T>(t, k).size() == t.size() + if t.contains(k) {
            0nat
        } else {
            1nat
        },
        insert_node_spec::<T>(t, k) is Fork,
    decreases t,
{
    let out = insert_node_spec::<T>(t, k);
    match t {
        Shape::Nil => {
            assert(out.inorder() =~= seq![k]);
            assert(out.inorder()[0] == k);
            assert(t.inorder() =~= Seq::<T::V>::empty());
            assert(out.size() == 1) by {
                reveal_with_fuel(Shape::size, 2);
            }
        },
        Shape::Fork { tag, left, key, right } => {
            lemma_search_tree_fork::<T, NodeColor>(t);
            T::lt_connected(k, key);
            if T::lt(k, key) {
                lemma_lt_asymmetric::<T>(k, key);
                lemma_insert_node_keys::<T>(*left, k);
                let sub = insert_node_spec::<T>(*left, k);
                let grown = Shape::fork(tag, sub, key, *right);
                lemma_insert_fix_keeps(grown, Direction::Left);
                assert(below::<T>(sub.inorder(), key));
                lemma_search_tree_fork::<T, NodeColor>(grown);
                assert forall|x: T::V|
                    #![trigger out.inorder().contains(x)]
                    #![trigger t.inorder().contains(x)]
                    out.contains(x) <==> (t.contains(x) || x == k) by {
                    lemma_fork_contains(grown, x);
                    lemma_fork_contains(t, x);
                }
                lemma_fork_contains(t, k);
                if right.contains(k) {
                    assert(T::lt(key, k));
                }
            } else if T::lt(key, k) {
                lemma_lt_asymmetric::<T>(key, k);
                lemma_insert_node_keys::<T>(*right, k);
                let sub = insert_node_spec::<T>(*right, k);
                let grown = Shape::fork(tag, *left, key, sub);
                lemma_insert_fix_keeps(grown, Direction::Right);
                assert(above::<T>(sub.inorder(), key));
                lemma_search_tree_fork::<T, NodeColor>(grown);
                assert forall|x: T::V|
                    #![trigger out.inorder().contains(x)]
                    #![trigger t.inorder().contains(x)]
                    out.contains(x) <==> (t.contains(x) || x == k) by {
                    lemma_fork_contains(grown, x);
                    lemma_fork_contains(t, x);
                }
                lemma_fork_contains(t, k);
                if left.contains(k) {
                    assert(T::lt(k, key));
                }
            } else {
                lemma_fork_contains(t, k);
            }
        },
    }
}

/// The repair at a black grandparent, one of whose subtrees is nearly red-black
/// and the other red-black but for its root's colour, restores the colour rules
/// below the root and keeps the black height.
pub proof fn lemma_insert_fix_colors<K>(g: RbShape<K>, side: Direction)
    requires
        g is Fork,
        balanced(g),
        !is_red(g),
        side == Direction::Left ==> nearly_red_black(g.left()) && no_red_red(g.right()),
        side == Direction::Right ==> nearly_red_black(g.right()) && no_red_red(g.left()),
    ensures
        balanced(insert_fix_spec(g, side)),
        black_height(insert_fix_spec(g, side)) == black_height(g),
        no_red_red(insert_fix_spec(g, side)),
{
    reveal_with_fuel(balanced, 4);
    reveal_with_fuel(black_height, 4);
    reveal_with_fuel(no_red_red, 4);
}

/// Insertion keeps the black height and the balance. Below a black root it
/// leaves no red fork with a red child; below a red root at most the root itself
/// has one.
pub proof fn lemma_insert_node_colors<T: Key>(t: RbShape<T::V>, k: T::V)
    requires
        no_red_red(t),
        balanced(t),
    ensures
        balanced(insert_node_spec::<T>(t, k)),
        black_height(insert_node_spec::<T>(t, k)) == black_height(t),
        nearly_red_black(insert_node_spec::<T>(t, k)),
        !is_red(t) ==> no_red_red(insert_node_spec::<T>(t, k)),
    decreases t,
{
    match t {
        Shape::Nil => {
            reveal_with_fuel(balanced, 2);
            reveal_with_fuel(black_height, 2);
            reveal_with_fuel(no_red_red, 2);
        },
        Shape::Fork { tag, left, key, right } => {
            if T::lt(k, key) {
                lemma_insert_node_colors::<T>(*left, k);
                let grown = Shape::fork(tag, insert_node_spec::<T>(*left, k), key, *right);
                if tag == NodeColor::Black {
                    lemma_insert_fix_colors(grown, Direction::Left);
                }
            } else if T::lt(key, k) {
                lemma_insert_node_colors::<T>(*right, k);
                let grown = Shape::fork(tag, *left, key, insert_node_spec::<T>(*right, k));
                if tag == NodeColor::Black {
                    lemma_insert_fix_colors(grown, Direction::Right);
                }
            }
        },
    }
}

/// Whether `link` holds a red node. No node counts as black.
pub fn is_red_link<T: Key>(link: &Link<T, NodeColor>) -> (red: bool)
    ensures
        red == is_red(shape_of(*link)),
{
    match link {
        Some(node) => node.tag == NodeColor::Red,
        None => false,
    }
}

/// Whether `link` holds a red node that has a red child.
fn has_red_pair<T: Key>(link: &Link<T, NodeColor>) -> (found: bool)
    ensures
        found == (is_red(shape_of(*link)) && (is_red(shape_of(*link).left()) || is_red(
            shape_of(*link).right(),
        ))),
{
    match link {
        Some(node) => node.tag == NodeColor::Red && (is_red_link(&node.left) || is_red_link(
            &node.right,
        )),
        None => false,
    }
}

/// Gives the node that `link` holds the colour `color`.
pub fn paint<T: Key>(link: &mut Link<T, NodeColor>, color: NodeColor)
    ensures
        shape_of(*final(link)) == shape_of(*old(link)).retag(color),
{
    match link.take() {
        Some(mut node) => {
            node.tag = color;
            *link = Some(node);
        },
        None => {},
    }
}

/// Repairs the colours at the grandparent `g` after an insertion below its
/// child on `side`: recolours where the uncle is red, rotates where it is black.
pub fn insert_fix<T: Key>(g: Box<Node<T, NodeColor>>, side: Direction) -> (top: Box<
    Node<T, NodeColor>,
>)
    ensures
        top@ == insert_fix_spec(g@, side),
{
    proof {
        reveal_with_fuel(Node::shape, 3);
        reveal_with_fuel(shape_of, 3);
    }
    let mut g = g;
    match side {
        Direction::Left => {
            if has_red_pair(&g.left) {
                if is_red_link(&g.right) {
                    paint(&mut g.left, NodeColor::Black);
                    paint(&mut g.right, NodeColor::Black);
                    g.tag = NodeColor::Red;
                    g
                } else {
                    let mut parent = g.left.take().unwrap();
                    if is_red_link(&parent.right) {
                        parent = rotate_left(parent);
                    }
                    parent.tag = NodeColor::Black;
                    g.tag = NodeColor::Red;
                    g.left = Some(parent);
                    rotate_right(g)
                }
            } else {
                g
            }
        },
        Direction::Right => {
            if has_red_pair(&g.right) {
                if is_red_link(&g.left) {
                    paint(&mut g.left, NodeColor::Black);
                    paint(&mut g.right, NodeColor::Black);
                    g.tag = NodeColor::Red;
                    g
                } else {
                    let mut parent = g.right.take().unwrap();
                    if is_red_link(&parent.left) {
                        parent = rotate_right(parent);
                    }
                    parent.tag = NodeColor::Black;
                    g.tag = NodeColor::Red;
                    g.right = Some(parent);
                    rotate_left(g)
                }
            } else {
                g
            }
        },
    }
}

/// Places `key` below `tree` as a red leaf, by an ordinary descent, and repairs
/// the colours at every node on the way back. A key that is there already is
/// not placed again.
pub fn insert_node<T: Key>(tree: Link<T, NodeColor>, key: T) -> (grown: Link<T, NodeColor>)
    ensures
        shape_of(grown) == insert_node_spec::<T>(shape_of(tree), key@),
    decreases tree,
{
    match tree {
        None => Some(Box::new(Node { tag: NodeColor::Red, key, left: None, right: None })),
        Some(mut node) => {
            match key.compare(&node.key) {
                KeyOrder::Less => {
                    let sub = node.left.take();
                    node.left = insert_node(sub, key);
                    Some(insert_fix(node, Direction::Left))
                },
                KeyOrder::Greater => {
                    proof {
                        lemma_lt_asymmetric::<T>(node.key@, key@);
                    }
                    let sub = node.right.take();
                    node.right = insert_node(sub, key);
                    Some(insert_fix(node, Direction::Right))
                },
                KeyOrder::Equal => {
                    proof {
                        T::lt_irreflexive(key@);
                    }
                    Some(node)
                },
            }
        },
    }
}

} // verus!
