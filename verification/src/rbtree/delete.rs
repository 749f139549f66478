//! Deletion from a red-black tree: what it gives, that it keeps the rules, and
//! the code that does it.

use vstd::prelude::*;
use crate::key::{Key, KeyOrder};
use crate::node::{find_min, rotate_left, rotate_right, shape_of, Link, Node};
use crate::order::{above, below, lemma_lt_asymmetric, loses};
use crate::rbtree::insert::{is_red_link, paint};
use crate::rbtree::model::{balanced, black_height, is_red, no_red_red, NodeColor, RbShape};
use crate::shape::{
    lemma_fork_contains,
    lemma_leftmost,
    lemma_retag_keeps,
    lemma_rotate_left_keeps,
    lemma_rotate_right_keeps,
    lemma_search_tree_fork,
    search_tree,
    Direction,
    Shape,
};

verus! {

/// A fork `z` with at most one child, taken out: the child `x` that comes into
/// its place, and whether that place is now one black fork short.
///
/// A red `z` is not missed. A black `z` is made up for by a red `x`, which turns
/// black; with a black or empty `x` the place stays short.
pub open spec fn transplant_spec<K>(z: RbShape<K>) -> (RbShape<K>, bool) {
    let x = if z.left() is Nil {
        z.right()
    } else {
        z.left()
    };
    if is_red(z) {
        (x, false)
    } else if is_red(x) {
        (x.retag(NodeColor::Black), false)
    } else {
        (x, true)
    }
}

/// The repair at a parent `p` whose subtree on `side` is one black fork short
/// and whose sibling subtree has a black root.
///
/// Where both of the sibling's children are black, the sibling turns red; a red
/// `p` then turns black and ends the repair, a black `p` is short itself.
/// Otherwise a red near child with a black far child is first rotated outwards
/// and recoloured; then the sibling takes the colour of `p`, `p` and the far
/// child turn black, and `p` is rotated towards the short side.
/// Without a sibling there is nothing to repair with, and `p` stays short.
pub open spec fn fix_black_sibling_spec<K>(p: RbShape<K>, side: Direction) -> (RbShape<K>, bool) {
    let red = NodeColor::Red;
    let black = NodeColor::Black;
    match side {
        Direction::Left => {
            let s = p.right();
            if s is Nil {
                (p, true)
            } else if !is_red(s.left()) && !is_red(s.right()) {
                if is_red(p) {
                    (Shape::fork(black, p.left(), p->key, s.retag(red)), false)
                } else {
                    (Shape::fork(black, p.left(), p->key, s.retag(red)), true)
                }
            } else {
                let s2 = if !is_red(s.right()) {
                    Shape::fork(red, s.left().retag(black), s->key, s.right()).rotate_right()
                } else {
                    s
                };
                (
                    Shape::fork(
                        black,
                        p.left(),
                        p->key,
                        Shape::fork(p->tag, s2.left(), s2->key, s2.right().retag(black)),
                    ).rotate_left(),
                    false,
                )
            }
        },
        Direction::Right => {
            let s = p.left();
            if s is Nil {
                (p, true)
            } else if !is_red(s.left()) && !is_red(s.right()) {
                if is_red(p) {
                    (Shape::fork(black, s.retag(red), p->key, p.right()), false)
                } else {
                    (Shape::fork(black, s.retag(red), p->key, p.right()), true)
                }
            } else {
                let s2 = if !is_red(s.left()) {
                    Shape::fork(red, s.left(), s->key, s.right().retag(black)).rotate_left()
                } else {
                    s
                };
                (
                    Shape::fork(
                        black,
                        Shape::fork(p->tag, s2.left().retag(black), s2->key, s2.right()),
                        p->key,
                        p.right(),
                    ).rotate_right(),
                    false,
                )
            }
        },
    }
}

/// The repair at a parent `p` whose subtree on `side` is one black fork short:
/// the repaired subtree, and whether it is still one black fork short.
///
/// A red sibling first turns black, `p` turns red and is rotated towards the
/// short side; the repair then goes on at `p`, one level down, where the
/// sibling is black.
pub open spec fn delete_fix_spec<K>(p: RbShape<K>, side: Direction) -> (RbShape<K>, bool) {
    let red = NodeColor::Red;
    let black = NodeColor::Black;
    match side {
        Direction::Left => {
            let s = p.right();
            if p is Fork && is_red(s) {
                let turned = Shape::fork(red, p.left(), p->key, s.retag(black)).rotate_left();
                let (q, short) = fix_black_sibling_spec(turned.left(), side);
                (Shape::fork(black, q, turned->key, turned.right()), short)
            } else {
                fix_black_sibling_spec(p, side)
            }
        },
        Direction::Right => {
            let s = p.left();
            if p is Fork && is_red(s) {
                let turned = Shape::fork(red, s.retag(black), p->key, p.right()).rotate_right();
                let (q, short) = fix_black_sibling_spec(turned.right(), side);
                (Shape::fork(black, turned.left(), turned->key, q), short)
            } else {
                fix_black_sibling_spec(p, side)
            }
        },
    }
}

/// The subtree `t` after `k` was taken out of it, and whether the result is one
/// black fork short.
///
/// A descent finds the fork that holds `k`. With at most one child it is taken
/// out by `transplant_spec`. With two children it keeps its place and colour
/// and takes over the smallest key of its right subtree, which is taken out
/// there instead. On the way back every fork above a short subtree is repaired
/// by `delete_fix_spec`.
pub open spec fn delete_node_spec<T: Key>(t: RbShape<T::V>, k: T::V) -> (RbShape<T::V>, bool)
    decreases t,
{
    match t {
        Shape::Nil => (Shape::Nil, false),
        Shape::Fork { tag, left, key, right } => if T::lt(k, key) {
            let (sub, short) = delete_node_spec::<T>(*left, k);
            let q = Shape::fork(tag, sub, key, *right);
            if short {
                delete_fix_spec(q, Direction::Left)
            } else {
                (q, false)
            }
        } else if T::lt(key, k) {
            let (sub, short) = delete_node_spec::<T>(*right, k);
            let q = Shape::fork(tag, *left, key, sub);
            if short {
                delete_fix_spec(q, Direction::Right)
            } else {
                (q, false)
            }
        } else if *left is Nil || *right is Nil {
            transplant_spec(t)
        } else {
            let next = right.leftmost()->key;
            let (sub, short) = delete_node_spec::<T>(*right, next);
            let q = Shape::fork(tag, *left, next, sub);
            if short {
                delete_fix_spec(q, Direction::Right)
            } else {
                (q, false)
            }
        },
    }
}

/// The whole tree `t` after the deletion of `k`.
pub open spec fn delete_spec<T: Key>(t: RbShape<T::V>, k: T::V) -> RbShape<T::V> {
    delete_node_spec::<T>(t, k).0
}

/// The subtree of `p` on `side`.
pub open spec fn child_on<K>(p: RbShape<K>, side: Direction) -> RbShape<K> {
    match side {
        Direction::Left => p.left(),
        Direction::Right => p.right(),
    }
}

/// The subtree of `p` opposite to `side`.
pub open spec fn sibling_on<K>(p: RbShape<K>, side: Direction) -> RbShape<K> {
    match side {
        Direction::Left => p.right(),
        Direction::Right => p.left(),
    }
}

/// What a black root adds to the black height.
pub open spec fn black_weight<K>(t: RbShape<K>) -> nat {
    if t is Fork && !is_red(t) {
        1
    } else {
        0
    }
}

/// What a short subtree takes from the black height.
pub open spec fn shortfall(short: bool) -> nat {
    if short {
        1
    } else {
        0
    }
}

/// The parent `p` obeys the colour rules but for its subtree on `side`, which
/// has a black root and is one black fork shorter than its sibling.
pub open spec fn short_on<K>(p: RbShape<K>, side: Direction) -> bool {
    let x = child_on(p, side);
    let s = sibling_on(p, side);
    &&& p is Fork
    &&& no_red_red(x)
    &&& balanced(x)
    &&& !is_red(x)
    &&& no_red_red(s)
    &&& balanced(s)
    &&& black_height(s) == black_height(x) + 1
    &&& is_red(p) ==> !is_red(s)
}

/// What a repair or a deletion leaves of a subtree `before`: a subtree `after`
/// that obeys the colour rules below its root, whose root is red only where it
/// was red, and whose black height is that of `before`, or one less where it is
/// `short`; a short subtree has a black root.
pub open spec fn repaired<K>(after: RbShape<K>, short: bool, height: nat, was_red: bool) -> bool {
    &&& balanced(after)
    &&& no_red_red(after)
    &&& black_height(after) + shortfall(short) == height
    &&& is_red(after) ==> was_red
    &&& short ==> !is_red(after)
}

/// The repair below a black sibling moves no key.
pub proof fn lemma_fix_black_sibling_keeps<K>(p: RbShape<K>, side: Direction)
    requires
        p is Fork,
    ensures
        fix_black_sibling_spec(p, side).0.inorder() == p.inorder(),
        fix_black_sibling_spec(p, side).0.size() == p.size(),
        fix_black_sibling_spec(p, side).0 is Fork,
{
    let red = NodeColor::Red;
    let black = NodeColor::Black;
    match side {
        Direction::Left => {
            let s = p.right();
            if s is Fork {
                lemma_retag_keeps(s, red);
                let pre = Shape::fork(red, s.left().retag(black), s->key, s.right());
                lemma_retag_keeps(s.left(), black);
                lemma_rotate_right_keeps(pre);
                let s2 = if !is_red(s.right()) {
                    pre.rotate_right()
                } else {
                    s
                };
                assert(s2.inorder() == s.inorder());
                assert(s2.size() == s.size());
                if !(!is_red(s.left()) && !is_red(s.right())) {
                    assert(s2 is Fork);
                    lemma_retag_keeps(s2.right(), black);
                    let inner = Shape::fork(p->tag, s2.left(), s2->key, s2.right().retag(black));
                    assert(inner.inorder() == s2.inorder());
                    assert(inner.size() == s2.size());
                    let last = Shape::fork(black, p.left(), p->key, inner);
                    assert(last.inorder() == p.inorder());
                    assert(last.size() == p.size());
                    lemma_rotate_left_keeps(last);
                } else {
                    let q = Shape::fork(black, p.left(), p->key, s.retag(red));
                    assert(q.inorder() == p.inorder());
                    assert(q.size() == p.size());
                }
            }
        },
        Direction::Right => {
            let s = p.left();
            if s is Fork {
                lemma_retag_keeps(s, red);
                let pre = Shape::fork(red, s.left(), s->key, s.right().retag(black));
                lemma_retag_keeps(s.right(), black);
                lemma_rotate_left_keeps(pre);
                let s2 = if !is_red(s.left()) {
                    pre.rotate_left()
                } else {
                    s
                };
                assert(s2.inorder() == s.inorder());
                assert(s2.size() == s.size());
                if !(!is_red(s.left()) && !is_red(s.right())) {
                    assert(s2 is Fork);
                    lemma_retag_keeps(s2.left(), black);
                    let inner = Shape::fork(p->tag, s2.left().retag(black), s2->key, s2.right());
                    assert(inner.inorder() == s2.inorder());
                    assert(inner.size() == s2.size());
                    let last = Shape::fork(black, inner, p->key, p.right());
                    assert(last.inorder() == p.inorder());
                    assert(last.size() == p.size());
                    lemma_rotate_right_keeps(last);
                } else {
                    let q = Shape::fork(black, s.retag(red), p->key, p.right());
                    assert(q.inorder() == p.inorder());
                    assert(q.size() == p.size());
                }
            }
        },
    }
}

/// The repair above a short subtree moves no key.
pub proof fn lemma_delete_fix_keeps<K>(p: RbShape<K>, side: Direction)
    requires
        p is Fork,
    ensures
        delete_fix_spec(p, side).0.inorder() == p.inorder(),
        delete_fix_spec(p, side).0.size() == p.size(),
        delete_fix_spec(p, side).0 is Fork,
{
    let red = NodeColor::Red;
    let black = NodeColor::Black;
    match side {
        Direction::Left => {
            let s = p.right();
            if is_red(s) {
                lemma_retag_keeps(s, black);
                let pre = Shape::fork(red, p.left(), p->key, s.retag(black));
                lemma_rotate_left_keeps(pre);
                let turned = pre.rotate_left();
                lemma_fix_black_sibling_keeps(turned.left(), side);
            } else {
                lemma_fix_black_sibling_keeps(p, side);
            }
        },
        Direction::Right => {
            let s = p.left();
            if is_red(s) {
                lemma_retag_keeps(s, black);
                let pre = Shape::fork(red, s.retag(black), p->key, p.right());
                lemma_rotate_right_keeps(pre);
                let turned = pre.rotate_right();
                lemma_fix_black_sibling_keeps(turned.right(), side);
            } else {
                lemma_fix_black_sibling_keeps(p, side);
            }
        },
    }
}

/// Taking a fork with at most one child out of a search tree leaves a search
/// tree with the other keys.
pub proof fn lemma_transplant_keys<T: Key>(z: RbShape<T::V>)
    requires
        z is Fork,
        z.left() is Nil || z.right() is Nil,
        search_tree::<T, NodeColor>(z),
    ensures
        search_tree::<T, NodeColor>(transplant_spec(z).0),
        loses(transplant_spec(z).0.inorder(), z.inorder(), z->key),
        transplant_spec(z).0.size() + 1 == z.size(),
{
    let x = if z.left() is Nil {
        z.right()
    } else {
        z.left()
    };
    let out = transplant_spec(z).0;
    reveal_with_fuel(Shape::size, 2);
    lemma_retag_keeps(x, NodeColor::Black);
    lemma_search_tree_fork::<T, NodeColor>(z);
    assert(out.inorder() == x.inorder());
    assert forall|v: T::V|
        #![trigger out.inorder().contains(v)]
        #![trigger z.inorder().contains(v)]
        out.inorder().contains(v) <==> (z.inorder().contains(v) && v != z->key) by {
        lemma_fork_contains(z, v);
        T::lt_irreflexive(z->key);
    }
}

/// Deletion from a search tree gives a search tree that holds the other keys,
/// one fork smaller where `k` was there.
pub proof fn lemma_delete_node_keys<T: Key>(t: RbShape<T::V>, k: T::V)
    requires
        search_tree::<T, NodeColor>(t),
    ensures
        search_tree::<T, NodeColor>(delete_node_spec::<T>(t, k).0),
        loses(delete_node_spec::<T>(t, k).0.inorder(), t.inorder(), k),
        delete_node_spec::<T>(t, k).0.size() + if t.contains(k) {
            1nat
        } else {
            0nat
        } == t.size(),
    decreases t,
{
    let out = delete_node_spec::<T>(t, k).0;
    match t {
        Shape::Nil => {},
        Shape::Fork { tag, left, key, right } => {
            lemma_search_tree_fork::<T, NodeColor>(t);
            lemma_fork_contains(t, k);
            T::lt_connected(k, key);
            T::lt_irreflexive(key);
            if T::lt(k, key) {
                lemma_lt_asymmetric::<T>(k, key);
                lemma_delete_node_keys::<T>(*left, k);
                let (sub, short) = delete_node_spec::<T>(*left, k);
                let q = Shape::fork(tag, sub, key, *right);
                lemma_delete_fix_keeps(q, Direction::Left);
                assert(below::<T>(sub.inorder(), key));
                lemma_search_tree_fork::<T, NodeColor>(q);
                assert forall|x: T::V|
                    #![trigger out.inorder().contains(x)]
                    #![trigger t.inorder().contains(x)]
                    out.contains(x) <==> (t.contains(x) && x != k) by {
                    lemma_fork_contains(q, x);
                    lemma_fork_contains(t, x);
                    if right.contains(x) {
                        assert(T::lt(key, x));
                    }
                }
                if right.contains(k) {
                    assert(T::lt(key, k));
                }
            } else if T::lt(key, k) {
                lemma_lt_asymmetric::<T>(key, k);
                lemma_delete_node_keys::<T>(*right, k);
                let (sub, short) = delete_node_spec::<T>(*right, k);
                let q = Shape::fork(tag, *left, key, sub);
                lemma_delete_fix_keeps(q, Direction::Right);
                assert(above::<T>(sub.inorder(), key));
                lemma_search_tree_fork::<T, NodeColor>(q);
                assert forall|x: T::V|
                    #![trigger out.inorder().contains(x)]
                    #![trigger t.inorder().contains(x)]
                    out.contains(x) <==> (t.contains(x) && x != k) by {
                    lemma_fork_contains(q, x);
                    lemma_fork_contains(t, x);
                    if left.contains(x) {
                        assert(T::lt(x, key));
                    }
                }
                if left.contains(k) {
                    assert(T::lt(k, key));
                }
            } else if *left is Nil || *right is Nil {
                lemma_transplant_keys::<T>(t);
            } else {
                let next = right.leftmost()->key;
                lemma_leftmost::<T, NodeColor>(*right);
                lemma_delete_node_keys::<T>(*right, next);
                let (sub, short) = delete_node_spec::<T>(*right, next);
                let q = Shape::fork(tag, *left, next, sub);
                lemma_delete_fix_keeps(q, Direction::Right);
                assert(T::lt(key, next));
                assert forall|x: T::V| #[trigger] left.inorder().contains(x) implies T::lt(
                    x,
                    next,
                ) by {
                    T::lt_transitive(x, key, next);
                }
                assert(above::<T>(sub.inorder(), next));
                lemma_search_tree_fork::<T, NodeColor>(q);
                assert forall|x: T::V|
                    #![trigger out.inorder().contains(x)]
                    #![trigger t.inorder().contains(x)]
                    out.contains(x) <==> (t.contains(x) && x != k) by {
                    lemma_fork_contains(q, x);
                    lemma_fork_contains(t, x);
                    if left.contains(x) {
                        lemma_lt_asymmetric::<T>(x, key);
                    }
                    if right.contains(x) {
                        lemma_lt_asymmetric::<T>(key, x);
                    }
                }
            }
        },
    }
}

/// The repair below a black sibling restores the colour rules. Where the
/// parent is black the result may be one black fork short; where it is red
/// the result is not.
pub proof fn lemma_fix_black_sibling_colors<K>(p: RbShape<K>, side: Direction)
    requires
        short_on(p, side),
        !is_red(sibling_on(p, side)),
    ensures
        repaired(
            fix_black_sibling_spec(p, side).0,
            fix_black_sibling_spec(p, side).1,
            black_height(sibling_on(p, side)) + black_weight(p),
            is_red(p),
        ),
        is_red(p) ==> !fix_black_sibling_spec(p, side).1,
{
    reveal_with_fuel(balanced, 4);
    reveal_with_fuel(black_height, 4);
    reveal_with_fuel(no_red_red, 4);
}

/// The repair above a short subtree restores the colour rules; the result may
/// be one black fork short.
pub proof fn lemma_delete_fix_colors<K>(p: RbShape<K>, side: Direction)
    requires
        short_on(p, side),
    ensures
        repaired(
            delete_fix_spec(p, side).0,
            delete_fix_spec(p, side).1,
            black_height(sibling_on(p, side)) + black_weight(p),
            is_red(p),
        ),
{
    let red = NodeColor::Red;
    let black = NodeColor::Black;
    let s = sibling_on(p, side);
    if is_red(s) {
        reveal_with_fuel(balanced, 3);
        reveal_with_fuel(black_height, 3);
        reveal_with_fuel(no_red_red, 3);
        match side {
            Direction::Left => {
                let turned = Shape::fork(red, p.left(), p->key, s.retag(black)).rotate_left();
                lemma_fix_black_sibling_colors(turned.left(), side);
            },
            Direction::Right => {
                let turned = Shape::fork(red, s.retag(black), p->key, p.right()).rotate_right();
                lemma_fix_black_sibling_colors(turned.right(), side);
            },
        }
    } else {
        lemma_fix_black_sibling_colors(p, side);
    }
}

/// Taking out a fork with at most one child keeps the colour rules; the result
/// may be one black fork short.
pub proof fn lemma_transplant_colors<K>(z: RbShape<K>)
    requires
        z is Fork,
        z.left() is Nil || z.right() is Nil,
        no_red_red(z),
        balanced(z),
    ensures
        repaired(transplant_spec(z).0, transplant_spec(z).1, black_height(z), is_red(z)),
{
    reveal_with_fuel(balanced, 3);
    reveal_with_fuel(black_height, 3);
    reveal_with_fuel(no_red_red, 3);
}

/// Deletion keeps the colour rules below the root and never turns a black
/// root red; the result may be one black fork short.
pub proof fn lemma_delete_node_colors<T: Key>(t: RbShape<T::V>, k: T::V)
    requires
        no_red_red(t),
        balanced(t),
    ensures
        repaired(
            delete_node_spec::<T>(t, k).0,
            delete_node_spec::<T>(t, k).1,
            black_height(t),
            is_red(t),
        ),
    decreases t,
{
    match t {
        Shape::Nil => {},
        Shape::Fork { tag, left, key, right } => {
            if T::lt(k, key) {
                lemma_delete_node_colors::<T>(*left, k);
                let (sub, short) = delete_node_spec::<T>(*left, k);
                let q = Shape::fork(tag, sub, key, *right);
                if short {
                    lemma_delete_fix_colors(q, Direction::Left);
                }
            } else if T::lt(key, k) {
                lemma_delete_node_colors::<T>(*right, k);
                let (sub, short) = delete_node_spec::<T>(*right, k);
                let q = Shape::fork(tag, *left, key, sub);
                if short {
                    lemma_delete_fix_colors(q, Direction::Right);
                }
            } else if *left is Nil || *right is Nil {
                lemma_transplant_colors(t);
            } else {
                let next = right.leftmost()->key;
                lemma_delete_node_colors::<T>(*right, next);
                let (sub, short) = delete_node_spec::<T>(*right, next);
                let q = Shape::fork(tag, *left, next, sub);
                if short {
                    lemma_delete_fix_colors(q, Direction::Right);
                }
            }
        },
    }
}

/// Takes the node `z`, which has at most one child, out of the tree. Returns
/// the child that comes into its place, and whether that place is now one
/// black node short.
pub fn transplant<T: Key>(z: Box<Node<T, NodeColor>>) -> (out: (Link<T, NodeColor>, bool))
    ensures
        (shape_of(out.0), out.1) == transplant_spec(z@),
{
    let mut z = z;
    let mut x = if z.left.is_none() {
        z.right.take()
    } else {
        z.left.take()
    };
    match z.tag {
        NodeColor::Red => (x, false),
        NodeColor::Black => {
            if is_red_link(&x) {
                paint(&mut x, NodeColor::Black);
                (x, false)
            } else {
                (x, true)
            }
        },
    }
}

/// Repairs the colours at the parent `p`, whose subtree on `side` is one black
/// node short and whose other child is black. Returns the repaired subtree, and
/// whether it is one black node short itself.
pub fn fix_black_sibling<T: Key>(p: Box<Node<T, NodeColor>>, side: Direction) -> (out: (
    Box<Node<T, NodeColor>>,
    bool,
))
    ensures
        (out.0@, out.1) == fix_black_sibling_spec(p@, side),
{
    proof {
        reveal_with_fuel(Node::shape, 3);
        reveal_with_fuel(shape_of, 3);
    }
    let mut p = p;
    match side {
        Direction::Left => {
            match p.right.take() {
                None => (p, true),
                Some(mut s) => {
                    if !is_red_link(&s.left) && !is_red_link(&s.right) {
                        s.tag = NodeColor::Red;
                        p.right = Some(s);
                        let short = p.tag == NodeColor::Black;
                        p.tag = NodeColor::Black;
                        (p, short)
                    } else {
                        if !is_red_link(&s.right) {
                            paint(&mut s.left, NodeColor::Black);
                            s.tag = NodeColor::Red;
                            s = rotate_right(s);
                        }
                        s.tag = p.tag;
                        p.tag = NodeColor::Black;
                        paint(&mut s.right, NodeColor::Black);
                        p.right = Some(s);
                        (rotate_left(p), false)
                    }
                },
            }
        },
        Direction::Right => {
            match p.left.take() {
                None => (p, true),
                Some(mut s) => {
                    if !is_red_link(&s.left) && !is_red_link(&s.right) {
                        s.tag = NodeColor::Red;
                        p.left = Some(s);
                        let short = p.tag == NodeColor::Black;
                        p.tag = NodeColor::Black;
                        (p, short)
                    } else {
                        if !is_red_link(&s.left) {
                            paint(&mut s.right, NodeColor::Black);
                            s.tag = NodeColor::Red;
                            s = rotate_left(s);
                        }
                        s.tag = p.tag;
                        p.tag = NodeColor::Black;
                        paint(&mut s.left, NodeColor::Black);
                        p.left = Some(s);
                        (rotate_right(p), false)
                    }
                },
            }
        },
    }
}

/// Repairs the colours at the parent `p`, whose subtree on `side` is one black
/// node short. Returns the repaired subtree, and whether it is one black node
/// short itself.
pub fn delete_fix<T: Key>(p: Box<Node<T, NodeColor>>, side: Direction) -> (out: (
    Box<Node<T, NodeColor>>,
    bool,
))
    ensures
        (out.0@, out.1) == delete_fix_spec(p@, side),
{
    proof {
        reveal_with_fuel(Node::shape, 3);
        reveal_with_fuel(shape_of, 3);
    }
    let mut p = p;
    match side {
        Direction::Left => {
            if is_red_link(&p.right) {
                paint(&mut p.right, NodeColor::Black);
                p.tag = NodeColor::Red;
                let mut top = rotate_left(p);
                let low = top.left.take().unwrap();
                let (low, short) = fix_black_sibling(low, side);
                top.left = Some(low);
                (top, short)
            } else {
                fix_black_sibling(p, side)
            }
        },
        Direction::Right => {
            if is_red_link(&p.left) {
                paint(&mut p.left, NodeColor::Black);
                p.tag = NodeColor::Red;
                let mut top = rotate_right(p);
                let low = top.right.take().unwrap();
                let (low, short) = fix_black_sibling(low, side);
                top.right = Some(low);
                (top, short)
            } else {
                fix_black_sibling(p, side)
            }
        },
    }
}

/// Takes `key` out of the tree below `tree` and repairs the colours at every
/// node on the way back. Returns the new subtree, and whether it is one black
/// node short. Where the key is not there, no node is taken out.
pub fn delete_node<T: Key>(tree: Link<T, NodeColor>, key: T) -> (out: (Link<T, NodeColor>, bool))
    ensures
        (shape_of(out.0), out.1) == delete_node_spec::<T>(shape_of(tree), key@),
    decreases tree,
{
    match tree {
        None => (None, false),
        Some(mut node) => {
            match key.compare(&node.key) {
                KeyOrder::Less => {
                    let sub = node.left.take();
                    let (sub, short) = delete_node(sub, key);
                    node.left = sub;
                    if short {
                        let (top, short) = delete_fix(node, Direction::Left);
                        (Some(top), short)
                    } else {
                        (Some(node), false)
                    }
                },
                KeyOrder::Greater => {
                    proof {
                        lemma_lt_asymmetric::<T>(node.key@, key@);
                    }
                    let sub = node.right.take();
                    let (sub, short) = delete_node(sub, key);
                    node.right = sub;
                    if short {
                        let (top, short) = delete_fix(node, Direction::Right);
                        (Some(top), short)
                    } else {
                        (Some(node), false)
                    }
                },
                KeyOrder::Equal => {
                    proof {
                        T::lt_irreflexive(key@);
                    }
                    if node.left.is_none() || node.right.is_none() {
                        transplant(node)
                    } else {
                        proof {
                            lemma_leftmost::<T, NodeColor>(shape_of(node.right));
                        }
                        let next = find_min(&node.right).unwrap().key;
                        let sub = node.right.take();
                        let (sub, short) = delete_node(sub, next);
                        node.key = next;
                        node.right = sub;
                        if short {
                            let (top, short) = delete_fix(node, Direction::Right);
                            (Some(top), short)
                        } else {
                            (Some(node), false)
                        }
                    }
                },
            }
        },
    }
}

} // verus!
