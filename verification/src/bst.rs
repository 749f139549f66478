//! A search tree that is never rebalanced. Its height is whatever the order of
//! insertions makes it, so neither insertion nor search recurses.

use vstd::prelude::*;
use crate::key::{Key, KeyOrder};
use crate::node::{borrow_link, clone_link, search_node, shape_at, shape_of, Link};
pub use crate::node::Node;
use crate::order::{above, below, gains, lemma_lt_asymmetric};
use crate::shape::{
    find,
    lemma_find,
    lemma_fork_contains,
    lemma_search_tree_fork,
    search_tree,
    Direction,
    Shape,
};

verus! {

/// A binary tree without tags, as a mathematical value.
pub type PlainShape<K> = Shape<K, ()>;

/// The tree `t` after `k` was placed in it as a leaf by an ordinary descent.
/// A tree that holds `k` already is left as it is.
pub open spec fn insert_spec<T: Key>(t: PlainShape<T::V>, k: T::V) -> PlainShape<T::V>
    decreases t,
{
    match t {
        Shape::Nil => Shape::fork((), Shape::Nil, k, Shape::Nil),
        Shape::Fork { tag, left, key, right } => if T::lt(k, key) {
            Shape::fork(tag, insert_spec::<T>(*left, k), key, *right)
        } else if T::lt(key, k) {
            Shape::fork(tag, *left, key, insert_spec::<T>(*right, k))
        } else {
            t
        },
    }
}

/// The fork `parent` with `sub` as its child on `side`.
pub open spec fn hang<K>(parent: PlainShape<K>, side: Direction, sub: PlainShape<K>) -> PlainShape<
    K,
> {
    match side {
        Direction::Left => Shape::fork((), sub, parent->key, parent.right()),
        Direction::Right => Shape::fork((), parent.left(), parent->key, sub),
    }
}

/// The tree that comes of hanging `sub` below the last fork of `path`, the
/// result below the fork before it, and so on up to the first.
pub open spec fn rebuild<K>(path: Seq<(PlainShape<K>, Direction)>, sub: PlainShape<K>) -> PlainShape<
    K,
>
    decreases path.len(),
{
    if path.len() == 0 {
        sub
    } else {
        rebuild(path.drop_last(), hang(path.last().0, path.last().1, sub))
    }
}

/// The forks of a path of nodes, each with the side on which the path goes on.
pub open spec fn path_shapes<T: Key>(path: Seq<(Box<Node<T, ()>>, Direction)>) -> Seq<
    (PlainShape<T::V>, Direction),
> {
    path.map_values(|step: (Box<Node<T, ()>>, Direction)| (step.0.shape(), step.1))
}

/// Insertion into a search tree gives a search tree that holds the old keys
/// and `k`, one fork larger unless `k` was there.
pub proof fn lemma_insert<T: Key>(t: PlainShape<T::V>, k: T::V)
    requires
        search_tree::<T, ()>(t),
    ensures
        search_tree::<T, ()>(insert_spec::<T>(t, k)),
        gains(insert_spec::<T>(t, k).inorder(), t.inorder(), k),
        insert_spec::<T>(t, k).size() == t.size() + if t.contains(k) {
            0nat
        } else {
            1nat
        },
    decreases t,
{
    let out = insert_spec::<T>(t, k);
    match t {
        Shape::Nil => {
            assert(out.inorder() =~= seq![k]);
            assert(out.inorder()[0] == k);
            assert(t.inorder() =~= Seq::<T::V>::empty());
            reveal_with_fuel(Shape::size, 2);
        },
        Shape::Fork { tag, left, key, right } => {
            lemma_search_tree_fork::<T, ()>(t);
            T::lt_connected(k, key);
            lemma_fork_contains(t, k);
            if T::lt(k, key) {
                lemma_lt_asymmetric::<T>(k, key);
                lemma_insert::<T>(*left, k);
                assert(below::<T>(insert_spec::<T>(*left, k).inorder(), key));
                lemma_search_tree_fork::<T, ()>(out);
                assert forall|x: T::V|
                    #![trigger out.inorder().contains(x)]
                    #![trigger t.inorder().contains(x)]
                    out.contains(x) <==> (t.contains(x) || x == k) by {
                    lemma_fork_contains(out, x);
                    lemma_fork_contains(t, x);
                }
                if right.contains(k) {
                    assert(T::lt(key, k));
                }
            } else if T::lt(key, k) {
                lemma_lt_asymmetric::<T>(key, k);
                lemma_insert::<T>(*right, k);
                assert(above::<T>(insert_spec::<T>(*right, k).inorder(), key));
                lemma_search_tree_fork::<T, ()>(out);
                assert forall|x: T::V|
                    #![trigger out.inorder().contains(x)]
                    #![trigger t.inorder().contains(x)]
                    out.contains(x) <==> (t.contains(x) || x == k) by {
                    lemma_fork_contains(out, x);
                    lemma_fork_contains(t, x);
                }
                if left.contains(k) {
                    assert(T::lt(k, key));
                }
            }
        },
    }
}

impl<T: Key> Node<T, ()> {
    /// A node without children that holds `key`.
    pub fn new(key: T) -> (node: Link<T, ()>)
        ensures
            shape_of(node) == PlainShape::<T::V>::fork((), Shape::Nil, key@, Shape::Nil),
    {
        let node = Node { tag: (), key, left: None, right: None };
        assert(node.shape() == PlainShape::<T::V>::fork((), Shape::Nil, key@, Shape::Nil));
        Some(Box::new(node))
    }
}

/// Places `key` below `tree` as a leaf. The descent keeps the nodes that it
/// passes on an explicit stack and hangs them together again on the way back,
/// so that its depth is not bound by the call stack. A key that is there
/// already changes nothing.
pub fn do_insert<T: Key>(tree: Link<T, ()>, key: T) -> (grown: Link<T, ()>)
    ensures
        shape_of(grown) == insert_spec::<T>(shape_of(tree), key@),
{
    let ghost whole = shape_of(tree);
    let mut path: Vec<(Box<Node<T, ()>>, Direction)> = Vec::new();
    let mut cur = tree;
    let mut placed = false;
    assert(path_shapes(path@) =~= Seq::empty());
    while !placed
        invariant
            !placed ==> rebuild(path_shapes(path@), insert_spec::<T>(shape_of(cur), key@))
                == insert_spec::<T>(whole, key@),
            placed ==> rebuild(path_shapes(path@), shape_of(cur)) == insert_spec::<T>(
                whole,
                key@,
            ),
        decreases
                if placed {
                    0nat
                } else {
                    1nat
                },
                shape_of(cur),
    {
        let ghost before = path_shapes(path@);
        match cur {
            None => {
                cur = Node::<T, ()>::new(key);
                placed = true;
            },
            Some(mut node) => {
                let ghost full = node.shape();
                match key.compare(&node.key) {
                    KeyOrder::Less => {
                        cur = node.left.take();
                        proof {
                            assert(hang(node.shape(), Direction::Left, insert_spec::<T>(shape_of(cur), key@))
                                == insert_spec::<T>(full, key@));
                        }
                        path.push((node, Direction::Left));
                    },
                    KeyOrder::Greater => {
                        proof {
                            lemma_lt_asymmetric::<T>(node.key@, key@);
                        }
                        cur = node.right.take();
                        proof {
                            assert(hang(node.shape(), Direction::Right, insert_spec::<T>(shape_of(cur), key@))
                                == insert_spec::<T>(full, key@));
                        }
                        path.push((node, Direction::Right));
                    },
                    KeyOrder::Equal => {
                        proof {
                            T::lt_irreflexive(key@);
                        }
                        cur = Some(node);
                        placed = true;
                    },
                }
                proof {
                    let after = path_shapes(path@);
                    if !placed {
                        assert(after.drop_last() =~= before);
                    } else {
                        assert(after =~= before);
                    }
                }
            },
        }
    }
    while path.len() > 0
        invariant
            rebuild(path_shapes(path@), shape_of(cur)) == insert_spec::<T>(whole, key@),
        decreases path.len(),
    {
        let ghost before = path_shapes(path@);
        let (mut node, side) = path.pop().unwrap();
        proof {
            assert(before.drop_last() =~= path_shapes(path@));
            assert(before.last() == (node.shape(), side));
        }
        match side {
            Direction::Left => {
                node.left = cur;
            },
            Direction::Right => {
                node.right = cur;
            },
        }
        cur = Some(node);
    }
    cur
}

/// An ordered set of keys, kept as a search tree that is never rebalanced.
#[derive(Debug)]
pub struct BST<T: Key> {
    root: Link<T, ()>,
}

impl<T: Key> View for BST<T> {
    type V = PlainShape<T::V>;

    closed spec fn view(&self) -> PlainShape<T::V> {
        shape_of(self.root)
    }
}

impl<T: Key> Clone for BST<T> {
    /// A copy of the whole tree.
    fn clone(&self) -> (copy: Self)
        ensures
            copy@ == self@,
    {
        BST { root: clone_link(&self.root) }
    }
}

impl<T: Key> BST<T> {
    /// The keys of the tree are in order from left to right.
    pub open spec fn wf(self) -> bool {
        search_tree::<T, ()>(self@)
    }

    /// An empty tree.
    pub fn new() -> (tree: Self)
        ensures
            tree.wf(),
            tree@ is Nil,
    {
        BST { root: None }
    }

    /// The root node, if the tree is not empty.
    pub fn root(&self) -> (node: Option<&Node<T, ()>>)
        ensures
            shape_at(node) == self@,
    {
        borrow_link(&self.root)
    }

    /// Adds `key` to the tree as a leaf. A key that the tree holds already
    /// changes nothing.
    pub fn insert(&mut self, key: T)
        requires
            old(self).wf(),
        ensures
            final(self).wf(),
            final(self)@ == insert_spec::<T>(old(self)@, key@),
            final(self)@.keys() == old(self)@.keys().insert(key@),
    {
        proof {
            lemma_insert::<T>(self@, key@);
        }
        let root = self.root.take();
        self.root = do_insert(root, key);
        proof {
            assert(gains(self@.inorder(), old(self)@.inorder(), key@));
            assert(self@.keys() =~= old(self)@.keys().insert(key@));
        }
    }

    /// Looks `key` up by a descent from the root. Gives the node that holds it,
    /// or nothing where the tree does not contain it.
    pub fn search(&self, key: T) -> (found: Option<&Node<T, ()>>)
        requires
            self.wf(),
        ensures
            found is Some <==> self@.contains(key@),
            found is Some ==> found.unwrap().key@ == key@,
            shape_at(found) == find::<T, ()>(self@, key@),
    {
        proof {
            lemma_find::<T, ()>(self@, key@);
        }
        search_node(&self.root, &key)
    }
}

} // verus!
