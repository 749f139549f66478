//! The red-black engine: an ordered set of keys in a tree whose colour rules
//! keep its height logarithmic.

use vstd::arithmetic::logarithm::log;
use vstd::prelude::*;
use crate::key::Key;
use crate::node::{
    borrow_link,
    clone_link,
    find_max,
    find_min,
    search_node,
    shape_at,
    shape_of,
    Link,
};
pub use crate::node::Node;
use crate::order::{gains, increasing, loses};
use crate::traverse::{inorder, leaves, levelorder, levels, preorder, views};
use crate::rbtree::delete::{
    delete_node,
    delete_spec,
    lemma_delete_node_colors,
    lemma_delete_node_keys,
};
use crate::rbtree::insert::{
    insert_node,
    insert_spec,
    lemma_insert_node_colors,
    lemma_insert_node_keys,
    paint,
};
use crate::rbtree::laws::{law_delete_absent, law_height_bound, law_insert_present};
use crate::rbtree::model::{red_black, RbShape};
pub use crate::rbtree::model::NodeColor;
use crate::shape::{
    find,
    lemma_find,
    lemma_inorder_len,
    lemma_leftmost,
    lemma_retag_keeps,
    lemma_rightmost,
    search_tree,
    Shape,
};

pub mod delete;
pub mod insert;
pub mod laws;
pub mod model;

verus! {

impl<T: Key> Node<T, NodeColor> {
    /// A red node without children that holds `key`.
    pub fn new(key: T) -> (node: Link<T, NodeColor>)
        ensures
            shape_of(node) == RbShape::<T::V>::fork(NodeColor::Red, Shape::Nil, key@, Shape::Nil),
    {
        let node = Node { tag: NodeColor::Red, key, left: None, right: None };
        assert(node.shape() == RbShape::<T::V>::fork(NodeColor::Red, Shape::Nil, key@, Shape::Nil));
        Some(Box::new(node))
    }

    /// The colour of this node.
    pub fn color(&self) -> (c: NodeColor)
        ensures
            c == self@->tag,
    {
        self.tag
    }
}

/// An ordered set of keys, kept as a red-black tree.
#[derive(Debug)]
pub struct RBTree<T: Key> {
    root: Link<T, NodeColor>,
    count: u32,
}

impl<T: Key> View for RBTree<T> {
    type V = RbShape<T::V>;

    closed spec fn view(&self) -> RbShape<T::V> {
        shape_of(self.root)
    }
}

impl<T: Key> Clone for RBTree<T> {
    /// A copy of the whole tree.
    fn clone(&self) -> (copy: Self)
        ensures
            copy@ == self@,
            copy.count() == self.count(),
    {
        RBTree { root: clone_link(&self.root), count: self.count }
    }
}

impl<T: Key> RBTree<T> {
    /// The number of keys that the tree counts.
    pub closed spec fn spec_count(&self) -> u32 {
        self.count
    }

    /// The tree is a search tree, obeys the colour rules, and counts its keys.
    pub open spec fn wf(self) -> bool {
        &&& search_tree::<T, NodeColor>(self@)
        &&& red_black(self@)
        &&& self.count() == self@.size()
    }

    /// An empty tree.
    pub fn new() -> (tree: Self)
        ensures
            tree.wf(),
            tree@ is Nil,
            tree.count() == 0,
    {
        RBTree { root: None, count: 0 }
    }

    /// The number of keys in the tree.
    #[verifier::when_used_as_spec(spec_count)]
    pub fn count(&self) -> (n: u32)
        ensures
            n == self.spec_count(),
    {
        self.count
    }

    /// Whether the tree holds no key.
    pub fn is_empty(&self) -> (empty: bool)
        ensures
            empty == (self@ is Nil),
            self.wf() ==> empty == (self.count() == 0),
    {
        self.root.is_none()
    }

    /// The root node, if the tree is not empty.
    pub fn root(&self) -> (node: Option<&Node<T, NodeColor>>)
        ensures
            shape_at(node) == self@,
    {
        borrow_link(&self.root)
    }

    /// Looks `key` up by a descent from the root. Gives the node that holds it,
    /// or nothing where the tree does not contain it.
    pub fn search(&self, key: T) -> (found: Option<&Node<T, NodeColor>>)
        requires
            self.wf(),
        ensures
            found is Some <==> self@.contains(key@),
            found is Some ==> found.unwrap().key@ == key@,
            shape_at(found) == find::<T, NodeColor>(self@, key@),
    {
        proof {
            lemma_find::<T, NodeColor>(self@, key@);
        }
        search_node(&self.root, &key)
    }

    /// Adds `key` to the tree. A key that the tree holds already changes nothing.
    /// Returns whether the key was added.
    pub fn insert(&mut self, key: T) -> (added: bool)
        requires
            old(self).wf(),
            old(self).count() < u32::MAX || old(self)@.contains(key@),
        ensures
            final(self).wf(),
            added == !old(self)@.contains(key@),
            final(self)@ == insert_spec::<T>(old(self)@, key@),
            !added ==> final(self)@ == old(self)@,
            final(self)@.keys() == old(self)@.keys().insert(key@),
            final(self).count() == old(self).count() + if added {
                1nat
            } else {
                0nat
            },
    {
        if self.search(key).is_none() {
            proof {
                lemma_insert_node_keys::<T>(self@, key@);
                lemma_insert_node_colors::<T>(self@, key@);
                lemma_retag_keeps(
                    crate::rbtree::insert::insert_node_spec::<T>(self@, key@),
                    NodeColor::Black,
                );
            }
            let root = self.root.take();
            let mut grown = insert_node(root, key);
            paint(&mut grown, NodeColor::Black);
            self.root = grown;
            self.count = self.count + 1;
            proof {
                assert(gains(self@.inorder(), old(self)@.inorder(), key@));
                assert(self@.keys() =~= old(self)@.keys().insert(key@));
            }
            true
        } else {
            proof {
                law_insert_present::<T>(self@, key@);
                assert(self@.keys() =~= old(self)@.keys().insert(key@));
            }
            false
        }
    }

    /// Takes `key` out of the tree. A key that the tree does not hold changes
    /// nothing. Returns whether the key was taken out.
    pub fn delete(&mut self, key: T) -> (removed: bool)
        requires
            old(self).wf(),
        ensures
            final(self).wf(),
            removed == old(self)@.contains(key@),
            final(self)@ == delete_spec::<T>(old(self)@, key@),
            !removed ==> final(self)@ == old(self)@,
            final(self)@.keys() == old(self)@.keys().remove(key@),
            final(self).count() + if removed {
                1nat
            } else {
                0nat
            } == old(self).count(),
    {
        if self.search(key).is_some() {
            proof {
                lemma_delete_node_keys::<T>(self@, key@);
                lemma_delete_node_colors::<T>(self@, key@);
                lemma_inorder_len(self@);
            }
            let root = self.root.take();
            let (rest, _) = delete_node(root, key);
            self.root = rest;
            self.count = self.count - 1;
            proof {
                assert(loses(self@.inorder(), old(self)@.inorder(), key@));
                assert(self@.keys() =~= old(self)@.keys().remove(key@));
            }
            true
        } else {
            proof {
                law_delete_absent::<T>(self@, key@);
                assert(self@.keys() =~= old(self)@.keys().remove(key@));
            }
            false
        }
    }

    /// The number of nodes without children.
    pub fn leaves(&self) -> (n: u32)
        requires
            self.wf(),
        ensures
            n == self@.leaves(),
    {
        leaves(&self.root)
    }

    /// The number of edges on the longest path from the root downwards: 0 for
    /// the empty tree and for a tree of one node.
    pub fn height(&self) -> (h: u32)
        requires
            self.wf(),
        ensures
            h == self@.height(),
            h <= 2 * log(2, self.count() + 1),
    {
        proof {
            law_height_bound(self@);
        }
        let n = levels(&self.root);
        if n == 0 {
            0
        } else {
            n - 1
        }
    }

    /// The keys in ascending order.
    pub fn inorder(&self) -> (keys: Vec<T>)
        requires
            self.wf(),
        ensures
            views(keys@) == self@.inorder(),
            increasing::<T>(views(keys@)),
            keys@.len() == self.count(),
    {
        proof {
            lemma_inorder_len(self@);
        }
        let keys = inorder(&self.root);
        assert(views(keys@).len() == keys@.len());
        keys
    }

    /// The keys root first: the root, then the left subtree, then the right one.
    pub fn preorder(&self) -> (keys: Vec<T>)
        ensures
            views(keys@) == self@.preorder(),
    {
        preorder(&self.root)
    }

    /// The keys in breadth-first order: level by level from the root, each level
    /// from left to right.
    pub fn levelorder(&self) -> (keys: Vec<T>)
        ensures
            views(keys@) == self@.levelorder(),
    {
        levelorder(&self.root)
    }

    /// The node with the smallest key, if the tree is not empty.
    pub fn min(&self) -> (found: Option<&Node<T, NodeColor>>)
        requires
            self.wf(),
        ensures
            found is None <==> self@ is Nil,
            shape_at(found) == self@.leftmost(),
            found is Some ==> self@.contains(found.unwrap().key@),
            found is Some ==> forall|x: T::V| #[trigger]
                self@.inorder().contains(x) ==> x == found.unwrap().key@ || T::lt(
                    found.unwrap().key@,
                    x,
                ),
    {
        proof {
            if self@ is Fork {
                lemma_leftmost::<T, NodeColor>(self@);
            }
        }
        find_min(&self.root)
    }

    /// The node with the greatest key, if the tree is not empty.
    pub fn max(&self) -> (found: Option<&Node<T, NodeColor>>)
        requires
            self.wf(),
        ensures
            found is None <==> self@ is Nil,
            shape_at(found) == self@.rightmost(),
            found is Some ==> self@.contains(found.unwrap().key@),
            found is Some ==> forall|x: T::V| #[trigger]
                self@.inorder().contains(x) ==> x == found.unwrap().key@ || T::lt(
                    x,
                    found.unwrap().key@,
                ),
    {
        proof {
            if self@ is Fork {
                lemma_rightmost::<T, NodeColor>(self@);
            }
        }
        find_max(&self.root)
    }
}

} // verus!
