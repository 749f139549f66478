//! The AVL engine: an ordered set of keys in a tree whose subtrees differ by at
//! most one level at every node.

use vstd::arithmetic::logarithm::log;
use vstd::prelude::*;
use crate::avltree::laws::{law_delete_absent, law_height_bound, law_insert_present};
use crate::avltree::model::{
    avl,
    delete_node_spec,
    insert_node_spec,
    lemma_delete_node,
    lemma_insert_node,
    rebalance_spec,
    refresh,
    stored,
    turn_left,
    turn_right,
    AvlShape,
};
use crate::key::{Key, KeyOrder};
use crate::node::{
    borrow_link,
    clone_link,
    find_max,
    find_min,
    rotate_left,
    rotate_right,
    search_node,
    shape_at,
    shape_of,
    Link,
};
pub use crate::node::Node;
use crate::order::{gains, increasing, lemma_lt_asymmetric, loses};
use crate::shape::{
    find,
    lemma_find,
    lemma_inorder_len,
    lemma_leftmost,
    lemma_rightmost,
    search_tree,
};
use crate::traverse::{inorder, leaves, levelorder, levels, preorder, views};

pub mod laws;
pub mod model;

verus! {

/// The number of levels that the node at `link` stores; 0 for no node.
pub fn stored_levels<T: Key>(link: &Link<T, u32>) -> (n: u32)
    ensures
        n == stored(shape_of(*link)),
{
    match link {
        Some(node) => node.tag,
        None => 0,
    }
}

/// Sets the number of levels that `node` stores from what its children store.
pub fn refresh_node<T: Key>(node: Box<Node<T, u32>>) -> (out: Box<Node<T, u32>>)
    ensures
        out@ == refresh(node@),
{
    let mut node = node;
    let l = stored_levels(&node.left);
    let r = stored_levels(&node.right);
    let m = if l >= r {
        l
    } else {
        r
    };
    node.tag = if m < u32::MAX {
        m + 1
    } else {
        u32::MAX
    };
    node
}

/// Rotates `pivot` to the left and sets the stored levels of the two nodes
/// that changed their subtrees.
pub fn rotate_left_levels<T: Key>(pivot: Box<Node<T, u32>>) -> (top: Box<Node<T, u32>>)
    requires
        pivot.right is Some,
    ensures
        top@ == turn_left(pivot@),
{
    proof {
        reveal_with_fuel(Node::shape, 3);
        reveal_with_fuel(shape_of, 3);
    }
    let mut top = rotate_left(pivot);
    let low = top.left.take().unwrap();
    top.left = Some(refresh_node(low));
    refresh_node(top)
}

/// Rotates `pivot` to the right and sets the stored levels of the two nodes
/// that changed their subtrees.
pub fn rotate_right_levels<T: Key>(pivot: Box<Node<T, u32>>) -> (top: Box<Node<T, u32>>)
    requires
        pivot.left is Some,
    ensures
        top@ == turn_right(pivot@),
{
    proof {
        reveal_with_fuel(Node::shape, 3);
        reveal_with_fuel(shape_of, 3);
    }
    let mut top = rotate_right(pivot);
    let low = top.right.take().unwrap();
    top.right = Some(refresh_node(low));
    refresh_node(top)
}

/// Repairs the balance at `node` after a key came or went below it: rotates
/// where one subtree stores two levels more than the other, and sets the
/// stored number of levels.
pub fn rebalance<T: Key>(node: Box<Node<T, u32>>) -> (top: Box<Node<T, u32>>)
    ensures
        top@ == rebalance_spec(node@),
{
    proof {
        reveal_with_fuel(Node::shape, 3);
        reveal_with_fuel(shape_of, 3);
    }
    let mut node = node;
    let l = stored_levels(&node.left);
    let r = stored_levels(&node.right);
    if l > r && l - r > 1 {
        let mut heavy = node.left.take().unwrap();
        if stored_levels(&heavy.left) < stored_levels(&heavy.right) {
            heavy = rotate_left_levels(heavy);
        }
        node.left = Some(heavy);
        rotate_right_levels(node)
    } else if r > l && r - l > 1 {
        let mut heavy = node.right.take().unwrap();
        if stored_levels(&heavy.right) < stored_levels(&heavy.left) {
            heavy = rotate_right_levels(heavy);
        }
        node.right = Some(heavy);
        rotate_left_levels(node)
    } else {
        refresh_node(node)
    }
}

/// Places `key` below `tree` as a leaf, by an ordinary descent, and repairs the
/// balance at every node on the way back. A key that is there already is not
/// placed again.
pub fn insert_node<T: Key>(tree: Link<T, u32>, key: T) -> (grown: Link<T, u32>)
    ensures
        shape_of(grown) == insert_node_spec::<T>(shape_of(tree), key@),
    decreases tree,
{
    match tree {
        None => Some(Box::new(Node { tag: 1, key, left: None, right: None })),
        Some(mut node) => {
            match key.compare(&node.key) {
                KeyOrder::Less => {
                    let sub = node.left.take();
                    node.left = insert_node(sub, key);
                    Some(rebalance(node))
                },
                KeyOrder::Greater => {
                    proof {
                        lemma_lt_asymmetric::<T>(node.key@, key@);
                    }
                    let sub = node.right.take();
                    node.right = insert_node(sub, key);
                    Some(rebalance(node))
                },
                KeyOrder::Equal => {
                    proof {
                        T::lt_irreflexive(key@);
                    }
                    Some(node)
                },
            }
        },
    }
}

/// Takes `key` out of the tree below `tree` and repairs the balance at every
/// node on the way back. Where the key is not there, no node is taken out.
pub fn delete_node<T: Key>(tree: Link<T, u32>, key: T) -> (rest: Link<T, u32>)
    ensures
        shape_of(rest) == delete_node_spec::<T>(shape_of(tree), key@),
    decreases tree,
{
    match tree {
        None => None,
        Some(mut node) => {
            match key.compare(&node.key) {
                KeyOrder::Less => {
                    let sub = node.left.take();
                    node.left = delete_node(sub, key);
                    Some(rebalance(node))
                },
                KeyOrder::Greater => {
                    proof {
                        lemma_lt_asymmetric::<T>(node.key@, key@);
                    }
                    let sub = node.right.take();
                    node.right = delete_node(sub, key);
                    Some(rebalance(node))
                },
                KeyOrder::Equal => {
                    proof {
                        T::lt_irreflexive(key@);
                    }
                    if node.left.is_none() {
                        node.right.take()
                    } else if node.right.is_none() {
                        node.left.take()
                    } else {
                        proof {
                            lemma_leftmost::<T, u32>(shape_of(node.right));
                        }
                        let next = find_min(&node.right).unwrap().key;
                        let sub = node.right.take();
                        node.right = delete_node(sub, next);
                        node.key = next;
                        Some(rebalance(node))
                    }
                },
            }
        },
    }
}

/// An ordered set of keys, kept as an AVL tree.
#[derive(Debug)]
pub struct AvlTree<T: Key> {
    root: Link<T, u32>,
    count: u32,
}

impl<T: Key> View for AvlTree<T> {
    type V = AvlShape<T::V>;

    closed spec fn view(&self) -> AvlShape<T::V> {
        shape_of(self.root)
    }
}

impl<T: Key> Clone for AvlTree<T> {
    /// A copy of the whole tree.
    fn clone(&self) -> (copy: Self)
        ensures
            copy@ == self@,
            copy.count() == self.count(),
    {
        AvlTree { root: clone_link(&self.root), count: self.count }
    }
}

impl<T: Key> AvlTree<T> {
    /// The number of keys that the tree counts.
    pub closed spec fn spec_count(&self) -> u32 {
        self.count
    }

    /// The tree is a search tree, obeys the balance rule, and counts its keys.
    pub open spec fn wf(self) -> bool {
        &&& search_tree::<T, u32>(self@)
        &&& avl(self@)
        &&& self.count() == self@.size()
    }

    /// An empty tree.
    pub fn new() -> (tree: Self)
        ensures
            tree.wf(),
            tree@ is Nil,
            tree.count() == 0,
    {
        AvlTree { root: None, count: 0 }
    }

    /// The number of keys in the tree.
    #[verifier::when_used_as_spec(spec_count)]
    pub fn count(&self) -> (n: u32)
        ensures
            n == self.spec_count(),
    {
        self.count
    }

    /// Whether the tree holds no key.
    pub fn is_empty(&self) -> (empty: bool)
        ensures
            empty == (self@ is Nil),
            self.wf() ==> empty == (self.count() == 0),
    {
        self.root.is_none()
    }

    /// The root node, if the tree is not empty.
    pub fn root(&self) -> (node: Option<&Node<T, u32>>)
        ensures
            shape_at(node) == self@,
    {
        borrow_link(&self.root)
    }

    /// Looks `key` up by a descent from the root. Gives the node that holds it,
    /// or nothing where the tree does not contain it.
    pub fn search(&self, key: T) -> (found: Option<&Node<T, u32>>)
        requires
            self.wf(),
        ensures
            found is Some <==> self@.contains(key@),
            found is Some ==> found.unwrap().key@ == key@,
            shape_at(found) == find::<T, u32>(self@, key@),
    {
        proof {
            lemma_find::<T, u32>(self@, key@);
        }
        search_node(&self.root, &key)
    }

    /// Adds `key` to the tree. A key that the tree holds already changes nothing.
    /// Returns whether the key was added.
    pub fn insert(&mut self, key: T) -> (added: bool)
        requires
            old(self).wf(),
            old(self).count() < u32::MAX || old(self)@.contains(key@),
        ensures
            final(self).wf(),
            added == !old(self)@.contains(key@),
            final(self)@ == insert_node_spec::<T>(old(self)@, key@),
            !added ==> final(self)@ == old(self)@,
            final(self)@.keys() == old(self)@.keys().insert(key@),
            final(self).count() == old(self).count() + if added {
                1nat
            } else {
                0nat
            },
    {
        if self.search(key).is_none() {
            proof {
                lemma_insert_node::<T>(self@, key@);
            }
            let root = self.root.take();
            self.root = insert_node(root, key);
            self.count = self.count + 1;
            proof {
                assert(gains(self@.inorder(), old(self)@.inorder(), key@));
                assert(self@.keys() =~= old(self)@.keys().insert(key@));
            }
            true
        } else {
            proof {
                law_insert_present::<T>(self@, key@);
                assert(self@.keys() =~= old(self)@.keys().insert(key@));
            }
            false
        }
    }

    /// Takes `key` out of the tree. A key that the tree does not hold changes
    /// nothing. Returns whether the key was taken out.
    pub fn delete(&mut self, key: T) -> (removed: bool)
        requires
            old(self).wf(),
        ensures
            final(self).wf(),
            removed == old(self)@.contains(key@),
            final(self)@ == delete_node_spec::<T>(old(self)@, key@),
            !removed ==> final(self)@ == old(self)@,
            final(self)@.keys() == old(self)@.keys().remove(key@),
            final(self).count() + if removed {
                1nat
            } else {
                0nat
            } == old(self).count(),
    {
        if self.search(key).is_some() {
            proof {
                lemma_delete_node::<T>(self@, key@);
                lemma_inorder_len(self@);
            }
            let root = self.root.take();
            self.root = delete_node(root, key);
            self.count = self.count - 1;
            proof {
                assert(loses(self@.inorder(), old(self)@.inorder(), key@));
                assert(self@.keys() =~= old(self)@.keys().remove(key@));
            }
            true
        } else {
            proof {
                law_delete_absent::<T>(self@, key@);
                assert(self@.keys() =~= old(self)@.keys().remove(key@));
            }
            false
        }
    }

    /// The number of nodes without children.
    pub fn leaves(&self) -> (n: u32)
        requires
            self.wf(),
        ensures
            n == self@.leaves(),
    {
        leaves(&self.root)
    }

    /// The number of edges on the longest path from the root downwards: 0 for
    /// the empty tree and for a tree of one node.
    pub fn height(&self) -> (h: u32)
        requires
            self.wf(),
        ensures
            h == self@.height(),
            9 * (h / 13) <= log(2, self.count() + 1),
    {
        proof {
            law_height_bound(self@);
        }
        let n = stored_levels(&self.root);
        if n == 0 {
            0
        } else {
            n - 1
        }
    }

    /// The keys in ascending order.
    pub fn inorder(&self) -> (keys: Vec<T>)
        requires
            self.wf(),
        ensures
            views(keys@) == self@.inorder(),
            increasing::<T>(views(keys@)),
            keys@.len() == self.count(),
    {
        proof {
            lemma_inorder_len(self@);
        }
        let keys = inorder(&self.root);
        assert(views(keys@).len() == keys@.len());
        keys
    }

    /// The keys root first: the root, then the left subtree, then the right one.
    pub fn preorder(&self) -> (keys: Vec<T>)
        ensures
            views(keys@) == self@.preorder(),
    {
        preorder(&self.root)
    }

    /// The keys in breadth-first order: level by level from the root, each level
    /// from left to right.
    pub fn levelorder(&self) -> (keys: Vec<T>)
        ensures
            views(keys@) == self@.levelorder(),
    {
        levelorder(&self.root)
    }

    /// The node with the smallest key, if the tree is not empty.
    pub fn min(&self) -> (found: Option<&Node<T, u32>>)
        requires
            self.wf(),
        ensures
            found is None <==> self@ is Nil,
            shape_at(found) == self@.leftmost(),
            found is Some ==> self@.contains(found.unwrap().key@),
            found is Some ==> forall|x: T::V| #[trigger]
                self@.inorder().contains(x) ==> x == found.unwrap().key@ || T::lt(
                    found.unwrap().key@,
                    x,
                ),
    {
        proof {
            if self@ is Fork {
                lemma_leftmost::<T, u32>(self@);
            }
        }
        find_min(&self.root)
    }

    /// The node with the greatest key, if the tree is not empty.
    pub fn max(&self) -> (found: Option<&Node<T, u32>>)
        requires
            self.wf(),
        ensures
            found is None <==> self@ is Nil,
            shape_at(found) == self@.rightmost(),
            found is Some ==> self@.contains(found.unwrap().key@),
            found is Some ==> forall|x: T::V| #[trigger]
                self@.inorder().contains(x) ==> x == found.unwrap().key@ || T::lt(
                    x,
                    found.unwrap().key@,
                ),
    {
        proof {
            if self@ is Fork {
                lemma_rightmost::<T, u32>(self@);
            }
        }
        find_max(&self.root)
    }
}

} // verus!
