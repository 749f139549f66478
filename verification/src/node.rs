//! Nodes that own their subtrees, and the operations that every tree shares:
//! rotations, search, and the ends of the two spines.

use vstd::prelude::*;
use crate::key::{Key, KeyOrder};
use crate::shape::{find, lemma_rotate_left_keeps, lemma_rotate_right_keeps, Shape};

verus! {

/// A node of a binary tree: a key, a tag, and the two subtrees it owns.
#[derive(Debug)]
pub struct Node<T: Key, A> {
    pub tag: A,
    pub key: T,
    pub left: Link<T, A>,
    pub right: Link<T, A>,
}

/// An owned subtree, or none.
pub type Link<T, A> = Option<Box<Node<T, A>>>;

impl<T: Key, A> Node<T, A> {
    /// The tree below and including this node, as a mathematical value.
    pub open spec fn shape(self) -> Shape<T::V, A>
        decreases self,
    {
        Shape::fork(self.tag, shape_of(self.left), self.key@, shape_of(self.right))
    }
}

impl<T: Key, A> View for Node<T, A> {
    type V = Shape<T::V, A>;

    open spec fn view(&self) -> Shape<T::V, A> {
        self.shape()
    }
}

/// The tree that a link owns; `Nil` for no tree.
pub open spec fn shape_of<T: Key, A>(link: Link<T, A>) -> Shape<T::V, A>
    decreases link,
{
    match link {
        None => Shape::Nil,
        Some(node) => node.shape(),
    }
}

/// The tree at a borrowed node; `Nil` for none.
pub open spec fn shape_at<T: Key, A>(node: Option<&Node<T, A>>) -> Shape<T::V, A> {
    match node {
        None => Shape::Nil,
        Some(node) => node.shape(),
    }
}

impl<T: Key, A: Copy> Node<T, A> {
    /// The key stored in this node.
    pub fn key(&self) -> (k: T)
        ensures
            k == self.key,
            k@ == self@->key,
    {
        self.key
    }

    /// The tag stored in this node.
    pub fn tag(&self) -> (a: A)
        ensures
            a == self@->tag,
    {
        self.tag
    }

    /// The left child, if there is one.
    pub fn left(&self) -> (child: Option<&Node<T, A>>)
        ensures
            shape_at(child) == self@.left(),
    {
        borrow_link(&self.left)
    }

    /// The right child, if there is one.
    pub fn right(&self) -> (child: Option<&Node<T, A>>)
        ensures
            shape_at(child) == self@.right(),
    {
        borrow_link(&self.right)
    }
}

impl<T: Key, A: Copy> Clone for Node<T, A> {
    /// A copy of the whole subtree.
    fn clone(&self) -> (copy: Self)
        ensures
            copy == *self,
        decreases self,
    {
        Node {
            tag: self.tag,
            key: self.key,
            left: clone_link(&self.left),
            right: clone_link(&self.right),
        }
    }
}

/// A copy of the subtree that a link owns.
pub fn clone_link<T: Key, A: Copy>(link: &Link<T, A>) -> (copy: Link<T, A>)
    ensures
        copy == *link,
    decreases *link,
{
    match link {
        Some(node) => Some(Box::new((&**node).clone())),
        None => None,
    }
}

/// Borrows the node that a link owns.
pub fn borrow_link<T: Key, A>(link: &Link<T, A>) -> (node: Option<&Node<T, A>>)
    ensures
        shape_at(node) == shape_of(*link),
        node is Some <==> *link is Some,
        node is Some ==> *node.unwrap() == *link.unwrap(),
{
    match link {
        Some(boxed) => Some(&**boxed),
        None => None,
    }
}

/// Promotes the right child of `pivot` to its place. The child's left subtree
/// goes to `pivot`, which becomes the child's left child.
pub fn rotate_left<T: Key, A>(pivot: Box<Node<T, A>>) -> (top: Box<Node<T, A>>)
    requires
        pivot.right is Some,
    ensures
        top@ == pivot@.rotate_left(),
        top@.inorder() == pivot@.inorder(),
{
    proof {
        reveal_with_fuel(Node::shape, 3);
        reveal_with_fuel(shape_of, 3);
        lemma_rotate_left_keeps(pivot@);
    }
    let mut pivot = pivot;
    let mut child = pivot.right.take().unwrap();
    pivot.right = child.left.take();
    child.left = Some(pivot);
    child
}

/// Promotes the left child of `pivot` to its place. The child's right subtree
/// goes to `pivot`, which becomes the child's right child.
pub fn rotate_right<T: Key, A>(pivot: Box<Node<T, A>>) -> (top: Box<Node<T, A>>)
    requires
        pivot.left is Some,
    ensures
        top@ == pivot@.rotate_right(),
        top@.inorder() == pivot@.inorder(),
{
    proof {
        reveal_with_fuel(Node::shape, 3);
        reveal_with_fuel(shape_of, 3);
        lemma_rotate_right_keeps(pivot@);
    }
    let mut pivot = pivot;
    let mut child = pivot.left.take().unwrap();
    pivot.left = child.right.take();
    child.right = Some(pivot);
    child
}

/// Descends from `link` towards `key`: left where `key` is smaller than the
/// node's key, right where it is greater. Ends at the node that holds `key`,
/// or with nothing where the descent leaves the tree.
pub fn search_node<'a, T: Key, A>(link: &'a Link<T, A>, key: &T) -> (found: Option<&'a Node<T, A>>)
    ensures
        shape_at(found) == find::<T, A>(shape_of(*link), key@),
{
    let mut cur = borrow_link(link);
    while cur.is_some()
        invariant
            find::<T, A>(shape_at(cur), key@) == find::<T, A>(shape_of(*link), key@),
        ensures
            shape_at(cur) == find::<T, A>(shape_of(*link), key@),
        decreases shape_at(cur),
    {
        let node = cur.unwrap();
        match key.compare(&node.key) {
            KeyOrder::Less => {
                cur = borrow_link(&node.left);
            },
            KeyOrder::Greater => {
                proof {
                    crate::order::lemma_lt_asymmetric::<T>(node.key@, key@);
                }
                cur = borrow_link(&node.right);
            },
            KeyOrder::Equal => {
                proof {
                    T::lt_irreflexive(key@);
                }
                break ;
            },
        }
    }
    cur
}

/// The node at the end of the left spine below `link`.
pub fn find_min<T: Key, A>(link: &Link<T, A>) -> (found: Option<&Node<T, A>>)
    ensures
        shape_at(found) == shape_of(*link).leftmost(),
{
    let mut cur = borrow_link(link);
    if cur.is_none() {
        return None;
    }
    while cur.unwrap().left.is_some()
        invariant
            cur is Some,
            shape_at(cur).leftmost() == shape_of(*link).leftmost(),
        decreases shape_at(cur),
    {
        cur = borrow_link(&cur.unwrap().left);
    }
    cur
}

/// The node at the end of the right spine below `link`.
pub fn find_max<T: Key, A>(link: &Link<T, A>) -> (found: Option<&Node<T, A>>)
    ensures
        shape_at(found) == shape_of(*link).rightmost(),
{
    let mut cur = borrow_link(link);
    if cur.is_none() {
        return None;
    }
    while cur.unwrap().right.is_some()
        invariant
            cur is Some,
            shape_at(cur).rightmost() == shape_of(*link).rightmost(),
        decreases shape_at(cur),
    {
        cur = borrow_link(&cur.unwrap().right);
    }
    cur
}

} // verus!
