//! Colours, and the rules that a red-black tree obeys.

use vstd::prelude::*;
use crate::shape::Shape;

verus! {

/// The colour of a node of a red-black tree.
#[derive(Clone, Copy, Debug, PartialEq, Eq, Structural)]
pub enum NodeColor {
    Red,
    Black,
}

/// A coloured binary tree as a mathematical value.
pub type RbShape<K> = Shape<K, NodeColor>;

/// Whether the root is a red fork. The empty tree counts as black.
pub open spec fn is_red<K>(t: RbShape<K>) -> bool {
    t matches Shape::Fork { tag, .. } && tag == NodeColor::Red
}

/// Number of black forks on the left spine. In a balanced tree every path
/// from the root to an empty subtree passes through this many black forks.
pub open spec fn black_height<K>(t: RbShape<K>) -> nat
    decreases t,
{
    match t {
        Shape::Nil => 0,
        Shape::Fork { tag, left, .. } => black_height(*left) + if tag == NodeColor::Black {
            1nat
        } else {
            0nat
        },
    }
}

/// At every fork both subtrees have the same black height.
pub open spec fn balanced<K>(t: RbShape<K>) -> bool
    decreases t,
{
    match t {
        Shape::Nil => true,
        Shape::Fork { left, right, .. } => balanced(*left) && balanced(*right) && black_height(
            *left,
        ) == black_height(*right),
    }
}

/// No red fork has a red child.
pub open spec fn no_red_red<K>(t: RbShape<K>) -> bool
    decreases t,
{
    match t {
        Shape::Nil => true,
        Shape::Fork { tag, left, right, .. } => {
            &&& tag == NodeColor::Red ==> !is_red(*left) && !is_red(*right)
            &&& no_red_red(*left)
            &&& no_red_red(*right)
        },
    }
}

/// The colour rules of a red-black tree: a black root, no red fork with a red
/// child, and the same number of black forks on every path downwards.
pub open spec fn red_black<K>(t: RbShape<K>) -> bool {
    !is_red(t) && no_red_red(t) && balanced(t)
}

} // verus!
