//! Ordered sets of keys kept in balanced binary search trees.
//!
//! Two engines offer the same operations: [`rbtree::RBTree`], a red-black tree,
//! and [`avltree::AvlTree`], an AVL tree. [`bst::BST`] is a search tree that is
//! never rebalanced.
//!
//! Every tree owns its nodes from the root downwards; a node has no link back
//! to its parent. Insertion and deletion descend by ownership and repair the
//! balance on the way back up, fork by fork.
//!
//! Contracts are stated over [`shape::Shape`], the tree as a mathematical value,
//! which is the view of every tree and node. The order of the keys comes from
//! the trait [`key::Key`].

pub mod avltree;
pub mod bst;
pub mod key;
pub mod node;
pub mod order;
pub mod rbtree;
pub mod shape;
pub mod text;
pub mod traverse;
