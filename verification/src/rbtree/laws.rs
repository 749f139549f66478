//! What holds of every red-black tree, whatever was inserted and deleted.

use vstd::arithmetic::logarithm::{lemma_log_is_ordered, lemma_log_pow, log};
use vstd::arithmetic::power2::{lemma_pow2, lemma_pow2_unfold, pow2};
use vstd::prelude::*;
use crate::key::Key;
use crate::order::{lemma_increasing_no_duplicates, lemma_lt_asymmetric};
use crate::rbtree::delete::{
    delete_node_spec,
    delete_spec,
    lemma_delete_node_colors,
    lemma_delete_node_keys,
};
use crate::rbtree::insert::{
    insert_node_spec,
    insert_spec,
    lemma_insert_node_colors,
    lemma_insert_node_keys,
};
use crate::rbtree::model::{balanced, black_height, is_red, no_red_red, red_black, NodeColor, RbShape};
use crate::rbtree::RBTree;
use crate::shape::{
    find,
    lemma_find,
    lemma_fork_contains,
    lemma_inorder_len,
    lemma_retag_keeps,
    lemma_search_tree_fork,
    search_tree,
    Shape,
};

verus! {

/// Insertion keeps a red-black search tree a red-black search tree.
pub proof fn law_insert_keeps_invariants<T: Key>(t: RbShape<T::V>, k: T::V)
    requires
        search_tree::<T, NodeColor>(t),
        red_black(t),
    ensures
        search_tree::<T, NodeColor>(insert_spec::<T>(t, k)),
        red_black(insert_spec::<T>(t, k)),
{
    lemma_insert_node_keys::<T>(t, k);
    lemma_insert_node_colors::<T>(t, k);
    lemma_retag_keeps(insert_node_spec::<T>(t, k), NodeColor::Black);
}

/// Deletion keeps a red-black search tree a red-black search tree.
pub proof fn law_delete_keeps_invariants<T: Key>(t: RbShape<T::V>, k: T::V)
    requires
        search_tree::<T, NodeColor>(t),
        red_black(t),
    ensures
        search_tree::<T, NodeColor>(delete_spec::<T>(t, k)),
        red_black(delete_spec::<T>(t, k)),
{
    lemma_delete_node_keys::<T>(t, k);
    lemma_delete_node_colors::<T>(t, k);
}

/// The insertion of a key that is there already changes nothing.
pub proof fn law_insert_present<T: Key>(t: RbShape<T::V>, k: T::V)
    requires
        search_tree::<T, NodeColor>(t),
        no_red_red(t),
        t.contains(k),
    ensures
        insert_node_spec::<T>(t, k) == t,
        !is_red(t) ==> insert_spec::<T>(t, k) == t,
    decreases t,
{
    reveal_with_fuel(no_red_red, 2);
    match t {
        Shape::Nil => {
            assert(t.inorder().len() == 0);
        },
        Shape::Fork { tag, left, key, right } => {
            lemma_search_tree_fork::<T, NodeColor>(t);
            lemma_fork_contains(t, k);
            if T::lt(k, key) {
                lemma_lt_asymmetric::<T>(k, key);
                if right.contains(k) {
                    assert(T::lt(key, k));
                }
                law_insert_present::<T>(*left, k);
            } else if T::lt(key, k) {
                lemma_lt_asymmetric::<T>(key, k);
                if left.contains(k) {
                    assert(T::lt(k, key));
                }
                law_insert_present::<T>(*right, k);
            }
        },
    }
}

/// The deletion of a key that is not there changes nothing.
pub proof fn law_delete_absent<T: Key>(t: RbShape<T::V>, k: T::V)
    requires
        search_tree::<T, NodeColor>(t),
        !t.contains(k),
    ensures
        delete_node_spec::<T>(t, k) == (t, false),
        delete_spec::<T>(t, k) == t,
    decreases t,
{
    match t {
        Shape::Nil => {},
        Shape::Fork { tag, left, key, right } => {
            lemma_search_tree_fork::<T, NodeColor>(t);
            lemma_fork_contains(t, k);
            T::lt_connected(k, key);
            if T::lt(k, key) {
                law_delete_absent::<T>(*left, k);
            } else if T::lt(key, k) {
                lemma_lt_asymmetric::<T>(key, k);
                law_delete_absent::<T>(*right, k);
            }
        },
    }
}

/// The count of a well-formed tree is the number of different keys in it.
pub proof fn law_count_is_number_of_keys<T: Key>(tree: RBTree<T>)
    requires
        tree.wf(),
    ensures
        tree@.keys().finite(),
        tree@.keys().len() == tree.count(),
{
    let s = tree@.inorder();
    lemma_inorder_len(tree@);
    lemma_increasing_no_duplicates::<T>(s);
    s.unique_seq_to_set();
    vstd::seq_lib::seq_to_set_is_finite(s);
}

/// After the insertion of `k`, a descent for `j` finds a fork exactly when `j`
/// is `k` or a descent found one before; the fork found holds `j`.
pub proof fn law_search_after_insert<T: Key>(t: RbShape<T::V>, k: T::V, j: T::V)
    requires
        search_tree::<T, NodeColor>(t),
    ensures
        find::<T, NodeColor>(insert_spec::<T>(t, k), j) is Fork <==> (j == k || find::<
            T,
            NodeColor,
        >(t, j) is Fork),
        find::<T, NodeColor>(insert_spec::<T>(t, k), j) is Fork ==> find::<T, NodeColor>(
            insert_spec::<T>(t, k),
            j,
        )->key == j,
{
    lemma_insert_node_keys::<T>(t, k);
    lemma_retag_keeps(insert_node_spec::<T>(t, k), NodeColor::Black);
    lemma_find::<T, NodeColor>(t, j);
    lemma_find::<T, NodeColor>(insert_spec::<T>(t, k), j);
}

/// After the deletion of `k`, a descent for `j` finds a fork exactly when `j`
/// is not `k` and a descent found one before.
pub proof fn law_search_after_delete<T: Key>(t: RbShape<T::V>, k: T::V, j: T::V)
    requires
        search_tree::<T, NodeColor>(t),
    ensures
        find::<T, NodeColor>(delete_spec::<T>(t, k), j) is Fork <==> (j != k && find::<
            T,
            NodeColor,
        >(t, j) is Fork),
{
    lemma_delete_node_keys::<T>(t, k);
    lemma_find::<T, NodeColor>(t, j);
    lemma_find::<T, NodeColor>(delete_spec::<T>(t, k), j);
}

/// A tree that obeys the colour rules below its root has at least
/// `2^b - 1` forks and at most `2 b + 1` levels, `b` being its black height;
/// at most `2 b` levels where the root is black.
pub proof fn lemma_black_height_bounds<K>(t: RbShape<K>)
    requires
        no_red_red(t),
        balanced(t),
    ensures
        pow2(black_height(t)) <= t.size() + 1,
        t.levels() <= 2 * black_height(t) + if is_red(t) {
            1nat
        } else {
            0nat
        },
    decreases t,
{
    match t {
        Shape::Nil => {
            lemma_pow2(0);
            assert(pow2(0) == 1) by {
                reveal(vstd::arithmetic::power::pow);
            }
        },
        Shape::Fork { tag, left, right, .. } => {
            lemma_black_height_bounds(*left);
            lemma_black_height_bounds(*right);
            if tag == NodeColor::Black {
                lemma_pow2_unfold(black_height(t));
            }
        },
    }
}

/// A red-black tree of `n` keys has at most `2 log2(n + 1)` levels, and so at
/// most that many edges on any path from the root.
pub proof fn law_height_bound<K>(t: RbShape<K>)
    requires
        red_black(t),
    ensures
        t.levels() <= 2 * log(2, (t.size() + 1) as int),
        t.height() <= 2 * log(2, (t.size() + 1) as int),
{
    let b = black_height(t);
    lemma_black_height_bounds(t);
    lemma_pow2(b);
    lemma_log_pow(2, b);
    lemma_log_is_ordered(2, pow2(b) as int, (t.size() + 1) as int);
}

} // verus!
