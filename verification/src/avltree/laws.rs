//! What holds of every AVL tree, whatever was inserted and deleted.

use vstd::arithmetic::logarithm::{lemma_log_is_ordered, lemma_log_pow, log};
use vstd::arithmetic::power2::{lemma_pow2, lemma_pow2_adds, pow2};
use vstd::prelude::*;
use crate::avltree::model::{
    avl,
    delete_node_spec,
    insert_node_spec,
    lemma_avl_stored,
    lemma_delete_node,
    lemma_insert_node,
    AvlShape,
};
use crate::avltree::AvlTree;
use crate::key::Key;
use crate::order::{lemma_increasing_no_duplicates, lemma_lt_asymmetric};
use crate::shape::{
    find,
    lemma_find,
    lemma_fork_contains,
    lemma_inorder_len,
    lemma_search_tree_fork,
    search_tree,
    Shape,
};

verus! {

/// The Fibonacci numbers: 0, 1, 1, 2, 3, 5, 8, ...
pub open spec fn fib(n: nat) -> nat
    decreases n,
{
    if n < 2 {
        n
    } else {
        fib((n - 1) as nat) + fib((n - 2) as nat)
    }
}

/// Insertion keeps a balanced search tree a balanced search tree.
pub proof fn law_insert_keeps_invariants<T: Key>(t: AvlShape<T::V>, k: T::V)
    requires
        search_tree::<T, u32>(t),
        avl(t),
        t.size() < u32::MAX,
    ensures
        search_tree::<T, u32>(insert_node_spec::<T>(t, k)),
        avl(insert_node_spec::<T>(t, k)),
{
    lemma_insert_node::<T>(t, k);
}

/// Deletion keeps a balanced search tree a balanced search tree.
pub proof fn law_delete_keeps_invariants<T: Key>(t: AvlShape<T::V>, k: T::V)
    requires
        search_tree::<T, u32>(t),
        avl(t),
        t.size() <= u32::MAX,
    ensures
        search_tree::<T, u32>(delete_node_spec::<T>(t, k)),
        avl(delete_node_spec::<T>(t, k)),
{
    lemma_delete_node::<T>(t, k);
}

/// The insertion of a key that is there already changes nothing.
pub proof fn law_insert_present<T: Key>(t: AvlShape<T::V>, k: T::V)
    requires
        search_tree::<T, u32>(t),
        avl(t),
        t.contains(k),
    ensures
        insert_node_spec::<T>(t, k) == t,
    decreases t,
{
    match t {
        Shape::Nil => {
            assert(t.inorder().len() == 0);
        },
        Shape::Fork { tag, left, key, right } => {
            lemma_search_tree_fork::<T, u32>(t);
            lemma_fork_contains(t, k);
            lemma_avl_stored(*left);
            lemma_avl_stored(*right);
            if T::lt(k, key) {
                lemma_lt_asymmetric::<T>(k, key);
                if right.contains(k) {
                    assert(T::lt(key, k));
                }
                law_insert_present::<T>(*left, k);
            } else if T::lt(key, k) {
                lemma_lt_asymmetric::<T>(key, k);
                if left.contains(k) {
                    assert(T::lt(k, key));
                }
                law_insert_present::<T>(*right, k);
            }
        },
    }
}

/// The deletion of a key that is not there changes nothing.
pub proof fn law_delete_absent<T: Key>(t: AvlShape<T::V>, k: T::V)
    requires
        search_tree::<T, u32>(t),
        avl(t),
        !t.contains(k),
    ensures
        delete_node_spec::<T>(t, k) == t,
    decreases t,
{
    match t {
        Shape::Nil => {},
        Shape::Fork { tag, left, key, right } => {
            lemma_search_tree_fork::<T, u32>(t);
            lemma_fork_contains(t, k);
            lemma_avl_stored(*left);
            lemma_avl_stored(*right);
            T::lt_connected(k, key);
            if T::lt(k, key) {
                law_delete_absent::<T>(*left, k);
            } else if T::lt(key, k) {
                lemma_lt_asymmetric::<T>(key, k);
                law_delete_absent::<T>(*right, k);
            }
        },
    }
}

/// The count of a well-formed tree is the number of different keys in it.
pub proof fn law_count_is_number_of_keys<T: Key>(tree: AvlTree<T>)
    requires
        tree.wf(),
    ensures
        tree@.keys().finite(),
        tree@.keys().len() == tree.count(),
{
    let s = tree@.inorder();
    lemma_inorder_len(tree@);
    lemma_increasing_no_duplicates::<T>(s);
    s.unique_seq_to_set();
    vstd::seq_lib::seq_to_set_is_finite(s);
}

/// After the insertion of `k`, a descent for `j` finds a fork exactly when `j`
/// is `k` or a descent found one before; the fork found holds `j`.
pub proof fn law_search_after_insert<T: Key>(t: AvlShape<T::V>, k: T::V, j: T::V)
    requires
        search_tree::<T, u32>(t),
        avl(t),
        t.size() < u32::MAX,
    ensures
        find::<T, u32>(insert_node_spec::<T>(t, k), j) is Fork <==> (j == k || find::<T, u32>(
            t,
            j,
        ) is Fork),
        find::<T, u32>(insert_node_spec::<T>(t, k), j) is Fork ==> find::<T, u32>(
            insert_node_spec::<T>(t, k),
            j,
        )->key == j,
{
    lemma_insert_node::<T>(t, k);
    lemma_find::<T, u32>(t, j);
    lemma_find::<T, u32>(insert_node_spec::<T>(t, k), j);
}

/// After the deletion of `k`, a descent for `j` finds a fork exactly when `j`
/// is not `k` and a descent found one before.
pub proof fn law_search_after_delete<T: Key>(t: AvlShape<T::V>, k: T::V, j: T::V)
    requires
        search_tree::<T, u32>(t),
        avl(t),
        t.size() <= u32::MAX,
    ensures
        find::<T, u32>(delete_node_spec::<T>(t, k), j) is Fork <==> (j != k && find::<T, u32>(
            t,
            j,
        ) is Fork),
{
    lemma_delete_node::<T>(t, k);
    lemma_find::<T, u32>(t, j);
    lemma_find::<T, u32>(delete_node_spec::<T>(t, k), j);
}

/// The Fibonacci numbers do not decrease.
pub proof fn lemma_fib_monotonic(a: nat, b: nat)
    requires
        a <= b,
    ensures
        fib(a) <= fib(b),
    decreases b,
{
    if a < b {
        if b >= 2 {
            lemma_fib_monotonic(a, (b - 1) as nat);
        } else {
            reveal_with_fuel(fib, 2);
        }
    }
}

/// A balanced tree of `h` levels has at least `fib(h + 2) - 1` forks.
pub proof fn law_levels_fibonacci<K>(t: AvlShape<K>)
    requires
        avl(t),
    ensures
        fib(t.levels() + 2) <= t.size() + 1,
    decreases t,
{
    reveal_with_fuel(fib, 3);
    match t {
        Shape::Nil => {},
        Shape::Fork { left, right, .. } => {
            law_levels_fibonacci(*left);
            law_levels_fibonacci(*right);
            let h = t.levels();
            let low = if left.levels() >= right.levels() {
                right.levels()
            } else {
                left.levels()
            };
            assert(fib(h + 2) == fib(h + 1) + fib(h));
            assert(low + 2 >= h);
            lemma_fib_monotonic(h, low + 2);
        },
    }
}

/// From the fifth on, the ratio of a Fibonacci number to the one before it
/// lies between 8/5 and 13/8.
pub proof fn lemma_fib_ratio(n: nat)
    requires
        n >= 5,
    ensures
        8 * fib(n) <= 5 * fib(n + 1),
        8 * fib(n + 1) <= 13 * fib(n),
    decreases n,
{
    if n == 5 {
        assert(fib(2) == 1) by {
            reveal_with_fuel(fib, 3);
        }
        assert(fib(3) == 2) by {
            reveal_with_fuel(fib, 3);
        }
        assert(fib(4) == 3);
        assert(fib(5) == 5);
        assert(fib(6) == 8);
    } else {
        lemma_fib_ratio((n - 1) as nat);
        assert(fib(n + 1) == fib(n) + fib((n - 1) as nat));
    }
}

/// Thirteen steps on, a Fibonacci number is 233 times its successor and 144
/// times itself.
pub proof fn lemma_fib_thirteen(n: nat)
    ensures
        fib(n + 13) == 233 * fib(n + 1) + 144 * fib(n),
{
    let a = fib(n);
    let b = fib(n + 1);
    assert(fib(n + 2) == b + a);
    assert(fib(n + 3) == 2 * b + a);
    assert(fib(n + 4) == 3 * b + 2 * a);
    assert(fib(n + 5) == 5 * b + 3 * a);
    assert(fib(n + 6) == 8 * b + 5 * a);
    assert(fib(n + 7) == 13 * b + 8 * a);
    assert(fib(n + 8) == 21 * b + 13 * a);
    assert(fib(n + 9) == 34 * b + 21 * a);
    assert(fib(n + 10) == 55 * b + 34 * a);
    assert(fib(n + 11) == 89 * b + 55 * a);
    assert(fib(n + 12) == 144 * b + 89 * a);
}

/// `fib(13 k + 2)` is at least `2^(9 k)`.
pub proof fn lemma_fib_exponential(k: nat)
    ensures
        pow2(9 * k) <= fib(13 * k + 2),
    decreases k,
{
    if k == 0 {
        lemma_pow2(0);
        assert(pow2(0) == 1) by {
            reveal(vstd::arithmetic::power::pow);
        }
        reveal_with_fuel(fib, 3);
    } else {
        let n = (13 * (k - 1) + 2) as nat;
        lemma_fib_exponential((k - 1) as nat);
        lemma_fib_thirteen(n);
        if n == 2 {
            reveal_with_fuel(fib, 4);
        } else {
            lemma_fib_ratio(n);
        }
        assert(fib(n + 13) >= 512 * fib(n));
        lemma_pow2_adds((9 * (k - 1)) as nat, 9);
        assert(pow2(9) == 512) by {
            vstd::arithmetic::power2::lemma2_to64();
        }
        assert(n + 13 == 13 * k + 2);
        assert(9 * (k - 1) + 9 == 9 * k);
        assert(pow2(9 * k) == 512 * pow2((9 * (k - 1)) as nat));
        assert(512 * pow2((9 * (k - 1)) as nat) <= 512 * fib(n)) by (nonlinear_arith)
            requires
                pow2((9 * (k - 1)) as nat) <= fib(n),
        ;
    }
}

/// A balanced tree of `n` keys has at most about `13/9 log2(n + 1)` levels:
/// nine thirteenths of them, the levels first rounded down to a multiple of
/// thirteen, are at most `log2(n + 1)`.
pub proof fn law_height_bound<K>(t: AvlShape<K>)
    requires
        avl(t),
    ensures
        9 * (t.levels() / 13) <= log(2, (t.size() + 1) as int),
        9 * (t.height() / 13) <= log(2, (t.size() + 1) as int),
{
    let k = t.levels() / 13;
    law_levels_fibonacci(t);
    lemma_fib_exponential(k);
    lemma_fib_monotonic(13 * k + 2, t.levels() + 2);
    lemma_pow2(9 * k);
    lemma_log_pow(2, 9 * k);
    lemma_log_is_ordered(2, pow2(9 * k) as int, (t.size() + 1) as int);
    let j = t.height() / 13;
    assert(j <= k);
}

} // verus!
