//! The balance rule of an AVL tree, what insertion and deletion give, and that
//! they keep the rule.

use vstd::prelude::*;
use crate::key::Key;
use crate::order::{above, below, gains, lemma_lt_asymmetric, loses};
use crate::shape::{
    lemma_fork_contains,
    lemma_leftmost,
    lemma_levels_le_size,
    lemma_rotate_left_keeps,
    lemma_rotate_right_keeps,
    lemma_search_tree_fork,
    search_tree,
    Shape,
};

verus! {

/// A binary tree whose forks store a number of levels, as a mathematical value.
pub type AvlShape<K> = Shape<K, u32>;

/// The number of levels that the root stores; 0 for the empty tree.
pub open spec fn stored<K>(t: AvlShape<K>) -> nat {
    match t {
        Shape::Nil => 0,
        Shape::Fork { tag, .. } => tag as nat,
    }
}

/// Levels of the left subtree minus levels of the right subtree.
pub open spec fn balance_factor<K>(t: AvlShape<K>) -> int {
    t.left().levels() - t.right().levels()
}

/// The balance rule of an AVL tree: at every fork the subtrees differ by at
/// most one level, and the fork stores its own number of levels.
pub open spec fn avl<K>(t: AvlShape<K>) -> bool
    decreases t,
{
    match t {
        Shape::Nil => true,
        Shape::Fork { tag, left, right, .. } => {
            &&& avl(*left)
            &&& avl(*right)
            &&& tag == t.levels()
            &&& -1 <= balance_factor(t) <= 1
        },
    }
}

/// The greater of two numbers of levels.
pub open spec fn higher(a: nat, b: nat) -> nat {
    if a >= b {
        a
    } else {
        b
    }
}

/// One more than `n`, as far as a stored number of levels can count.
pub open spec fn one_more(n: nat) -> u32 {
    if n < u32::MAX {
        (n + 1) as u32
    } else {
        u32::MAX
    }
}

/// The tree with the number of levels at its root set from what its children
/// store: one more than the greater of the two.
pub open spec fn refresh<K>(t: AvlShape<K>) -> AvlShape<K> {
    t.retag(one_more(higher(stored(t.left()), stored(t.right()))))
}

/// A rotation to the left, the two forks that changed their subtrees set right.
pub open spec fn turn_left<K>(t: AvlShape<K>) -> AvlShape<K> {
    let u = t.rotate_left();
    refresh(Shape::fork(u->tag, refresh(u.left()), u->key, u.right()))
}

/// A rotation to the right, the two forks that changed their subtrees set right.
pub open spec fn turn_right<K>(t: AvlShape<K>) -> AvlShape<K> {
    let u = t.rotate_right();
    refresh(Shape::fork(u->tag, u.left(), u->key, refresh(u.right())))
}

/// The repair at a fork below which a key came or went.
///
/// Where one subtree stores two levels more than the other, the fork is
/// rotated away from it; before that, the heavy child is rotated the other way
/// where its inner subtree is the higher one. Otherwise only the stored number
/// of levels is set right.
pub open spec fn rebalance_spec<K>(t: AvlShape<K>) -> AvlShape<K> {
    let l = t.left();
    let r = t.right();
    if t is Nil {
        t
    } else if stored(l) > stored(r) + 1 {
        let heavy = if stored(l.left()) >= stored(l.right()) {
            l
        } else {
            turn_left(l)
        };
        turn_right(Shape::fork(t->tag, heavy, t->key, r))
    } else if stored(r) > stored(l) + 1 {
        let heavy = if stored(r.right()) >= stored(r.left()) {
            r
        } else {
            turn_right(r)
        };
        turn_left(Shape::fork(t->tag, l, t->key, heavy))
    } else {
        refresh(t)
    }
}

/// The subtree `t` after `k` was placed in it as a leaf by an ordinary descent,
/// every fork on the way back repaired by `rebalance_spec`. A tree that holds
/// `k` already is left as it is.
pub open spec fn insert_node_spec<T: Key>(t: AvlShape<T::V>, k: T::V) -> AvlShape<T::V>
    decreases t,
{
    match t {
        Shape::Nil => Shape::fork(1, Shape::Nil, k, Shape::Nil),
        Shape::Fork { tag, left, key, right } => if T::lt(k, key) {
            rebalance_spec(Shape::fork(tag, insert_node_spec::<T>(*left, k), key, *right))
        } else if T::lt(key, k) {
            rebalance_spec(Shape::fork(tag, *left, key, insert_node_spec::<T>(*right, k)))
        } else {
            t
        },
    }
}

/// The subtree `t` after `k` was taken out of it.
///
/// A descent finds the fork that holds `k`. Without a left child it gives way
/// to its right subtree, without a right child to its left one. With two
/// children it keeps its place and takes over the smallest key of its right
/// subtree, which is taken out there instead. On the way back every fork is
/// repaired by `rebalance_spec`.
pub open spec fn delete_node_spec<T: Key>(t: AvlShape<T::V>, k: T::V) -> AvlShape<T::V>
    decreases t,
{
    match t {
        Shape::Nil => Shape::Nil,
        Shape::Fork { tag, left, key, right } => if T::lt(k, key) {
            rebalance_spec(Shape::fork(tag, delete_node_spec::<T>(*left, k), key, *right))
        } else if T::lt(key, k) {
            rebalance_spec(Shape::fork(tag, *left, key, delete_node_spec::<T>(*right, k)))
        } else if *left is Nil {
            *right
        } else if *right is Nil {
            *left
        } else {
            let next = right.leftmost()->key;
            rebalance_spec(Shape::fork(tag, *left, next, delete_node_spec::<T>(*right, next)))
        },
    }
}

/// A balanced tree stores its number of levels at the root.
pub proof fn lemma_avl_stored<K>(t: AvlShape<K>)
    requires
        avl(t),
    ensures
        stored(t) == t.levels(),
{
}

/// Setting the stored number of levels right moves no key.
pub proof fn lemma_refresh_keeps<K>(t: AvlShape<K>)
    ensures
        refresh(t).inorder() == t.inorder(),
        refresh(t).size() == t.size(),
        refresh(t).left() == t.left(),
        refresh(t).right() == t.right(),
        refresh(t) is Fork <==> t is Fork,
        t is Fork ==> refresh(t)->key == t->key,
{
}

/// A rotation to the left with the levels set right moves no key.
pub proof fn lemma_turn_left_keeps<K>(t: AvlShape<K>)
    requires
        t is Fork,
    ensures
        turn_left(t).inorder() == t.inorder(),
        turn_left(t).size() == t.size(),
        turn_left(t) is Fork,
{
    let u = t.rotate_left();
    lemma_rotate_left_keeps(t);
    lemma_refresh_keeps(u.left());
    let v = Shape::fork(u->tag, refresh(u.left()), u->key, u.right());
    lemma_refresh_keeps(v);
    assert(v.inorder() == u.inorder());
    assert(v.size() == u.size());
}

/// A rotation to the right with the levels set right moves no key.
pub proof fn lemma_turn_right_keeps<K>(t: AvlShape<K>)
    requires
        t is Fork,
    ensures
        turn_right(t).inorder() == t.inorder(),
        turn_right(t).size() == t.size(),
        turn_right(t) is Fork,
{
    let u = t.rotate_right();
    lemma_rotate_right_keeps(t);
    lemma_refresh_keeps(u.right());
    let v = Shape::fork(u->tag, u.left(), u->key, refresh(u.right()));
    lemma_refresh_keeps(v);
    assert(v.inorder() == u.inorder());
    assert(v.size() == u.size());
}

/// The repair moves no key: it keeps their order and their number.
pub proof fn lemma_rebalance_keeps<K>(t: AvlShape<K>)
    ensures
        rebalance_spec(t).inorder() == t.inorder(),
        rebalance_spec(t).size() == t.size(),
        t is Fork ==> rebalance_spec(t) is Fork,
{
    let l = t.left();
    let r = t.right();
    if t is Fork {
        lemma_refresh_keeps(t);
        if stored(l) > stored(r) + 1 {
            let heavy = if stored(l.left()) >= stored(l.right()) {
                l
            } else {
                turn_left(l)
            };
            lemma_turn_left_keeps(l);
            let q = Shape::fork(t->tag, heavy, t->key, r);
            assert(q.inorder() == t.inorder());
            assert(q.size() == t.size());
            lemma_turn_right_keeps(q);
        } else if stored(r) > stored(l) + 1 {
            let heavy = if stored(r.right()) >= stored(r.left()) {
                r
            } else {
                turn_right(r)
            };
            lemma_turn_right_keeps(r);
            let q = Shape::fork(t->tag, l, t->key, heavy);
            assert(q.inorder() == t.inorder());
            assert(q.size() == t.size());
            lemma_turn_left_keeps(q);
        }
    }
}

/// A fork over two balanced subtrees that differ by at most one level is
/// balanced once its stored number of levels is set right.
pub proof fn lemma_refresh_balances<K>(t: AvlShape<K>)
    requires
        t is Fork,
        avl(t.left()),
        avl(t.right()),
        -1 <= balance_factor(t) <= 1,
        t.levels() <= u32::MAX,
    ensures
        avl(refresh(t)),
        refresh(t).levels() == t.levels(),
        refresh(t).levels() == higher(t.left().levels(), t.right().levels()) + 1,
        stored(refresh(t)) == t.levels(),
{
    lemma_avl_stored(t.left());
    lemma_avl_stored(t.right());
}

/// A rotation to the right balances a fork whose left subtree is two levels
/// higher than the right one and not higher inside than outside.
pub proof fn lemma_turn_right_balances<K>(t: AvlShape<K>)
    requires
        t is Fork,
        avl(t.left()),
        avl(t.right()),
        balance_factor(t) == 2,
        balance_factor(t.left()) >= 0,
        t.levels() <= u32::MAX,
    ensures
        avl(turn_right(t)),
        turn_right(t).levels() == t.levels() - if balance_factor(t.left()) == 0 {
            0int
        } else {
            1int
        },
{
    let l = t.left();
    let low = Shape::fork(t->tag, l.right(), t->key, t.right());
    lemma_refresh_balances(low);
    let top = Shape::fork(0u32, l.left(), l->key, refresh(low));
    lemma_refresh_balances(top);
    assert(turn_right(t) == refresh(top));
}

/// A rotation to the left balances a fork whose right subtree is two levels
/// higher than the left one and not higher inside than outside.
pub proof fn lemma_turn_left_balances<K>(t: AvlShape<K>)
    requires
        t is Fork,
        avl(t.left()),
        avl(t.right()),
        balance_factor(t) == -2,
        balance_factor(t.right()) <= 0,
        t.levels() <= u32::MAX,
    ensures
        avl(turn_left(t)),
        turn_left(t).levels() == t.levels() - if balance_factor(t.right()) == 0 {
            0int
        } else {
            1int
        },
{
    let r = t.right();
    let low = Shape::fork(t->tag, t.left(), t->key, r.left());
    lemma_refresh_balances(low);
    let top = Shape::fork(0u32, refresh(low), r->key, r.right());
    lemma_refresh_balances(top);
    assert(turn_left(t) == refresh(top));
}

/// Two rotations, the left child to the left and then the fork to the right,
/// balance a fork whose left subtree is two levels higher than the right one
/// and higher inside than outside.
pub proof fn lemma_double_right_balances<K>(t: AvlShape<K>)
    requires
        t is Fork,
        avl(t.left()),
        avl(t.right()),
        balance_factor(t) == 2,
        balance_factor(t.left()) < 0,
        t.levels() <= u32::MAX,
    ensures
        avl(turn_right(Shape::fork(t->tag, turn_left(t.left()), t->key, t.right()))),
        turn_right(Shape::fork(t->tag, turn_left(t.left()), t->key, t.right())).levels() + 1
            == t.levels(),
{
    let l = t.left();
    let m = l.right();
    assert(avl(m) && m is Fork);
    assert(avl(m.left()) && avl(m.right()));
    let far = Shape::fork(l->tag, l.left(), l->key, m.left());
    lemma_refresh_balances(far);
    let near = Shape::fork(t->tag, m.right(), t->key, t.right());
    lemma_refresh_balances(near);
    let top = Shape::fork(0u32, refresh(far), m->key, refresh(near));
    lemma_refresh_balances(top);
    assert(turn_right(Shape::fork(t->tag, turn_left(l), t->key, t.right())) == refresh(top));
}

/// Two rotations, the right child to the right and then the fork to the left,
/// balance a fork whose right subtree is two levels higher than the left one
/// and higher inside than outside.
pub proof fn lemma_double_left_balances<K>(t: AvlShape<K>)
    requires
        t is Fork,
        avl(t.left()),
        avl(t.right()),
        balance_factor(t) == -2,
        balance_factor(t.right()) > 0,
        t.levels() <= u32::MAX,
    ensures
        avl(turn_left(Shape::fork(t->tag, t.left(), t->key, turn_right(t.right())))),
        turn_left(Shape::fork(t->tag, t.left(), t->key, turn_right(t.right()))).levels() + 1
            == t.levels(),
{
    let r = t.right();
    let m = r.left();
    assert(avl(m) && m is Fork);
    assert(avl(m.left()) && avl(m.right()));
    let far = Shape::fork(r->tag, m.right(), r->key, r.right());
    lemma_refresh_balances(far);
    let near = Shape::fork(t->tag, t.left(), t->key, m.left());
    lemma_refresh_balances(near);
    let top = Shape::fork(0u32, refresh(near), m->key, refresh(far));
    lemma_refresh_balances(top);
    assert(turn_left(Shape::fork(t->tag, t.left(), t->key, turn_right(r))) == refresh(top));
}

/// The repair of a fork whose subtrees are balanced and differ by at most two
/// levels gives a balanced tree, of as many levels or one less; of as many
/// where the subtrees differ by at most one.
pub proof fn lemma_rebalance_balances<K>(t: AvlShape<K>)
    requires
        t is Fork,
        avl(t.left()),
        avl(t.right()),
        -2 <= balance_factor(t) <= 2,
        t.levels() <= u32::MAX,
    ensures
        avl(rebalance_spec(t)),
        rebalance_spec(t).levels() <= t.levels() <= rebalance_spec(t).levels() + 1,
        -1 <= balance_factor(t) <= 1 ==> rebalance_spec(t).levels() == t.levels(),
        balance_factor(t) == 2 && balance_factor(t.left()) != 0 ==> rebalance_spec(t).levels() + 1
            == t.levels(),
        balance_factor(t) == -2 && balance_factor(t.right()) != 0 ==> rebalance_spec(t).levels()
            + 1 == t.levels(),
{
    let l = t.left();
    let r = t.right();
    lemma_avl_stored(l);
    lemma_avl_stored(r);
    lemma_avl_stored(l.left());
    lemma_avl_stored(l.right());
    lemma_avl_stored(r.left());
    lemma_avl_stored(r.right());
    if balance_factor(t) == 2 {
        if balance_factor(l) >= 0 {
            lemma_turn_right_balances(t);
        } else {
            lemma_double_right_balances(t);
        }
    } else if balance_factor(t) == -2 {
        if balance_factor(r) <= 0 {
            lemma_turn_left_balances(t);
        } else {
            lemma_double_left_balances(t);
        }
    } else {
        lemma_refresh_balances(t);
    }
}

/// Insertion into a balanced search tree gives a balanced search tree that
/// holds the old keys and `k`. It is one fork larger unless `k` was there, and
/// has as many levels or one more.
pub proof fn lemma_insert_node<T: Key>(t: AvlShape<T::V>, k: T::V)
    requires
        search_tree::<T, u32>(t),
        avl(t),
        t.size() < u32::MAX,
    ensures
        search_tree::<T, u32>(insert_node_spec::<T>(t, k)),
        gains(insert_node_spec::<T>(t, k).inorder(), t.inorder(), k),
        insert_node_spec::<T>(t, k).size() == t.size() + if t.contains(k) {
            0nat
        } else {
            1nat
        },
        insert_node_spec::<T>(t, k) is Fork,
        avl(insert_node_spec::<T>(t, k)),
        t.levels() <= insert_node_spec::<T>(t, k).levels() <= t.levels() + 1,
    decreases t,
{
    let out = insert_node_spec::<T>(t, k);
    match t {
        Shape::Nil => {
            assert(out.inorder() =~= seq![k]);
            assert(out.inorder()[0] == k);
            assert(t.inorder() =~= Seq::<T::V>::empty());
            reveal_with_fuel(Shape::size, 2);
            reveal_with_fuel(Shape::levels, 2);
            reveal_with_fuel(avl, 2);
        },
        Shape::Fork { tag, left, key, right } => {
            lemma_search_tree_fork::<T, u32>(t);
            T::lt_connected(k, key);
            if T::lt(k, key) {
                lemma_lt_asymmetric::<T>(k, key);
                lemma_insert_node::<T>(*left, k);
                let sub = insert_node_spec::<T>(*left, k);
                let grown = Shape::fork(tag, sub, key, *right);
                lemma_rebalance_keeps(grown);
                lemma_levels_le_size(grown);
                lemma_rebalance_balances(grown);
                assert(below::<T>(sub.inorder(), key));
                lemma_search_tree_fork::<T, u32>(grown);
                assert forall|x: T::V|
                    #![trigger out.inorder().contains(x)]
                    #![trigger t.inorder().contains(x)]
                    out.contains(x) <==> (t.contains(x) || x == k) by {
                    lemma_fork_contains(grown, x);
                    lemma_fork_contains(t, x);
                }
                lemma_fork_contains(t, k);
                if right.contains(k) {
                    assert(T::lt(key, k));
                }
            } else if T::lt(key, k) {
                lemma_lt_asymmetric::<T>(key, k);
                lemma_insert_node::<T>(*right, k);
                let sub = insert_node_spec::<T>(*right, k);
                let grown = Shape::fork(tag, *left, key, sub);
                lemma_rebalance_keeps(grown);
                lemma_levels_le_size(grown);
                lemma_rebalance_balances(grown);
                assert(above::<T>(sub.inorder(), key));
                lemma_search_tree_fork::<T, u32>(grown);
                assert forall|x: T::V|
                    #![trigger out.inorder().contains(x)]
                    #![trigger t.inorder().contains(x)]
                    out.contains(x) <==> (t.contains(x) || x == k) by {
                    lemma_fork_contains(grown, x);
                    lemma_fork_contains(t, x);
                }
                lemma_fork_contains(t, k);
                if left.contains(k) {
                    assert(T::lt(k, key));
                }
            } else {
                lemma_fork_contains(t, k);
            }
        },
    }
}

/// Deletion from a balanced search tree gives a balanced search tree that
/// holds the other keys. It is one fork smaller where `k` was there, and has as
/// many levels or one less.
pub proof fn lemma_delete_node<T: Key>(t: AvlShape<T::V>, k: T::V)
    requires
        search_tree::<T, u32>(t),
        avl(t),
        t.size() <= u32::MAX,
    ensures
        search_tree::<T, u32>(delete_node_spec::<T>(t, k)),
        loses(delete_node_spec::<T>(t, k).inorder(), t.inorder(), k),
        delete_node_spec::<T>(t, k).size() + if t.contains(k) {
            1nat
        } else {
            0nat
        } == t.size(),
        avl(delete_node_spec::<T>(t, k)),
        delete_node_spec::<T>(t, k).levels() <= t.levels() <= delete_node_spec::<T>(t, k).levels()
            + 1,
    decreases t,
{
    let out = delete_node_spec::<T>(t, k);
    match t {
        Shape::Nil => {},
        Shape::Fork { tag, left, key, right } => {
            lemma_search_tree_fork::<T, u32>(t);
            lemma_fork_contains(t, k);
            T::lt_connected(k, key);
            T::lt_irreflexive(key);
            if T::lt(k, key) {
                lemma_lt_asymmetric::<T>(k, key);
                lemma_delete_node::<T>(*left, k);
                let sub = delete_node_spec::<T>(*left, k);
                let q = Shape::fork(tag, sub, key, *right);
                lemma_rebalance_keeps(q);
                lemma_levels_le_size(q);
                lemma_rebalance_balances(q);
                assert(below::<T>(sub.inorder(), key));
                lemma_search_tree_fork::<T, u32>(q);
                assert forall|x: T::V|
                    #![trigger out.inorder().contains(x)]
                    #![trigger t.inorder().contains(x)]
                    out.contains(x) <==> (t.contains(x) && x != k) by {
                    lemma_fork_contains(q, x);
                    lemma_fork_contains(t, x);
                    if right.contains(x) {
                        assert(T::lt(key, x));
                    }
                }
                if right.contains(k) {
                    assert(T::lt(key, k));
                }
            } else if T::lt(key, k) {
                lemma_lt_asymmetric::<T>(key, k);
                lemma_delete_node::<T>(*right, k);
                let sub = delete_node_spec::<T>(*right, k);
                let q = Shape::fork(tag, *left, key, sub);
                lemma_rebalance_keeps(q);
                lemma_levels_le_size(q);
                lemma_rebalance_balances(q);
                assert(above::<T>(sub.inorder(), key));
                lemma_search_tree_fork::<T, u32>(q);
                assert forall|x: T::V|
                    #![trigger out.inorder().contains(x)]
                    #![trigger t.inorder().contains(x)]
                    out.contains(x) <==> (t.contains(x) && x != k) by {
                    lemma_fork_contains(q, x);
                    lemma_fork_contains(t, x);
                    if left.contains(x) {
                        assert(T::lt(x, key));
                    }
                }
                if left.contains(k) {
                    assert(T::lt(k, key));
                }
            } else if *left is Nil || *right is Nil {
                reveal_with_fuel(Shape::size, 2);
                reveal_with_fuel(Shape::levels, 2);
                assert forall|x: T::V|
                    #![trigger out.inorder().contains(x)]
                    #![trigger t.inorder().contains(x)]
                    out.contains(x) <==> (t.contains(x) && x != k) by {
                    lemma_fork_contains(t, x);
                }
            } else {
                let next = right.leftmost()->key;
                lemma_leftmost::<T, u32>(*right);
                lemma_delete_node::<T>(*right, next);
                let sub = delete_node_spec::<T>(*right, next);
                let q = Shape::fork(tag, *left, next, sub);
                lemma_rebalance_keeps(q);
                lemma_levels_le_size(q);
                lemma_rebalance_balances(q);
                assert(T::lt(key, next));
                assert forall|x: T::V| #[trigger] left.inorder().contains(x) implies T::lt(
                    x,
                    next,
                ) by {
                    T::lt_transitive(x, key, next);
                }
                assert(above::<T>(sub.inorder(), next));
                lemma_search_tree_fork::<T, u32>(q);
                assert forall|x: T::V|
                    #![trigger out.inorder().contains(x)]
                    #![trigger t.inorder().contains(x)]
                    out.contains(x) <==> (t.contains(x) && x != k) by {
                    lemma_fork_contains(q, x);
                    lemma_fork_contains(t, x);
                    if left.contains(x) {
                        lemma_lt_asymmetric::<T>(x, key);
                    }
                    if right.contains(x) {
                        lemma_lt_asymmetric::<T>(key, x);
                    }
                }
            }
        },
    }
}

} // verus!
