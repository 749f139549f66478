//! The tree as a mathematical value, and what is read off it: traversal
//! orders, size, levels, leaves, rotations and the descent of a search.

use vstd::prelude::*;
use crate::key::Key;
use crate::order::{above, below, increasing, lemma_contains_join, lemma_increasing_join, lemma_lt_asymmetric};

verus! {

/// A binary tree as a mathematical value. Every fork carries a key and a tag:
/// a colour, a stored height, or nothing at all.
pub enum Shape<K, A> {
    Nil,
    Fork { tag: A, left: Box<Shape<K, A>>, key: K, right: Box<Shape<K, A>> },
}

/// Which child of its parent a subtree is.
#[derive(Clone, Copy, Debug, PartialEq, Eq, Structural)]
pub enum Direction {
    Left,
    Right,
}

impl<K, A> Shape<K, A> {
    /// Builds a fork from its parts.
    pub open spec fn fork(tag: A, left: Self, key: K, right: Self) -> Self {
        Shape::Fork { tag, left: Box::new(left), key, right: Box::new(right) }
    }

    /// The left subtree; `Nil` for the empty tree.
    pub open spec fn left(self) -> Self {
        match self {
            Shape::Nil => Shape::Nil,
            Shape::Fork { left, .. } => *left,
        }
    }

    /// The right subtree; `Nil` for the empty tree.
    pub open spec fn right(self) -> Self {
        match self {
            Shape::Nil => Shape::Nil,
            Shape::Fork { right, .. } => *right,
        }
    }

    /// The same tree with another tag at the root.
    pub open spec fn retag(self, tag: A) -> Self {
        match self {
            Shape::Nil => Shape::Nil,
            Shape::Fork { left, key, right, .. } => Shape::Fork { tag, left, key, right },
        }
    }

    /// Keys in left-to-right order.
    pub open spec fn inorder(self) -> Seq<K>
        decreases self,
    {
        match self {
            Shape::Nil => Seq::empty(),
            Shape::Fork { left, key, right, .. } => left.inorder().push(key) + right.inorder(),
        }
    }

    /// Keys in root-first order: the root, then the left subtree, then the right one.
    pub open spec fn preorder(self) -> Seq<K>
        decreases self,
    {
        match self {
            Shape::Nil => Seq::empty(),
            Shape::Fork { left, key, right, .. } => seq![key] + left.preorder() + right.preorder(),
        }
    }

    /// Whether `k` is one of the keys.
    #[verifier::inline]
    pub open spec fn contains(self, k: K) -> bool {
        self.inorder().contains(k)
    }

    /// The set of keys.
    pub open spec fn keys(self) -> Set<K> {
        self.inorder().to_set()
    }

    /// Number of forks.
    pub open spec fn size(self) -> nat
        decreases self,
    {
        match self {
            Shape::Nil => 0,
            Shape::Fork { left, right, .. } => left.size() + 1 + right.size(),
        }
    }

    /// Number of forks on the longest path from the root downwards.
    pub open spec fn levels(self) -> nat
        decreases self,
    {
        match self {
            Shape::Nil => 0,
            Shape::Fork { left, right, .. } => if left.levels() >= right.levels() {
                left.levels() + 1
            } else {
                right.levels() + 1
            },
        }
    }

    /// Number of edges on the longest path from the root downwards; 0 for the
    /// empty tree as for a single fork.
    pub open spec fn height(self) -> nat {
        if self.levels() == 0 {
            0
        } else {
            (self.levels() - 1) as nat
        }
    }

    /// Number of forks without children.
    pub open spec fn leaves(self) -> nat
        decreases self,
    {
        match self {
            Shape::Nil => 0,
            Shape::Fork { left, right, .. } => if *left is Nil && *right is Nil {
                1
            } else {
                left.leaves() + right.leaves()
            },
        }
    }

    /// Keys of the forks `depth` edges below the root, from left to right.
    pub open spec fn at_depth(self, depth: nat) -> Seq<K>
        decreases self,
    {
        match self {
            Shape::Nil => Seq::empty(),
            Shape::Fork { left, key, right, .. } => if depth == 0 {
                seq![key]
            } else {
                left.at_depth((depth - 1) as nat) + right.at_depth((depth - 1) as nat)
            },
        }
    }

    /// Keys of the forks less than `depth` edges below the root: level by level,
    /// each level from left to right.
    pub open spec fn above_depth(self, depth: nat) -> Seq<K>
        decreases depth,
    {
        if depth == 0 {
            Seq::empty()
        } else {
            self.above_depth((depth - 1) as nat) + self.at_depth((depth - 1) as nat)
        }
    }

    /// Keys in breadth-first order: level by level from the root downwards, each
    /// level from left to right.
    pub open spec fn levelorder(self) -> Seq<K> {
        self.above_depth(self.levels())
    }

    /// The subtree at the end of the left spine; `Nil` for the empty tree.
    pub open spec fn leftmost(self) -> Self
        decreases self,
    {
        match self {
            Shape::Nil => Shape::Nil,
            Shape::Fork { left, .. } => if *left is Nil {
                self
            } else {
                left.leftmost()
            },
        }
    }

    /// The subtree at the end of the right spine; `Nil` for the empty tree.
    pub open spec fn rightmost(self) -> Self
        decreases self,
    {
        match self {
            Shape::Nil => Shape::Nil,
            Shape::Fork { right, .. } => if *right is Nil {
                self
            } else {
                right.rightmost()
            },
        }
    }

    /// Promotes the right child to the root: the old root becomes its left child
    /// and takes over the child's former left subtree. Tags stay with their keys.
    /// A tree without a right child is left as it is.
    pub open spec fn rotate_left(self) -> Self {
        match self {
            Shape::Fork { tag, left, key, right } => match *right {
                Shape::Fork { tag: child_tag, left: inner, key: child_key, right: outer } => Self::fork(
                    child_tag,
                    Self::fork(tag, *left, key, *inner),
                    child_key,
                    *outer,
                ),
                Shape::Nil => self,
            },
            Shape::Nil => self,
        }
    }

    /// Promotes the left child to the root: the mirror image of `rotate_left`.
    pub open spec fn rotate_right(self) -> Self {
        match self {
            Shape::Fork { tag, left, key, right } => match *left {
                Shape::Fork { tag: child_tag, left: outer, key: child_key, right: inner } => Self::fork(
                    child_tag,
                    *outer,
                    child_key,
                    Self::fork(tag, *inner, key, *right),
                ),
                Shape::Nil => self,
            },
            Shape::Nil => self,
        }
    }
}

/// The keys of `t` read from left to right are strictly increasing.
pub open spec fn search_tree<T: Key, A>(t: Shape<T::V, A>) -> bool {
    increasing::<T>(t.inorder())
}

/// The subtree that a descent for `k` ends at: the fork that holds `k`, or `Nil`.
pub open spec fn find<T: Key, A>(t: Shape<T::V, A>, k: T::V) -> Shape<T::V, A>
    decreases t,
{
    match t {
        Shape::Nil => Shape::Nil,
        Shape::Fork { left, key, right, .. } => if T::lt(k, key) {
            find::<T, A>(*left, k)
        } else if T::lt(key, k) {
            find::<T, A>(*right, k)
        } else {
            t
        },
    }
}

/// Another tag at the root moves no key.
pub proof fn lemma_retag_keeps<K, A>(t: Shape<K, A>, tag: A)
    ensures
        t.retag(tag).inorder() == t.inorder(),
        t.retag(tag).size() == t.size(),
        t.retag(tag).left() == t.left(),
        t.retag(tag).right() == t.right(),
        t.retag(tag) is Fork <==> t is Fork,
{
}

/// A rotation to the left keeps the keys, their order and their number.
pub proof fn lemma_rotate_left_keeps<K, A>(t: Shape<K, A>)
    ensures
        t.rotate_left().inorder() == t.inorder(),
        t.rotate_left().size() == t.size(),
{
    reveal_with_fuel(Shape::inorder, 3);
    reveal_with_fuel(Shape::size, 3);
    assert(t.rotate_left().inorder() =~= t.inorder());
}

/// A rotation to the right keeps the keys, their order and their number.
pub proof fn lemma_rotate_right_keeps<K, A>(t: Shape<K, A>)
    ensures
        t.rotate_right().inorder() == t.inorder(),
        t.rotate_right().size() == t.size(),
{
    reveal_with_fuel(Shape::inorder, 3);
    reveal_with_fuel(Shape::size, 3);
    assert(t.rotate_right().inorder() =~= t.inorder());
}

/// A tree has forks at a depth exactly when the depth is less than its number
/// of levels.
pub proof fn lemma_at_depth_len<K, A>(t: Shape<K, A>, depth: nat)
    ensures
        t.at_depth(depth).len() > 0 <==> depth < t.levels(),
    decreases t,
{
    match t {
        Shape::Nil => {},
        Shape::Fork { left, right, .. } => {
            if depth > 0 {
                lemma_at_depth_len(*left, (depth - 1) as nat);
                lemma_at_depth_len(*right, (depth - 1) as nat);
            }
        },
    }
}

/// A tree has no more leaves than forks.
pub proof fn lemma_leaves_le_size<K, A>(t: Shape<K, A>)
    ensures
        t.leaves() <= t.size(),
    decreases t,
{
    match t {
        Shape::Nil => {},
        Shape::Fork { left, right, .. } => {
            lemma_leaves_le_size(*left);
            lemma_leaves_le_size(*right);
        },
    }
}

/// A tree has no more levels than forks.
pub proof fn lemma_levels_le_size<K, A>(t: Shape<K, A>)
    ensures
        t.levels() <= t.size(),
    decreases t,
{
    match t {
        Shape::Nil => {},
        Shape::Fork { left, right, .. } => {
            lemma_levels_le_size(*left);
            lemma_levels_le_size(*right);
        },
    }
}

/// The number of keys read off a tree is its size.
pub proof fn lemma_inorder_len<K, A>(t: Shape<K, A>)
    ensures
        t.inorder().len() == t.size(),
    decreases t,
{
    match t {
        Shape::Nil => {},
        Shape::Fork { left, right, .. } => {
            lemma_inorder_len(*left);
            lemma_inorder_len(*right);
        },
    }
}

/// What a fork contains: what its subtrees contain, and its own key.
pub proof fn lemma_fork_contains<K, A>(t: Shape<K, A>, x: K)
    requires
        t is Fork,
    ensures
        t.contains(x) <==> (t.left().contains(x) || x == t->key || t.right().contains(x)),
{
    lemma_contains_join(t.left().inorder(), t->key, t.right().inorder(), x);
}

/// In a search tree both subtrees of a fork are search trees, and the fork's key
/// lies strictly between their keys.
pub proof fn lemma_search_tree_fork<T: Key, A>(t: Shape<T::V, A>)
    requires
        t is Fork,
    ensures
        search_tree::<T, A>(t) <==> (search_tree::<T, A>(t.left()) && search_tree::<T, A>(t.right())
            && below::<T>(t.left().inorder(), t->key) && above::<T>(t.right().inorder(), t->key)),
{
    lemma_increasing_join::<T>(t.left().inorder(), t->key, t.right().inorder());
}

/// In a search tree a descent for `k` ends at a fork exactly when the tree
/// contains `k`, and that fork then holds `k`.
pub proof fn lemma_find<T: Key, A>(t: Shape<T::V, A>, k: T::V)
    requires
        search_tree::<T, A>(t),
    ensures
        find::<T, A>(t, k) is Fork <==> t.contains(k),
        find::<T, A>(t, k) is Fork ==> find::<T, A>(t, k)->key == k,
    decreases t,
{
    match t {
        Shape::Nil => {},
        Shape::Fork { left, key, right, .. } => {
            lemma_search_tree_fork::<T, A>(t);
            lemma_fork_contains(t, k);
            T::lt_connected(k, key);
            if T::lt(k, key) {
                lemma_lt_asymmetric::<T>(k, key);
                lemma_find::<T, A>(*left, k);
                if right.contains(k) {
                    assert(T::lt(key, k));
                }
            } else if T::lt(key, k) {
                lemma_lt_asymmetric::<T>(key, k);
                lemma_find::<T, A>(*right, k);
                if left.contains(k) {
                    assert(T::lt(k, key));
                }
            }
        },
    }
}

/// The leftmost fork of a tree holds its first key; a search tree has no smaller one.
pub proof fn lemma_leftmost<T: Key, A>(t: Shape<T::V, A>)
    requires
        t is Fork,
    ensures
        t.leftmost() is Fork,
        t.leftmost().left() is Nil,
        t.leftmost()->key == t.inorder()[0],
        t.contains(t.leftmost()->key),
        search_tree::<T, A>(t) ==> forall|x: T::V| #[trigger]
            t.contains(x) ==> x == t.leftmost()->key || T::lt(t.leftmost()->key, x),
    decreases t,
{
    let s = t.inorder();
    lemma_inorder_len(t);
    let l = t.left().inorder();
    lemma_inorder_len(t.left());
    assert(s == l.push(t->key) + t.right().inorder());
    if t.left() is Fork {
        lemma_leftmost::<T, A>(t.left());
        assert(s[0] == l[0]);
    } else {
        assert(s[0] == t->key);
    }
    if search_tree::<T, A>(t) {
        assert forall|x: T::V| #[trigger] t.contains(x) implies x == s[0] || T::lt(s[0], x) by {
            let i = choose|i: int| 0 <= i < s.len() && s[i] == x;
            if i > 0 {
                assert(T::lt(s[0], s[i]));
            }
        }
    }
}

/// The rightmost fork of a tree holds its last key; a search tree has no greater one.
pub proof fn lemma_rightmost<T: Key, A>(t: Shape<T::V, A>)
    requires
        t is Fork,
    ensures
        t.rightmost() is Fork,
        t.rightmost().right() is Nil,
        t.rightmost()->key == t.inorder().last(),
        t.contains(t.rightmost()->key),
        search_tree::<T, A>(t) ==> forall|x: T::V| #[trigger]
            t.contains(x) ==> x == t.rightmost()->key || T::lt(x, t.rightmost()->key),
    decreases t,
{
    let s = t.inorder();
    lemma_inorder_len(t);
    let l = t.left().inorder();
    let r = t.right().inorder();
    lemma_inorder_len(t.left());
    lemma_inorder_len(t.right());
    assert(s == l.push(t->key) + r);
    if t.right() is Fork {
        lemma_rightmost::<T, A>(t.right());
        assert(s[s.len() - 1] == r[r.len() - 1]);
    } else {
        assert(s[s.len() - 1] == t->key);
    }
    if search_tree::<T, A>(t) {
        assert forall|x: T::V| #[trigger] t.contains(x) implies x == s.last() || T::lt(
            x,
            s.last(),
        ) by {
            let i = choose|i: int| 0 <= i < s.len() && s[i] == x;
            if i < s.len() - 1 {
                assert(T::lt(s[i], s[s.len() - 1]));
            }
        }
    }
}

} // verus!
