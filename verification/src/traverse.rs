//! Walks over a whole tree without recursion: the three orders in which keys
//! are given out, the count of leaves, and the count of levels.

use vstd::prelude::*;
use crate::key::Key;
use crate::node::{borrow_link, shape_at, shape_of, Link, Node};
use crate::shape::{lemma_at_depth_len, lemma_leaves_le_size, lemma_levels_le_size, Shape};

verus! {

/// The mathematical values of a sequence of keys.
pub open spec fn views<T: Key>(keys: Seq<T>) -> Seq<T::V> {
    keys.map_values(|k: T| k@)
}

/// The trees at a sequence of borrowed nodes.
pub open spec fn shapes<T: Key, A>(nodes: Seq<&Node<T, A>>) -> Seq<Shape<T::V, A>> {
    nodes.map_values(|n: &Node<T, A>| n@)
}

/// What an in-order walk still owes for the forks on its stack, the last of
/// which it took up most recently: for each, its key and then its right subtree.
pub open spec fn owed_inorder<K, A>(stack: Seq<Shape<K, A>>) -> Seq<K>
    decreases stack.len(),
{
    if stack.len() == 0 {
        Seq::empty()
    } else {
        (seq![stack.last()->key] + stack.last().right().inorder()) + owed_inorder(
            stack.drop_last(),
        )
    }
}

/// A bound on the steps that an in-order walk still takes for its stack.
pub open spec fn owed_steps<K, A>(stack: Seq<Shape<K, A>>) -> nat
    decreases stack.len(),
{
    if stack.len() == 0 {
        0
    } else {
        1 + 2 * stack.last().right().size() + owed_steps(stack.drop_last())
    }
}

/// The keys below `link` from left to right, gathered with an explicit stack:
/// go left as far as possible, give out the key, go on with the right subtree.
pub fn inorder<T: Key, A>(link: &Link<T, A>) -> (keys: Vec<T>)
    ensures
        views(keys@) == shape_of(*link).inorder(),
{
    let ghost whole = shape_of(*link);
    let mut out: Vec<T> = Vec::new();
    let mut stack: Vec<&Node<T, A>> = Vec::new();
    let mut cur = borrow_link(link);
    proof {
        assert(views(out@) =~= Seq::<T::V>::empty());
        assert(views(out@) + shape_at(cur).inorder() + owed_inorder(shapes(stack@))
            =~= whole.inorder());
    }
    while cur.is_some() || stack.len() > 0
        invariant
            views(out@) + shape_at(cur).inorder() + owed_inorder(shapes(stack@))
                == whole.inorder(),
        decreases 2 * shape_at(cur).size() + owed_steps(shapes(stack@)),
    {
        let ghost before = shapes(stack@);
        let ghost done = views(out@);
        match cur {
            Some(node) => {
                stack.push(node);
                cur = borrow_link(&node.left);
                proof {
                    let after = shapes(stack@);
                    assert(after.last() == node@);
                    assert(after.drop_last() =~= before);
                    assert(done + shape_at(cur).inorder() + owed_inorder(after) =~= done
                        + node@.inorder() + owed_inorder(before));
                }
            },
            None => {
                let node = stack.pop().unwrap();
                out.push(node.key);
                cur = borrow_link(&node.right);
                proof {
                    let after = shapes(stack@);
                    assert(before.last() == node@);
                    assert(before.drop_last() =~= after);
                    assert(views(out@) =~= done.push(node.key@));
                    assert(views(out@) + shape_at(cur).inorder() + owed_inorder(after) =~= done
                        + Seq::<T::V>::empty() + owed_inorder(before));
                }
            },
        }
    }
    proof {
        assert(shapes(stack@) =~= Seq::<Shape<T::V, A>>::empty());
        assert(views(out@) + shape_at(cur).inorder() + owed_inorder(shapes(stack@)) =~= views(
            out@,
        ));
    }
    out
}

/// What a root-first walk still owes for the subtrees on its stack, the last of
/// which it takes up next: each of them, root first.
pub open spec fn owed_preorder<K, A>(stack: Seq<Shape<K, A>>) -> Seq<K>
    decreases stack.len(),
{
    if stack.len() == 0 {
        Seq::empty()
    } else {
        stack.last().preorder() + owed_preorder(stack.drop_last())
    }
}

/// The number of forks in a sequence of trees.
pub open spec fn total_size<K, A>(trees: Seq<Shape<K, A>>) -> nat
    decreases trees.len(),
{
    if trees.len() == 0 {
        0
    } else {
        trees.last().size() + total_size(trees.drop_last())
    }
}

/// The number of forks without children in a sequence of trees.
pub open spec fn total_leaves<K, A>(trees: Seq<Shape<K, A>>) -> nat
    decreases trees.len(),
{
    if trees.len() == 0 {
        0
    } else {
        trees.last().leaves() + total_leaves(trees.drop_last())
    }
}

/// The keys below `link` root first, gathered with an explicit stack: give out
/// the key of the subtree taken up, put its right subtree aside, go on with the
/// left one.
pub fn preorder<T: Key, A>(link: &Link<T, A>) -> (keys: Vec<T>)
    ensures
        views(keys@) == shape_of(*link).preorder(),
{
    let ghost whole = shape_of(*link);
    let mut out: Vec<T> = Vec::new();
    let mut stack: Vec<&Node<T, A>> = Vec::new();
    match borrow_link(link) {
        Some(node) => {
            stack.push(node);
        },
        None => {},
    }
    proof {
        reveal_with_fuel(owed_preorder, 2);
        assert(views(out@) =~= Seq::<T::V>::empty());
        if whole is Fork {
            assert(shapes(stack@).last() == whole);
            assert(shapes(stack@).drop_last() =~= Seq::<Shape<T::V, A>>::empty());
        }
        assert(views(out@) + owed_preorder(shapes(stack@)) =~= whole.preorder());
    }
    while stack.len() > 0
        invariant
            views(out@) + owed_preorder(shapes(stack@)) == whole.preorder(),
        decreases total_size(shapes(stack@)),
    {
        let ghost before = shapes(stack@);
        let ghost done = views(out@);
        let node = stack.pop().unwrap();
        let ghost rest = shapes(stack@);
        proof {
            assert(before.last() == node@);
            assert(before.drop_last() =~= rest);
        }
        out.push(node.key);
        match borrow_link(&node.right) {
            Some(child) => {
                stack.push(child);
                proof {
                    assert(shapes(stack@).last() == child@);
                    assert(shapes(stack@).drop_last() =~= rest);
                }
            },
            None => {},
        }
        let ghost middle = shapes(stack@);
        proof {
            assert(owed_preorder(middle) =~= node@.right().preorder() + owed_preorder(rest));
            assert(total_size(middle) == node@.right().size() + total_size(rest));
        }
        match borrow_link(&node.left) {
            Some(child) => {
                stack.push(child);
                proof {
                    assert(shapes(stack@).last() == child@);
                    assert(shapes(stack@).drop_last() =~= middle);
                }
            },
            None => {},
        }
        proof {
            let after = shapes(stack@);
            assert(owed_preorder(after) =~= node@.left().preorder() + owed_preorder(middle));
            assert(total_size(after) == node@.left().size() + total_size(middle));
            assert(views(out@) =~= done.push(node.key@));
            assert(views(out@) + owed_preorder(after) =~= done + owed_preorder(before));
        }
    }
    proof {
        assert(views(out@) + owed_preorder(shapes(stack@)) =~= views(out@));
    }
    out
}

/// The number of nodes without children below `link`, counted in a full walk
/// with an explicit stack.
pub fn leaves<T: Key, A>(link: &Link<T, A>) -> (n: u32)
    requires
        shape_of(*link).size() <= u32::MAX,
    ensures
        n == shape_of(*link).leaves(),
{
    let ghost whole = shape_of(*link);
    let mut count: u32 = 0;
    let mut stack: Vec<&Node<T, A>> = Vec::new();
    match borrow_link(link) {
        Some(node) => {
            stack.push(node);
        },
        None => {},
    }
    proof {
        reveal_with_fuel(total_leaves, 2);
        lemma_leaves_le_size(whole);
        if whole is Fork {
            assert(shapes(stack@).last() == whole);
            assert(shapes(stack@).drop_last() =~= Seq::<Shape<T::V, A>>::empty());
        }
    }
    while stack.len() > 0
        invariant
            count + total_leaves(shapes(stack@)) == whole.leaves(),
            whole.leaves() <= u32::MAX,
        decreases total_size(shapes(stack@)),
    {
        let ghost before = shapes(stack@);
        let node = stack.pop().unwrap();
        let ghost rest = shapes(stack@);
        proof {
            assert(before.last() == node@);
            assert(before.drop_last() =~= rest);
        }
        match borrow_link(&node.left) {
            Some(child) => {
                stack.push(child);
                proof {
                    assert(shapes(stack@).last() == child@);
                    assert(shapes(stack@).drop_last() =~= rest);
                }
            },
            None => {},
        }
        let ghost middle = shapes(stack@);
        proof {
            assert(total_leaves(middle) == node@.left().leaves() + total_leaves(rest));
            assert(total_size(middle) == node@.left().size() + total_size(rest));
        }
        match borrow_link(&node.right) {
            Some(child) => {
                stack.push(child);
                proof {
                    assert(shapes(stack@).last() == child@);
                    assert(shapes(stack@).drop_last() =~= middle);
                }
            },
            None => {},
        }
        proof {
            let after = shapes(stack@);
            assert(total_leaves(after) == node@.right().leaves() + total_leaves(middle));
            assert(total_size(after) == node@.right().size() + total_size(middle));
        }
        if node.left.is_none() && node.right.is_none() {
            count = count + 1;
        }
    }
    count
}

/// Keys of the forks `depth` edges below the roots of a sequence of trees, tree
/// by tree.
pub open spec fn row<K, A>(trees: Seq<Shape<K, A>>, depth: nat) -> Seq<K>
    decreases trees.len(),
{
    if trees.len() == 0 {
        Seq::empty()
    } else {
        row(trees.drop_last(), depth) + trees.last().at_depth(depth)
    }
}

/// The row of a sequence of trees with one more tree at its end.
pub proof fn lemma_row_push<K, A>(trees: Seq<Shape<K, A>>, t: Shape<K, A>, depth: nat)
    ensures
        row(trees.push(t), depth) == row(trees, depth) + t.at_depth(depth),
{
    assert(trees.push(t).drop_last() =~= trees);
}

/// A level of a tree: nodes whose subtrees hold, at every depth `e`, what the
/// tree `whole` holds at depth `depth + e`.
pub open spec fn is_level<K, A>(level: Seq<Shape<K, A>>, whole: Shape<K, A>, depth: nat) -> bool {
    forall|e: nat| #[trigger] row(level, e) == whole.at_depth(depth + e)
}

/// A level of nodes is empty exactly from the depth on at which the tree ends.
pub proof fn lemma_level_ends<T: Key, A>(
    level: Seq<&Node<T, A>>,
    whole: Shape<T::V, A>,
    depth: nat,
)
    requires
        is_level(shapes(level), whole, depth),
    ensures
        level.len() > 0 <==> depth < whole.levels(),
{
    let trees = shapes(level);
    assert(row(trees, 0) == whole.at_depth(depth + 0));
    lemma_at_depth_len(whole, depth);
    if level.len() > 0 {
        assert(trees.last() == level.last()@);
        assert(trees.last().at_depth(0).len() == 1);
    }
}

/// The nodes of the level below `level`: the children of its nodes, left
/// before right.
fn children<'a, T: Key, A>(level: &Vec<&'a Node<T, A>>) -> (next: Vec<&'a Node<T, A>>)
    ensures
        forall|e: nat| #[trigger] row(shapes(next@), e) == row(shapes(level@), e + 1),
{
    let mut next: Vec<&Node<T, A>> = Vec::new();
    let n = level.len();
    let mut i: usize = 0;
    proof {
        assert(shapes(level@).take(0) =~= Seq::<Shape<T::V, A>>::empty());
    }
    while i < n
        invariant
            n == level.len(),
            i <= n,
            forall|e: nat| #[trigger]
                row(shapes(next@), e) == row(shapes(level@).take(i as int), e + 1),
        decreases n - i,
    {
        let node = level[i];
        let ghost seen = shapes(level@).take(i as int);
        let ghost queued = shapes(next@);
        proof {
            assert(shapes(level@).take(i + 1) =~= seen.push(node@));
        }
        match borrow_link(&node.left) {
            Some(child) => {
                next.push(child);
                proof {
                    assert(shapes(next@) =~= queued.push(child@));
                }
            },
            None => {},
        }
        let ghost middle = shapes(next@);
        proof {
            assert forall|e: nat| #[trigger]
                row(middle, e) == row(queued, e) + node@.left().at_depth(e) by {
                if node@.left() is Fork {
                    lemma_row_push(queued, node@.left(), e);
                }
            }
        }
        match borrow_link(&node.right) {
            Some(child) => {
                next.push(child);
                proof {
                    assert(shapes(next@) =~= middle.push(child@));
                }
            },
            None => {},
        }
        proof {
            let last = shapes(next@);
            assert forall|e: nat| #[trigger] row(last, e) == row(seen.push(node@), e + 1) by {
                if node@.right() is Fork {
                    lemma_row_push(middle, node@.right(), e);
                }
                lemma_row_push(seen, node@, e + 1);
                assert(row(middle, e) == row(queued, e) + node@.left().at_depth(e));
                assert(row(queued, e) == row(seen, e + 1));
                assert(node@.at_depth(e + 1) == node@.left().at_depth(e) + node@.right().at_depth(
                    e,
                ));
                assert(row(last, e) =~= row(seen.push(node@), e + 1));
            }
        }
        i = i + 1;
    }
    proof {
        assert(shapes(level@).take(n as int) =~= shapes(level@));
    }
    next
}

/// The level of the root: the node at `link`, or no node.
fn root_level<T: Key, A>(link: &Link<T, A>) -> (level: Vec<&Node<T, A>>)
    ensures
        is_level(shapes(level@), shape_of(*link), 0),
{
    let ghost whole = shape_of(*link);
    let mut level: Vec<&Node<T, A>> = Vec::new();
    match borrow_link(link) {
        Some(node) => {
            level.push(node);
        },
        None => {},
    }
    proof {
        assert forall|e: nat| #[trigger] row(shapes(level@), e) == whole.at_depth(0 + e) by {
            if whole is Fork {
                assert(shapes(level@) =~= Seq::<Shape<T::V, A>>::empty().push(whole));
                lemma_row_push(Seq::<Shape<T::V, A>>::empty(), whole, e);
            }
        }
    }
    level
}

/// The level below a level is a level, one deeper.
proof fn lemma_next_level<K, A>(
    level: Seq<Shape<K, A>>,
    next: Seq<Shape<K, A>>,
    whole: Shape<K, A>,
    depth: nat,
)
    requires
        is_level(level, whole, depth),
        forall|e: nat| #[trigger] row(next, e) == row(level, e + 1),
    ensures
        is_level(next, whole, depth + 1),
{
    assert forall|e: nat| #[trigger] row(next, e) == whole.at_depth(depth + 1 + e) by {
        assert(row(level, e + 1) == whole.at_depth(depth + (e + 1)));
    }
}

/// The keys below `link` in breadth-first order, gathered level by level: the
/// nodes of one level give out their keys, and their children make up the next.
pub fn levelorder<T: Key, A>(link: &Link<T, A>) -> (keys: Vec<T>)
    ensures
        views(keys@) == shape_of(*link).levelorder(),
{
    let ghost whole = shape_of(*link);
    let mut out: Vec<T> = Vec::new();
    let mut level = root_level(link);
    let ghost mut depth: nat = 0;
    proof {
        assert(views(out@) =~= whole.above_depth(0));
        lemma_level_ends(level@, whole, depth);
    }
    while level.len() > 0
        invariant
            views(out@) == whole.above_depth(depth),
            is_level(shapes(level@), whole, depth),
            depth <= whole.levels(),
            level.len() == 0 ==> depth == whole.levels(),
        decreases whole.levels() - depth,
    {
        proof {
            lemma_level_ends(level@, whole, depth);
        }
        let ghost done = views(out@);
        let n = level.len();
        let mut i: usize = 0;
        proof {
            assert(shapes(level@).take(0) =~= Seq::<Shape<T::V, A>>::empty());
            assert(views(out@) =~= done + row(shapes(level@).take(0), 0));
        }
        while i < n
            invariant
                n == level.len(),
                i <= n,
                views(out@) == done + row(shapes(level@).take(i as int), 0),
            decreases n - i,
        {
            let node = level[i];
            let ghost seen = shapes(level@).take(i as int);
            let ghost given = views(out@);
            out.push(node.key);
            proof {
                assert(shapes(level@).take(i + 1) =~= seen.push(node@));
                lemma_row_push(seen, node@, 0);
                assert(views(out@) =~= given.push(node.key@));
                assert(node@.at_depth(0) =~= seq![node.key@]);
                assert(views(out@) =~= done + row(seen.push(node@), 0));
            }
            i = i + 1;
        }
        let next = children(&level);
        proof {
            assert(shapes(level@).take(n as int) =~= shapes(level@));
            assert(row(shapes(level@), 0) == whole.at_depth(depth + 0));
            lemma_next_level(shapes(level@), shapes(next@), whole, depth);
            depth = depth + 1;
            lemma_level_ends(next@, whole, depth);
        }
        level = next;
    }
    out
}

/// The number of nodes on the longest path downwards from `link`, counted
/// level by level.
pub fn levels<T: Key, A>(link: &Link<T, A>) -> (n: u32)
    requires
        shape_of(*link).size() <= u32::MAX,
    ensures
        n == shape_of(*link).levels(),
{
    let ghost whole = shape_of(*link);
    let mut depth: u32 = 0;
    let mut level = root_level(link);
    proof {
        lemma_levels_le_size(whole);
        lemma_level_ends(level@, whole, 0);
    }
    while level.len() > 0
        invariant
            is_level(shapes(level@), whole, depth as nat),
            depth <= whole.levels() <= u32::MAX,
            level.len() == 0 ==> depth == whole.levels(),
        decreases whole.levels() - depth,
    {
        proof {
            lemma_level_ends(level@, whole, depth as nat);
        }
        let next = children(&level);
        proof {
            lemma_next_level(shapes(level@), shapes(next@), whole, depth as nat);
            lemma_level_ends(next@, whole, (depth + 1) as nat);
        }
        depth = depth + 1;
        level = next;
    }
    depth
}

} // verus!
