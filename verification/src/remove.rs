//! Removal.

use crate::balance::{lemma_cached_is_height, lemma_rebalanced, rebalance_ready, rebalanced};
use crate::node::{
    cached_height, contents, height, ordered, size, well_formed, with_height, with_left,
    with_right, with_val, Link, TreeNode,
};
use crate::order::{compare, lemma_less_transitive, lemma_less_trichotomy, less, total_order, Rank};
use crate::tree::Tree;
use vstd::prelude::*;

verus! {

/// The value found by following left subtrees from `n` as far as they go.
pub open spec fn leftmost<T: Ord>(n: TreeNode<T>) -> T
    decreases n,
{
    match n.left {
        None => n.val,
        Some(l) => leftmost(*l),
    }
}

/// The value found by following right subtrees from `n` as far as they go.
pub open spec fn rightmost<T: Ord>(n: TreeNode<T>) -> T
    decreases n,
{
    match n.right {
        None => n.val,
        Some(r) => rightmost(*r),
    }
}

/// The subtree that removing `val` makes of `link`.
///
/// The node that holds `val` is found by search. If it lacks a subtree, the
/// other subtree takes its place. If it has both, it takes over the nearest
/// value of its taller subtree (of the right one when they are equally
/// tall): the leftmost value of the right subtree or the rightmost value of
/// the left one, and that value is removed from the subtree it came from.
/// Every node on the way back up is rebalanced.
pub open spec fn removed<T: Ord>(link: Link<T>, val: T) -> Link<T>
    decreases link,
{
    match link {
        None => None,
        Some(n) => if less(val, n.val) {
            Some(Box::new(rebalanced(with_left(*n, removed(n.left, val)))))
        } else if less(n.val, val) {
            Some(Box::new(rebalanced(with_right(*n, removed(n.right, val)))))
        } else if n.left is None {
            n.right
        } else if n.right is None {
            n.left
        } else if cached_height(n.right) >= cached_height(n.left) {
            let next = leftmost(*n.right.unwrap());
            Some(Box::new(rebalanced(with_val(with_right(*n, removed(n.right, next)), next))))
        } else {
            let prev = rightmost(*n.left.unwrap());
            Some(Box::new(rebalanced(with_val(with_left(*n, removed(n.left, prev)), prev))))
        },
    }
}

/// The leftmost value of a search tree is its least value.
pub proof fn lemma_leftmost_least<T: Ord>(n: TreeNode<T>)
    requires
        total_order::<T>(),
        ordered(Some(Box::new(n))),
    ensures
        contents(Some(Box::new(n))).contains(leftmost(n)),
        forall|x: T| #[trigger]
            contents(Some(Box::new(n))).contains(x) ==> x == leftmost(n) || less(leftmost(n), x),
    decreases n,
{
    match n.left {
        None => {
            assert forall|x: T| #[trigger]
                contents(Some(Box::new(n))).contains(x) implies x == leftmost(n) || less(
                leftmost(n),
                x,
            ) by {
                assert(contents(n.left) =~= Set::<T>::empty());
                if x != n.val {
                    assert(contents(n.right).contains(x));
                }
            }
        },
        Some(l) => {
            lemma_leftmost_least(*l);
            let least = leftmost(*l);
            assert(contents(n.left).contains(least));
            assert(less(least, n.val));
            assert forall|x: T| contents(Some(Box::new(n))).contains(x) implies x == leftmost(n)
                || less(leftmost(n), x) by {
                if contents(n.right).contains(x) {
                    lemma_less_transitive(least, n.val, x);
                }
            }
        },
    }
}

/// The rightmost value of a search tree is its greatest value.
pub proof fn lemma_rightmost_greatest<T: Ord>(n: TreeNode<T>)
    requires
        total_order::<T>(),
        ordered(Some(Box::new(n))),
    ensures
        contents(Some(Box::new(n))).contains(rightmost(n)),
        forall|x: T| #[trigger]
            contents(Some(Box::new(n))).contains(x) ==> x == rightmost(n) || less(x, rightmost(n)),
    decreases n,
{
    match n.right {
        None => {
            assert forall|x: T| #[trigger]
                contents(Some(Box::new(n))).contains(x) implies x == rightmost(n) || less(
                x,
                rightmost(n),
            ) by {
                assert(contents(n.right) =~= Set::<T>::empty());
                if x != n.val {
                    assert(contents(n.left).contains(x));
                }
            }
        },
        Some(r) => {
            lemma_rightmost_greatest(*r);
            let greatest = rightmost(*r);
            assert(contents(n.right).contains(greatest));
            assert(less(n.val, greatest));
            assert forall|x: T| contents(Some(Box::new(n))).contains(x) implies x == rightmost(n)
                || less(x, rightmost(n)) by {
                if contents(n.left).contains(x) {
                    lemma_less_transitive(x, n.val, greatest);
                }
            }
        },
    }
}

/// A value of a search tree is neither in the left subtree of the node that
/// holds it nor in the right one.
proof fn lemma_value_not_below<T: Ord>(n: TreeNode<T>)
    requires
        total_order::<T>(),
        ordered(Some(Box::new(n))),
    ensures
        !contents(n.left).contains(n.val),
        !contents(n.right).contains(n.val),
{
    lemma_less_trichotomy(n.val, n.val);
}

/// What removal promises of its result `out`, given the subtree `link` it
/// started from.
pub open spec fn removal_holds<T: Ord>(link: Link<T>, val: T, out: Link<T>) -> bool {
    &&& well_formed(out)
    &&& contents(out) == contents(link).remove(val)
    &&& !contents(link).contains(val) ==> out == link
    &&& contents(link).contains(val) ==> size(out) + 1 == size(link)
    &&& height(out) <= height(link) <= height(out) + 1
}

/// Removal of a smaller value: the step at a node whose left subtree `rest`
/// already is what removal made of it.
proof fn lemma_removed_on_left<T: Ord>(n: TreeNode<T>, val: T, rest: Link<T>)
    requires
        total_order::<T>(),
        well_formed(Some(Box::new(n))),
        less(val, n.val),
        removal_holds(n.left, val, rest),
    ensures
        removal_holds(Some(Box::new(n)), val, Some(Box::new(rebalanced(with_left(n, rest))))),
{
    let link = Some(Box::new(n));
    let m = with_left(n, rest);
    lemma_less_trichotomy(val, n.val);
    assert(rebalance_ready(m));
    lemma_rebalanced(m);
    assert(!contents(n.right).contains(val));
    assert(contents(Some(Box::new(m))) =~= contents(link).remove(val));
    assert(size(Some(Box::new(m))) == size(rest) + 1 + size(n.right));
    if !contents(link).contains(val) {
        assert(with_height(m) == n);
    }
}

/// Removal of a larger value: the step at a node whose right subtree `rest`
/// already is what removal made of it.
proof fn lemma_removed_on_right<T: Ord>(n: TreeNode<T>, val: T, rest: Link<T>)
    requires
        total_order::<T>(),
        well_formed(Some(Box::new(n))),
        less(n.val, val),
        removal_holds(n.right, val, rest),
    ensures
        removal_holds(Some(Box::new(n)), val, Some(Box::new(rebalanced(with_right(n, rest))))),
{
    let link = Some(Box::new(n));
    let m = with_right(n, rest);
    lemma_less_trichotomy(n.val, val);
    assert(rebalance_ready(m));
    lemma_rebalanced(m);
    assert(!contents(n.left).contains(val));
    assert(contents(Some(Box::new(m))) =~= contents(link).remove(val));
    assert(size(Some(Box::new(m))) == size(n.left) + 1 + size(rest));
    if !contents(link).contains(val) {
        assert(with_height(m) == n);
    }
}

/// Removal of the value of a node with two subtrees, the right one at least
/// as tall: the node takes the least value of its right subtree, and `rest`
/// is what removing that value made of the right subtree.
proof fn lemma_removed_takes_next<T: Ord>(n: TreeNode<T>, rest: Link<T>)
    requires
        total_order::<T>(),
        well_formed(Some(Box::new(n))),
        n.left is Some,
        n.right is Some,
        height(n.right) >= height(n.left),
        removal_holds(n.right, leftmost(*n.right.unwrap()), rest),
    ensures
        removal_holds(
            Some(Box::new(n)),
            n.val,
            Some(
                Box::new(
                    rebalanced(with_val(with_right(n, rest), leftmost(*n.right.unwrap()))),
                ),
            ),
        ),
        rebalanced(with_val(with_right(n, rest), leftmost(*n.right.unwrap()))) == with_height(
            with_val(with_right(n, rest), leftmost(*n.right.unwrap())),
        ),
{
    let link = Some(Box::new(n));
    let next = leftmost(*n.right.unwrap());
    let m = with_val(with_right(n, rest), next);
    lemma_leftmost_least(*n.right.unwrap());
    lemma_value_not_below(n);
    assert(less(n.val, next));
    assert forall|x: T| contents(m.left).contains(x) implies less(x, next) by {
        lemma_less_transitive(x, n.val, next);
    }
    assert(!contents(n.left).contains(next)) by {
        lemma_less_trichotomy(next, n.val);
    }
    assert(rebalance_ready(m));
    lemma_rebalanced(m);
    assert(contents(Some(Box::new(m))) =~= contents(link).remove(n.val));
    assert(size(Some(Box::new(m))) == size(n.left) + 1 + size(rest));
}

/// Removal of the value of a node with two subtrees, the left one taller:
/// the node takes the greatest value of its left subtree, and `rest` is what
/// removing that value made of the left subtree.
proof fn lemma_removed_takes_prev<T: Ord>(n: TreeNode<T>, rest: Link<T>)
    requires
        total_order::<T>(),
        well_formed(Some(Box::new(n))),
        n.left is Some,
        n.right is Some,
        height(n.left) > height(n.right),
        removal_holds(n.left, rightmost(*n.left.unwrap()), rest),
    ensures
        removal_holds(
            Some(Box::new(n)),
            n.val,
            Some(
                Box::new(
                    rebalanced(with_val(with_left(n, rest), rightmost(*n.left.unwrap()))),
                ),
            ),
        ),
        rebalanced(with_val(with_left(n, rest), rightmost(*n.left.unwrap()))) == with_height(
            with_val(with_left(n, rest), rightmost(*n.left.unwrap())),
        ),
{
    let link = Some(Box::new(n));
    let prev = rightmost(*n.left.unwrap());
    let m = with_val(with_left(n, rest), prev);
    lemma_rightmost_greatest(*n.left.unwrap());
    lemma_value_not_below(n);
    assert(less(prev, n.val));
    assert forall|x: T| contents(m.right).contains(x) implies less(prev, x) by {
        lemma_less_transitive(prev, n.val, x);
    }
    assert(!contents(n.right).contains(prev)) by {
        lemma_less_trichotomy(prev, n.val);
    }
    assert(rebalance_ready(m));
    lemma_rebalanced(m);
    assert(contents(Some(Box::new(m))) =~= contents(link).remove(n.val));
    assert(size(Some(Box::new(m))) == size(rest) + 1 + size(n.right));
}

/// Removal from a well-formed subtree gives a well-formed subtree that holds
/// the old values but the removed one, and is as tall as before or one
/// shorter. If the value was not there, nothing changes.
pub proof fn lemma_removed<T: Ord>(link: Link<T>, val: T)
    requires
        total_order::<T>(),
        well_formed(link),
    ensures
        removal_holds(link, val, removed(link, val)),
    decreases link,
{
    match link {
        None => {
            assert(contents(link).remove(val) =~= contents(link));
        },
        Some(n) => {
            lemma_less_trichotomy(val, n.val);
            lemma_cached_is_height(n.left);
            lemma_cached_is_height(n.right);
            if less(val, n.val) {
                lemma_removed(n.left, val);
                lemma_removed_on_left(*n, val, removed(n.left, val));
            } else if less(n.val, val) {
                lemma_removed(n.right, val);
                lemma_removed_on_right(*n, val, removed(n.right, val));
            } else if n.left is None {
                lemma_value_not_below(*n);
                assert(contents(n.left) =~= Set::<T>::empty());
                assert(contents(n.right) =~= contents(link).remove(val));
                assert(size(n.left) == 0 && height(n.left) == 0);
            } else if n.right is None {
                lemma_value_not_below(*n);
                assert(contents(n.right) =~= Set::<T>::empty());
                assert(contents(n.left) =~= contents(link).remove(val));
                assert(size(n.right) == 0 && height(n.right) == 0);
            } else if cached_height(n.right) >= cached_height(n.left) {
                lemma_removed(n.right, leftmost(*n.right.unwrap()));
                lemma_removed_takes_next(*n, removed(n.right, leftmost(*n.right.unwrap())));
            } else {
                lemma_removed(n.left, rightmost(*n.left.unwrap()));
                lemma_removed_takes_prev(*n, removed(n.left, rightmost(*n.left.unwrap())));
            }
        },
    }
}

/// Removing the value of a node that has two subtrees changes one of them
/// only. Where the right subtree is at least as tall as the left, and so
/// whenever the two are equally tall, the node takes the leftmost value of
/// its right subtree, that value is removed from the right subtree, and the
/// left subtree stays as it is. Where the left subtree is taller, the node
/// takes the rightmost value of its left subtree, that value is removed
/// from the left subtree, and the right subtree stays as it is.
pub proof fn lemma_removed_between_subtrees<T: Ord>(n: TreeNode<T>)
    requires
        total_order::<T>(),
        well_formed(Some(Box::new(n))),
        n.left is Some,
        n.right is Some,
    ensures
        removed(Some(Box::new(n)), n.val) is Some,
        height(n.right) >= height(n.left) ==> {
            let out = removed(Some(Box::new(n)), n.val).unwrap();
            &&& out.val == leftmost(*n.right.unwrap())
            &&& out.left == n.left
            &&& out.right == removed(n.right, out.val)
        },
        height(n.right) < height(n.left) ==> {
            let out = removed(Some(Box::new(n)), n.val).unwrap();
            &&& out.val == rightmost(*n.left.unwrap())
            &&& out.left == removed(n.left, out.val)
            &&& out.right == n.right
        },
{
    lemma_less_trichotomy(n.val, n.val);
    lemma_cached_is_height(n.left);
    lemma_cached_is_height(n.right);
    if height(n.right) >= height(n.left) {
        let next = leftmost(*n.right.unwrap());
        lemma_removed(n.right, next);
        lemma_removed_takes_next(n, removed(n.right, next));
    } else {
        let prev = rightmost(*n.left.unwrap());
        lemma_removed(n.left, prev);
        lemma_removed_takes_prev(n, removed(n.left, prev));
    }
}

impl<T: Ord + Copy> Tree<T> {
    /// The leftmost value below and including `node`.
    pub fn leftmost_value(node: &TreeNode<T>) -> (v: T)
        ensures
            v == leftmost(*node),
        decreases node,
    {
        match &node.left {
            None => node.val,
            Some(l) => Self::leftmost_value(l),
        }
    }

    /// The rightmost value below and including `node`.
    pub fn rightmost_value(node: &TreeNode<T>) -> (v: T)
        ensures
            v == rightmost(*node),
        decreases node,
    {
        match &node.right {
            None => node.val,
            Some(r) => Self::rightmost_value(r),
        }
    }

    /// Removes `val` from below `node` and returns the new root of that
    /// subtree, together with whether the value was found.
    pub fn remove_with_node(node: Link<T>, val: &T) -> (res: (Link<T>, bool))
        requires
            total_order::<T>(),
            well_formed(node),
        ensures
            res.0 == removed(node, *val),
            res.1 == contents(node).contains(*val),
            !res.1 ==> res.0 == node,
            well_formed(res.0),
            contents(res.0) == contents(node).remove(*val),
            res.1 ==> size(res.0) + 1 == size(node),
            height(res.0) <= height(node) <= height(res.0) + 1,
        decreases node,
    {
        proof {
            lemma_removed(node, *val);
        }
        match node {
            None => (None, false),
            Some(mut n) => {
                proof {
                    lemma_less_trichotomy(*val, n.val);
                    lemma_cached_is_height(n.left);
                    lemma_cached_is_height(n.right);
                }
                match compare(&n.val, val) {
                    Rank::Above => {
                        let (left, found) = Self::remove_with_node(n.left.take(), val);
                        n.left = left;
                        (Self::rebalance(Some(n)), found)
                    },
                    Rank::Below => {
                        let (right, found) = Self::remove_with_node(n.right.take(), val);
                        n.right = right;
                        (Self::rebalance(Some(n)), found)
                    },
                    Rank::Same => {
                        if n.left.is_none() {
                            return (n.right, true);
                        }
                        if n.right.is_none() {
                            return (n.left, true);
                        }
                        if Self::get_node_height(&n.right) >= Self::get_node_height(&n.left) {
                            let right = n.right.take().unwrap();
                            let next = Self::leftmost_value(&right);
                            n.val = next;
                            let (rest, _) = Self::remove_with_node(Some(right), &next);
                            n.right = rest;
                        } else {
                            let left = n.left.take().unwrap();
                            let prev = Self::rightmost_value(&left);
                            n.val = prev;
                            let (rest, _) = Self::remove_with_node(Some(left), &prev);
                            n.left = rest;
                        }
                        (Self::rebalance(Some(n)), true)
                    },
                }
            },
        }
    }
}

} // verus!
