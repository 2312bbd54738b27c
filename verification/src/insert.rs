//! Insertion.

use crate::balance::{lemma_cached_is_height, lemma_rebalanced, rebalance_ready, rebalanced};
use crate::node::{
    contents, height, size, well_formed, with_height, with_left, with_right, Link, TreeNode,
};
use crate::order::{compare, lemma_less_trichotomy, less, total_order, Rank};
use crate::tree::Tree;
use vstd::prelude::*;

verus! {

/// A subtree of one node holding `val`.
pub open spec fn leaf<T: Ord>(val: T) -> Link<T> {
    Some(Box::new(TreeNode { val, height: 1, left: None, right: None }))
}

/// The subtree that inserting `val` makes of `link`: the value goes where
/// the search for it ends, and every node on the way back up is rebalanced.
/// A node that already holds `val` is left alone.
pub open spec fn inserted<T: Ord>(link: Link<T>, val: T) -> Link<T>
    decreases link,
{
    match link {
        None => leaf(val),
        Some(n) => if less(val, n.val) {
            Some(Box::new(rebalanced(with_left(*n, inserted(n.left, val)))))
        } else if less(n.val, val) {
            Some(Box::new(rebalanced(with_right(*n, inserted(n.right, val)))))
        } else {
            link
        },
    }
}

/// Insertion into a well-formed subtree gives a well-formed subtree that
/// holds the old values and the new one, and is as tall as before or one
/// taller. If the value was there already, nothing changes.
pub proof fn lemma_inserted<T: Ord>(link: Link<T>, val: T)
    requires
        total_order::<T>(),
        well_formed(link),
        height(link) < u32::MAX,
    ensures
        well_formed(inserted(link, val)),
        contents(inserted(link, val)) == contents(link).insert(val),
        contents(link).contains(val) ==> inserted(link, val) == link,
        !contents(link).contains(val) ==> size(inserted(link, val)) == size(link) + 1,
        height(link) <= height(inserted(link, val)) <= height(link) + 1,
    decreases link,
{
    match link {
        None => {
            assert(contents(leaf(val)) =~= contents(link).insert(val));
            assert(well_formed(leaf(val)));
        },
        Some(n) => {
            lemma_less_trichotomy(val, n.val);
            if less(val, n.val) {
                lemma_inserted(n.left, val);
                let m = with_left(*n, inserted(n.left, val));
                assert(rebalance_ready(m));
                lemma_rebalanced(m);
                assert(contents(Some(Box::new(m))) =~= contents(link).insert(val));
                assert(size(Some(Box::new(m))) == size(inserted(n.left, val)) + 1 + size(n.right));
                assert(!contents(n.right).contains(val));
                if contents(link).contains(val) {
                    assert(with_height(m) == *n);
                }
            } else if less(n.val, val) {
                lemma_inserted(n.right, val);
                let m = with_right(*n, inserted(n.right, val));
                assert(rebalance_ready(m));
                lemma_rebalanced(m);
                assert(contents(Some(Box::new(m))) =~= contents(link).insert(val));
                assert(size(Some(Box::new(m))) == size(n.left) + 1 + size(inserted(n.right, val)));
                assert(!contents(n.left).contains(val));
                if contents(link).contains(val) {
                    assert(with_height(m) == *n);
                }
            } else {
                assert(contents(link).insert(val) =~= contents(link));
            }
        },
    }
}

impl<T: Ord> Tree<T> {
    /// Inserts `val` below `node` and returns the new root of that subtree,
    /// together with whether the value was new.
    pub fn insert_with_node(node: Link<T>, val: T) -> (res: (Link<T>, bool))
        requires
            total_order::<T>(),
            well_formed(node),
            height(node) < u32::MAX,
        ensures
            res.0 == inserted(node, val),
            res.1 == !contents(node).contains(val),
            !res.1 ==> res.0 == node,
            well_formed(res.0),
            contents(res.0) == contents(node).insert(val),
            res.1 ==> size(res.0) == size(node) + 1,
            height(node) <= height(res.0) <= height(node) + 1,
        decreases node,
    {
        proof {
            lemma_inserted(node, val);
        }
        match node {
            None => (Some(Box::new(TreeNode::new(val, 1))), true),
            Some(mut n) => {
                proof {
                    lemma_less_trichotomy(val, n.val);
                }
                match compare(&n.val, &val) {
                    Rank::Same => (Some(n), false),
                    Rank::Above => {
                        let (left, grew) = Self::insert_with_node(n.left.take(), val);
                        n.left = left;
                        proof {
                            lemma_cached_is_height(n.left);
                            lemma_cached_is_height(n.right);
                        }
                        (Self::rebalance(Some(n)), grew)
                    },
                    Rank::Below => {
                        let (right, grew) = Self::insert_with_node(n.right.take(), val);
                        n.right = right;
                        proof {
                            lemma_cached_is_height(n.left);
                            lemma_cached_is_height(n.right);
                        }
                        (Self::rebalance(Some(n)), grew)
                    },
                }
            },
        }
    }
}

} // verus!
