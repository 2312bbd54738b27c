//! Tree nodes and the mathematical model of a subtree.
//!
//! A subtree is a `Link`: either absent or an owned node with two subtrees of
//! its own. Everything the operations promise is phrased over the functions
//! defined here: the height of a subtree, its values in order, the set of its
//! values, and the three invariants of a well-formed subtree.

use crate::order::less;
use vstd::prelude::*;

verus! {

/// One node: a value, the cached height of the subtree it roots, and the two
/// subtrees it owns.
pub struct TreeNode<T: Ord> {
    pub val: T,
    pub height: u32,
    pub left: Option<Box<TreeNode<T>>>,
    pub right: Option<Box<TreeNode<T>>>,
}

/// A subtree: absent, or an owned node.
pub type Link<T> = Option<Box<TreeNode<T>>>;

impl<T: Ord> TreeNode<T> {
    /// A node with the given value and cached height and no subtrees.
    pub fn new(val: T, height: u32) -> (node: Self)
        ensures
            node.val == val,
            node.height == height,
            node.left is None,
            node.right is None,
    {
        TreeNode { val, height, left: None, right: None }
    }
}

/// The larger of two heights.
pub open spec fn taller(a: nat, b: nat) -> nat {
    if a >= b {
        a
    } else {
        b
    }
}

/// The height that the root of `link` has recorded; 0 for an absent subtree.
pub open spec fn cached_height<T: Ord>(link: Link<T>) -> nat {
    match link {
        None => 0,
        Some(n) => n.height as nat,
    }
}

/// The true height of a subtree: 0 when absent, otherwise one more than the
/// taller of its two subtrees.
pub open spec fn height<T: Ord>(link: Link<T>) -> nat
    decreases link,
{
    match link {
        None => 0,
        Some(n) => 1 + taller(height(n.left), height(n.right)),
    }
}

/// The number of nodes in a subtree.
pub open spec fn size<T: Ord>(link: Link<T>) -> nat
    decreases link,
{
    match link {
        None => 0,
        Some(n) => size(n.left) + 1 + size(n.right),
    }
}

/// The values of a subtree from left to right.
pub open spec fn in_order<T: Ord>(link: Link<T>) -> Seq<T>
    decreases link,
{
    match link {
        None => Seq::empty(),
        Some(n) => in_order(n.left).push(n.val) + in_order(n.right),
    }
}

/// The set of values held in a subtree.
pub open spec fn contents<T: Ord>(link: Link<T>) -> Set<T>
    decreases link,
{
    match link {
        None => Set::empty(),
        Some(n) => contents(n.left).union(contents(n.right)).insert(n.val),
    }
}

/// Every value of `link` sorts strictly before `bound`.
pub open spec fn all_below<T: Ord>(link: Link<T>, bound: T) -> bool {
    forall|x: T| #[trigger] contents(link).contains(x) ==> less(x, bound)
}

/// Every value of `link` sorts strictly after `bound`.
pub open spec fn all_above<T: Ord>(link: Link<T>, bound: T) -> bool {
    forall|x: T| #[trigger] contents(link).contains(x) ==> less(bound, x)
}

/// Search-tree ordering: at every node the left subtree holds only smaller
/// values and the right subtree only larger ones.
pub open spec fn ordered<T: Ord>(link: Link<T>) -> bool
    decreases link,
{
    match link {
        None => true,
        Some(n) => {
            &&& ordered(n.left)
            &&& ordered(n.right)
            &&& all_below(n.left, n.val)
            &&& all_above(n.right, n.val)
        },
    }
}

/// Balance: at every node the heights of the two subtrees differ by at most
/// one.
pub open spec fn balanced<T: Ord>(link: Link<T>) -> bool
    decreases link,
{
    match link {
        None => true,
        Some(n) => {
            &&& balanced(n.left)
            &&& balanced(n.right)
            &&& height(n.left) <= height(n.right) + 1
            &&& height(n.right) <= height(n.left) + 1
        },
    }
}

/// Height bookkeeping: every node's cached height is the true height of the
/// subtree it roots.
pub open spec fn heights_cached<T: Ord>(link: Link<T>) -> bool
    decreases link,
{
    match link {
        None => true,
        Some(n) => {
            &&& heights_cached(n.left)
            &&& heights_cached(n.right)
            &&& n.height as nat == height(link)
        },
    }
}

/// A subtree that satisfies all three invariants.
pub open spec fn well_formed<T: Ord>(link: Link<T>) -> bool {
    ordered(link) && balanced(link) && heights_cached(link)
}

/// Whether the cached height of `node` can be recomputed from its subtrees
/// without leaving `u32`.
pub open spec fn height_fits<T: Ord>(node: TreeNode<T>) -> bool {
    taller(cached_height(node.left), cached_height(node.right)) < u32::MAX
}

/// `node` with its cached height recomputed from the cached heights of its
/// two subtrees.
pub open spec fn with_height<T: Ord>(node: TreeNode<T>) -> TreeNode<T>
    recommends
        height_fits(node),
{
    TreeNode {
        val: node.val,
        height: (1 + taller(cached_height(node.left), cached_height(node.right))) as u32,
        left: node.left,
        right: node.right,
    }
}

/// `n` with `left` in place of its left subtree.
pub open spec fn with_left<T: Ord>(n: TreeNode<T>, left: Link<T>) -> TreeNode<T> {
    TreeNode { val: n.val, height: n.height, left, right: n.right }
}

/// `n` with `right` in place of its right subtree.
pub open spec fn with_right<T: Ord>(n: TreeNode<T>, right: Link<T>) -> TreeNode<T> {
    TreeNode { val: n.val, height: n.height, left: n.left, right }
}

/// `n` with `val` in place of its value.
pub open spec fn with_val<T: Ord>(n: TreeNode<T>, val: T) -> TreeNode<T> {
    TreeNode { val, height: n.height, left: n.left, right: n.right }
}

} // verus!
