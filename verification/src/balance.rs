//! Height bookkeeping, the two rotations, and rebalancing of one node.

use crate::node::{
    all_above, all_below, balanced, cached_height, contents, height, height_fits, heights_cached,
    in_order, ordered, size, taller, well_formed, with_height, with_left, with_right, Link,
    TreeNode,
};
use crate::order::{lemma_less_transitive, less, total_order};
use crate::tree::Tree;
use vstd::prelude::*;

verus! {

/// The subtree that a left rotation makes of `n`: the right child becomes the
/// root, its former left subtree becomes the right subtree of `n`, and `n`
/// becomes the left child of the new root. Both cached heights are
/// recomputed, the child's first.
pub open spec fn rotated_left<T: Ord>(n: TreeNode<T>) -> TreeNode<T>
    recommends
        n.right is Some,
{
    let r = n.right.unwrap();
    let child = with_height(with_right(n, r.left));
    with_height(with_left(*r, Some(Box::new(child))))
}

/// The mirror image of `rotated_left`.
pub open spec fn rotated_right<T: Ord>(n: TreeNode<T>) -> TreeNode<T>
    recommends
        n.left is Some,
{
    let l = n.left.unwrap();
    let child = with_height(with_left(n, l.right));
    with_height(with_right(*l, Some(Box::new(child))))
}

/// A left rotation of `n` is possible and both recomputed heights fit `u32`.
pub open spec fn can_rotate_left<T: Ord>(n: TreeNode<T>) -> bool {
    &&& n.right is Some
    &&& cached_height(n.left) + 2 <= u32::MAX
    &&& cached_height(n.right.unwrap().left) + 2 <= u32::MAX
    &&& cached_height(n.right.unwrap().right) + 1 <= u32::MAX
}

/// A right rotation of `n` is possible and both recomputed heights fit `u32`.
pub open spec fn can_rotate_right<T: Ord>(n: TreeNode<T>) -> bool {
    &&& n.left is Some
    &&& cached_height(n.right) + 2 <= u32::MAX
    &&& cached_height(n.left.unwrap().right) + 2 <= u32::MAX
    &&& cached_height(n.left.unwrap().left) + 1 <= u32::MAX
}

/// A rotation to the left keeps the values, their order from left to right,
/// and their number.
pub proof fn lemma_rotated_left_keeps<T: Ord>(n: TreeNode<T>)
    requires
        n.right is Some,
    ensures
        in_order(Some(Box::new(rotated_left(n)))) == in_order(Some(Box::new(n))),
        contents(Some(Box::new(rotated_left(n)))) == contents(Some(Box::new(n))),
        size(Some(Box::new(rotated_left(n)))) == size(Some(Box::new(n))),
        rotated_left(n).val == n.right.unwrap().val,
{
    let r = n.right.unwrap();
    let top = rotated_left(n);
    let child = top.left.unwrap();
    assert(in_order(Some(child)) == in_order(n.left).push(n.val) + in_order(r.left));
    assert(in_order(Some(r)) == in_order(r.left).push(r.val) + in_order(r.right));
    assert(in_order(Some(Box::new(top))) =~= in_order(Some(Box::new(n))));
    assert(contents(Some(child)) == contents(n.left).union(contents(r.left)).insert(n.val));
    assert(contents(Some(r)) == contents(r.left).union(contents(r.right)).insert(r.val));
    assert(contents(Some(Box::new(top))) =~= contents(Some(Box::new(n))));
    assert(size(Some(child)) == size(n.left) + 1 + size(r.left));
    assert(size(Some(r)) == size(r.left) + 1 + size(r.right));
}

/// A rotation to the right keeps the values, their order from left to right,
/// and their number.
pub proof fn lemma_rotated_right_keeps<T: Ord>(n: TreeNode<T>)
    requires
        n.left is Some,
    ensures
        in_order(Some(Box::new(rotated_right(n)))) == in_order(Some(Box::new(n))),
        contents(Some(Box::new(rotated_right(n)))) == contents(Some(Box::new(n))),
        size(Some(Box::new(rotated_right(n)))) == size(Some(Box::new(n))),
        rotated_right(n).val == n.left.unwrap().val,
{
    let l = n.left.unwrap();
    let top = rotated_right(n);
    let child = top.right.unwrap();
    assert(in_order(Some(child)) == in_order(l.right).push(n.val) + in_order(n.right));
    assert(in_order(Some(l)) == in_order(l.left).push(l.val) + in_order(l.right));
    assert(in_order(Some(Box::new(top))) =~= in_order(Some(Box::new(n))));
    assert(contents(Some(child)) == contents(l.right).union(contents(n.right)).insert(n.val));
    assert(contents(Some(l)) == contents(l.left).union(contents(l.right)).insert(l.val));
    assert(contents(Some(Box::new(top))) =~= contents(Some(Box::new(n))));
    assert(size(Some(child)) == size(l.right) + 1 + size(n.right));
    assert(size(Some(l)) == size(l.left) + 1 + size(l.right));
}

/// A rotation to the left of a search tree gives a search tree.
pub proof fn lemma_rotated_left_ordered<T: Ord>(n: TreeNode<T>)
    requires
        total_order::<T>(),
        n.right is Some,
        ordered(Some(Box::new(n))),
    ensures
        ordered(Some(Box::new(rotated_left(n)))),
{
    let r = n.right.unwrap();
    let top = rotated_left(n);
    let child = top.left.unwrap();
    assert(ordered(Some(r)));
    assert(contents(Some(r)) == contents(r.left).union(contents(r.right)).insert(r.val));
    assert(contents(Some(r)).contains(r.val));
    assert(less(n.val, r.val));
    assert(contents(Some(child)) == contents(n.left).union(contents(r.left)).insert(n.val));
    assert forall|x: T| contents(r.left).contains(x) implies less(n.val, x) by {
        assert(contents(Some(r)).contains(x));
    }
    assert(ordered(Some(child)));
    assert forall|x: T| contents(Some(child)).contains(x) implies less(x, r.val) by {
        if contents(n.left).contains(x) {
            lemma_less_transitive(x, n.val, r.val);
        }
    }
}

/// A rotation to the right of a search tree gives a search tree.
pub proof fn lemma_rotated_right_ordered<T: Ord>(n: TreeNode<T>)
    requires
        total_order::<T>(),
        n.left is Some,
        ordered(Some(Box::new(n))),
    ensures
        ordered(Some(Box::new(rotated_right(n)))),
{
    let l = n.left.unwrap();
    let top = rotated_right(n);
    let child = top.right.unwrap();
    assert(ordered(Some(l)));
    assert(contents(Some(l)) == contents(l.left).union(contents(l.right)).insert(l.val));
    assert(contents(Some(l)).contains(l.val));
    assert(less(l.val, n.val));
    assert(contents(Some(child)) == contents(l.right).union(contents(n.right)).insert(n.val));
    assert forall|x: T| contents(l.right).contains(x) implies less(x, n.val) by {
        assert(contents(Some(l)).contains(x));
    }
    assert(ordered(Some(child)));
    assert forall|x: T| contents(Some(child)).contains(x) implies less(l.val, x) by {
        if contents(n.right).contains(x) {
            lemma_less_transitive(l.val, n.val, x);
        }
    }
}

/// What rebalancing makes of `n`: its height is recomputed; if its left
/// subtree is then more than one taller than its right, it is rotated to
/// the right, after its left child was rotated to the left where that child
/// leans to the right; the mirror image where the right subtree is too tall;
/// otherwise nothing more happens.
#[verifier::opaque]
pub open spec fn rebalanced<T: Ord>(n: TreeNode<T>) -> TreeNode<T> {
    let m = with_height(n);
    let hl = cached_height(m.left);
    let hr = cached_height(m.right);
    if hl > hr + 1 {
        let l = m.left.unwrap();
        if cached_height(l.right) > cached_height(l.left) {
            rotated_right(with_left(m, Some(Box::new(rotated_left(*l)))))
        } else {
            rotated_right(m)
        }
    } else if hr > hl + 1 {
        let r = m.right.unwrap();
        if cached_height(r.left) > cached_height(r.right) {
            rotated_left(with_right(m, Some(Box::new(rotated_right(*r)))))
        } else {
            rotated_left(m)
        }
    } else {
        m
    }
}

/// Rebalancing keeps the values, their order from left to right, and their
/// number, whatever the shape of the subtree.
pub proof fn lemma_rebalanced_keeps<T: Ord>(n: TreeNode<T>)
    ensures
        in_order(Some(Box::new(rebalanced(n)))) == in_order(Some(Box::new(n))),
        contents(Some(Box::new(rebalanced(n)))) == contents(Some(Box::new(n))),
        size(Some(Box::new(rebalanced(n)))) == size(Some(Box::new(n))),
{
    reveal(rebalanced);
    let m = with_height(n);
    let hl = cached_height(m.left);
    let hr = cached_height(m.right);
    assert(in_order(Some(Box::new(m))) == in_order(Some(Box::new(n))));
    assert(contents(Some(Box::new(m))) == contents(Some(Box::new(n))));
    assert(size(Some(Box::new(m))) == size(Some(Box::new(n))));
    if hl > hr + 1 {
        let l = m.left.unwrap();
        if cached_height(l.right) > cached_height(l.left) {
            let m2 = with_left(m, Some(Box::new(rotated_left(*l))));
            lemma_rotated_left_keeps(*l);
            assert(in_order(Some(Box::new(m2))) == in_order(Some(Box::new(m))));
            assert(contents(Some(Box::new(m2))) == contents(Some(Box::new(m))));
            assert(size(Some(Box::new(m2))) == size(Some(Box::new(m))));
            lemma_rotated_right_keeps(m2);
        } else {
            lemma_rotated_right_keeps(m);
        }
    } else if hr > hl + 1 {
        let r = m.right.unwrap();
        if cached_height(r.left) > cached_height(r.right) {
            let m2 = with_right(m, Some(Box::new(rotated_right(*r))));
            lemma_rotated_right_keeps(*r);
            assert(in_order(Some(Box::new(m2))) == in_order(Some(Box::new(m))));
            assert(contents(Some(Box::new(m2))) == contents(Some(Box::new(m))));
            assert(size(Some(Box::new(m2))) == size(Some(Box::new(m))));
            lemma_rotated_left_keeps(m2);
        } else {
            lemma_rotated_left_keeps(m);
        }
    }
}

/// The state of a node on the way back up from an insertion or a removal
/// below it: both subtrees are well formed, the node's value separates them,
/// their heights differ by at most two, and the node's own cached height may
/// be stale.
pub open spec fn rebalance_ready<T: Ord>(n: TreeNode<T>) -> bool {
    &&& well_formed(n.left)
    &&& well_formed(n.right)
    &&& all_below(n.left, n.val)
    &&& all_above(n.right, n.val)
    &&& height(n.left) <= height(n.right) + 2
    &&& height(n.right) <= height(n.left) + 2
    &&& taller(height(n.left), height(n.right)) < u32::MAX
}

/// In a subtree with correct bookkeeping the cached height of the root is
/// the height of the subtree.
pub proof fn lemma_cached_is_height<T: Ord>(link: Link<T>)
    requires
        heights_cached(link),
    ensures
        cached_height(link) == height(link),
{
}

/// A node whose subtrees are balanced with correct bookkeeping, differ in
/// height by at most one, and whose cached height was recomputed, roots a
/// balanced subtree with correct bookkeeping.
proof fn lemma_joined<T: Ord>(n: TreeNode<T>)
    requires
        balanced(n.left),
        balanced(n.right),
        heights_cached(n.left),
        heights_cached(n.right),
        height(n.left) <= height(n.right) + 1,
        height(n.right) <= height(n.left) + 1,
        taller(height(n.left), height(n.right)) < u32::MAX,
    ensures
        balanced(Some(Box::new(with_height(n)))),
        heights_cached(Some(Box::new(with_height(n)))),
        height(Some(Box::new(with_height(n)))) == 1 + taller(height(n.left), height(n.right)),
        with_height(n).height == 1 + taller(height(n.left), height(n.right)),
{
    lemma_cached_is_height(n.left);
    lemma_cached_is_height(n.right);
}

/// Rebalancing a left-heavy node.
proof fn lemma_rebalanced_left_heavy<T: Ord>(n: TreeNode<T>)
    requires
        total_order::<T>(),
        rebalance_ready(n),
        height(n.left) == height(n.right) + 2,
    ensures
        well_formed(Some(Box::new(rebalanced(n)))),
        height(n.left) <= height(Some(Box::new(rebalanced(n)))) <= height(n.left) + 1,
{
    reveal(rebalanced);
    let m = with_height(n);
    let l = m.left.unwrap();
    lemma_cached_is_height(n.left);
    lemma_cached_is_height(n.right);
    lemma_cached_is_height(l.left);
    lemma_cached_is_height(l.right);
    assert(height(Some(l)) == 1 + taller(height(l.left), height(l.right)));
    assert(ordered(Some(Box::new(m))));
    if cached_height(l.right) > cached_height(l.left) {
        // the left child leans to the right: it is rotated to the left first
        let lr = l.right.unwrap();
        assert(heights_cached(Some(lr)) && balanced(Some(lr)));
        lemma_cached_is_height(lr.left);
        lemma_cached_is_height(lr.right);
        assert(height(Some(lr)) == 1 + taller(height(lr.left), height(lr.right)));
        let m2 = with_left(m, Some(Box::new(rotated_left(*l))));
        lemma_rotated_left_keeps(*l);
        lemma_rotated_left_ordered(*l);
        assert(ordered(Some(Box::new(m2))));
        lemma_rotated_right_ordered(m2);
        // the three nodes that the two rotations rebuild, from the bottom up
        let a = with_right(*l, lr.left);
        lemma_joined(a);
        let b = with_left(m, lr.right);
        lemma_joined(b);
        let top = TreeNode {
            val: lr.val,
            height: lr.height,
            left: Some(Box::new(with_height(a))),
            right: Some(Box::new(with_height(b))),
        };
        lemma_joined(top);
        assert(rotated_left(*l).left == Some(Box::new(with_height(a))));
        assert(rebalanced(n) == with_height(top));
    } else {
        lemma_rotated_right_ordered(m);
        // the two nodes that the rotation rebuilds, from the bottom up
        let b = with_left(m, l.right);
        lemma_joined(b);
        let top = with_right(*l, Some(Box::new(with_height(b))));
        lemma_joined(top);
        assert(rebalanced(n) == with_height(top));
    }
}

/// Rebalancing a right-heavy node.
proof fn lemma_rebalanced_right_heavy<T: Ord>(n: TreeNode<T>)
    requires
        total_order::<T>(),
        rebalance_ready(n),
        height(n.right) == height(n.left) + 2,
    ensures
        well_formed(Some(Box::new(rebalanced(n)))),
        height(n.right) <= height(Some(Box::new(rebalanced(n)))) <= height(n.right) + 1,
{
    reveal(rebalanced);
    let m = with_height(n);
    let r = m.right.unwrap();
    lemma_cached_is_height(n.left);
    lemma_cached_is_height(n.right);
    lemma_cached_is_height(r.left);
    lemma_cached_is_height(r.right);
    assert(height(Some(r)) == 1 + taller(height(r.left), height(r.right)));
    assert(ordered(Some(Box::new(m))));
    if cached_height(r.left) > cached_height(r.right) {
        // the right child leans to the left: it is rotated to the right first
        let rl = r.left.unwrap();
        assert(heights_cached(Some(rl)) && balanced(Some(rl)));
        lemma_cached_is_height(rl.left);
        lemma_cached_is_height(rl.right);
        assert(height(Some(rl)) == 1 + taller(height(rl.left), height(rl.right)));
        let m2 = with_right(m, Some(Box::new(rotated_right(*r))));
        lemma_rotated_right_keeps(*r);
        lemma_rotated_right_ordered(*r);
        assert(ordered(Some(Box::new(m2))));
        lemma_rotated_left_ordered(m2);
        // the three nodes that the two rotations rebuild, from the bottom up
        let a = with_right(m, rl.left);
        lemma_joined(a);
        let b = with_left(*r, rl.right);
        lemma_joined(b);
        let top = TreeNode {
            val: rl.val,
            height: rl.height,
            left: Some(Box::new(with_height(a))),
            right: Some(Box::new(with_height(b))),
        };
        lemma_joined(top);
        assert(rotated_right(*r).right == Some(Box::new(with_height(b))));
        assert(rebalanced(n) == with_height(top));
    } else {
        lemma_rotated_left_ordered(m);
        // the two nodes that the rotation rebuilds, from the bottom up
        let a = with_right(m, r.left);
        lemma_joined(a);
        let top = with_left(*r, Some(Box::new(with_height(a))));
        lemma_joined(top);
        assert(rebalanced(n) == with_height(top));
    }
}

/// Rebalancing a node whose subtrees are well formed and at most two apart
/// in height gives a well-formed subtree with the same values in the same
/// order. Where the subtrees were at most one apart, only the cached height
/// of the node is touched; otherwise the result is as tall as the taller
/// subtree was, or one taller.
pub proof fn lemma_rebalanced<T: Ord>(n: TreeNode<T>)
    requires
        total_order::<T>(),
        rebalance_ready(n),
    ensures
        well_formed(Some(Box::new(rebalanced(n)))),
        in_order(Some(Box::new(rebalanced(n)))) == in_order(Some(Box::new(n))),
        contents(Some(Box::new(rebalanced(n)))) == contents(Some(Box::new(n))),
        size(Some(Box::new(rebalanced(n)))) == size(Some(Box::new(n))),
        taller(height(n.left), height(n.right)) <= height(Some(Box::new(rebalanced(n))))
            <= taller(height(n.left), height(n.right)) + 1,
        height(n.left) <= height(n.right) + 1 && height(n.right) <= height(n.left) + 1 ==> {
            &&& rebalanced(n) == with_height(n)
            &&& height(Some(Box::new(rebalanced(n)))) == 1 + taller(
                height(n.left),
                height(n.right),
            )
        },
{
    reveal(rebalanced);
    lemma_rebalanced_keeps(n);
    lemma_cached_is_height(n.left);
    lemma_cached_is_height(n.right);
    if height(n.left) == height(n.right) + 2 {
        lemma_rebalanced_left_heavy(n);
    } else if height(n.right) == height(n.left) + 2 {
        lemma_rebalanced_right_heavy(n);
    } else {
        lemma_joined(n);
        assert(ordered(Some(Box::new(with_height(n)))));
    }
}

impl<T: Ord> Tree<T> {
    /// The height recorded at the root of a subtree; 0 when it is absent.
    pub fn get_node_height(node: &Link<T>) -> (h: u32)
        ensures
            h as nat == cached_height(*node),
    {
        match node {
            None => 0,
            Some(n) => n.height,
        }
    }

    /// Recomputes the cached height of `node` as one more than the taller of
    /// the cached heights of its subtrees. Nothing else changes.
    pub fn update_node_height(node: &mut TreeNode<T>)
        requires
            height_fits(*old(node)),
        ensures
            *final(node) == with_height(*old(node)),
    {
        let mut max: u32 = 0;
        let lh = Self::get_node_height(&node.left);
        if lh > max {
            max = lh;
        }
        let rh = Self::get_node_height(&node.right);
        if rh > max {
            max = rh;
        }
        node.height = max + 1;
    }

    /// Rotates a subtree to the left. An absent subtree stays absent.
    pub fn rotate_left(node: Link<T>) -> (res: Link<T>)
        requires
            node matches Some(n) ==> can_rotate_left(*n),
        ensures
            node is None ==> res is None,
            node matches Some(n) ==> res == Some(Box::new(rotated_left(*n))),
            node matches Some(n) ==> res.unwrap().val == n.right.unwrap().val,
            in_order(res) == in_order(node),
            contents(res) == contents(node),
            size(res) == size(node),
    {
        match node {
            None => None,
            Some(mut n) => {
                proof {
                    lemma_rotated_left_keeps(*n);
                }
                let mut r = n.right.take().unwrap();
                n.right = r.left.take();
                Self::update_node_height(&mut n);
                r.left = Some(n);
                Self::update_node_height(&mut r);
                Some(r)
            },
        }
    }

    /// Rotates a subtree to the right. An absent subtree stays absent.
    pub fn rotate_right(node: Link<T>) -> (res: Link<T>)
        requires
            node matches Some(n) ==> can_rotate_right(*n),
        ensures
            node is None ==> res is None,
            node matches Some(n) ==> res == Some(Box::new(rotated_right(*n))),
            node matches Some(n) ==> res.unwrap().val == n.left.unwrap().val,
            in_order(res) == in_order(node),
            contents(res) == contents(node),
            size(res) == size(node),
    {
        match node {
            None => None,
            Some(mut n) => {
                proof {
                    lemma_rotated_right_keeps(*n);
                }
                let mut l = n.left.take().unwrap();
                n.left = l.right.take();
                Self::update_node_height(&mut n);
                l.right = Some(n);
                Self::update_node_height(&mut l);
                Some(l)
            },
        }
    }

    /// Rebalances the root of a subtree: recomputes its cached height and,
    /// where one subtree is more than one taller than the other, rotates.
    /// An absent subtree stays absent.
    ///
    /// The values and their order never change. In the state that an
    /// insertion or a removal below leaves a node in, the result is well
    /// formed (`lemma_rebalanced` says more).
    pub fn rebalance(node: Link<T>) -> (res: Link<T>)
        requires
            node matches Some(n) ==> heights_cached(n.left) && heights_cached(n.right)
                && height_fits(*n),
        ensures
            node is None ==> res is None,
            node matches Some(n) ==> res == Some(Box::new(rebalanced(*n))),
            in_order(res) == in_order(node),
            contents(res) == contents(node),
            size(res) == size(node),
            total_order::<T>() && (node matches Some(n) && rebalance_ready(*n)) ==> well_formed(
                res,
            ),
    {
        match node {
            None => None,
            Some(mut n) => {
                proof {
                    reveal(rebalanced);
                    lemma_rebalanced_keeps(*n);
                    if total_order::<T>() && rebalance_ready(*n) {
                        lemma_rebalanced(*n);
                    }
                    lemma_cached_is_height(n.left);
                    lemma_cached_is_height(n.right);
                }
                Self::update_node_height(&mut n);
                let hl = Self::get_node_height(&n.left);
                let hr = Self::get_node_height(&n.right);
                if hl > hr + 1 {
                    let l = n.left.take().unwrap();
                    proof {
                        lemma_cached_is_height(l.left);
                        lemma_cached_is_height(l.right);
                        assert(height(Some(l)) == 1 + taller(height(l.left), height(l.right)));
                    }
                    if Self::get_node_height(&l.right) > Self::get_node_height(&l.left) {
                        proof {
                            let lr = l.right.unwrap();
                            assert(heights_cached(Some(lr)));
                            lemma_cached_is_height(lr.left);
                            lemma_cached_is_height(lr.right);
                            assert(height(Some(lr)) == 1 + taller(
                                height(lr.left),
                                height(lr.right),
                            ));
                        }
                        n.left = Self::rotate_left(Some(l));
                    } else {
                        n.left = Some(l);
                    }
                    Self::rotate_right(Some(n))
                } else if hr > hl + 1 {
                    let r = n.right.take().unwrap();
                    proof {
                        lemma_cached_is_height(r.left);
                        lemma_cached_is_height(r.right);
                        assert(height(Some(r)) == 1 + taller(height(r.left), height(r.right)));
                    }
                    if Self::get_node_height(&r.left) > Self::get_node_height(&r.right) {
                        proof {
                            let rl = r.left.unwrap();
                            assert(heights_cached(Some(rl)));
                            lemma_cached_is_height(rl.left);
                            lemma_cached_is_height(rl.right);
                            assert(height(Some(rl)) == 1 + taller(
                                height(rl.left),
                                height(rl.right),
                            ));
                        }
                        n.right = Self::rotate_right(Some(r));
                    } else {
                        n.right = Some(r);
                    }
                    Self::rotate_left(Some(n))
                } else {
                    Some(n)
                }
            },
        }
    }
}

} // verus!
