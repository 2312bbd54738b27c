//! Checking the invariants of a tree at run time.

use crate::node::{all_above, all_below, balanced, contents, height, heights_cached, ordered, Link};
use crate::order::{compare, lemma_less_transitive, less, total_order, Rank};
use crate::tree::Tree;
use vstd::prelude::*;

verus! {

/// Every value of `link` lies strictly between the bounds that are given.
pub open spec fn within<T: Ord>(link: Link<T>, low: Option<&T>, high: Option<&T>) -> bool {
    &&& low matches Some(l) ==> all_above(link, *l)
    &&& high matches Some(h) ==> all_below(link, *h)
}

impl<T: Ord> Tree<T> {
    /// The height of a subtree if it is balanced and every cached height in
    /// it is right, and nothing otherwise.
    pub fn checked_height(node: &Link<T>) -> (res: Option<u32>)
        ensures
            res is Some <==> balanced(*node) && heights_cached(*node),
            res matches Some(h) ==> h as nat == height(*node),
        decreases node,
    {
        match node {
            None => Some(0),
            Some(n) => {
                let left = Self::checked_height(&n.left);
                let right = Self::checked_height(&n.right);
                match (left, right) {
                    (Some(hl), Some(hr)) => {
                        let apart = if hl >= hr {
                            hl - hr
                        } else {
                            hr - hl
                        };
                        let top = if hl >= hr {
                            hl
                        } else {
                            hr
                        };
                        if apart <= 1 && top < u32::MAX && n.height == top + 1 {
                            Some(n.height)
                        } else {
                            None
                        }
                    },
                    _ => None,
                }
            },
        }
    }

    /// Whether a subtree is a search tree all of whose values lie strictly
    /// between the given bounds.
    pub fn is_ordered_within(node: &Link<T>, low: Option<&T>, high: Option<&T>) -> (ok: bool)
        requires
            total_order::<T>(),
        ensures
            ok <==> ordered(*node) && within(*node, low, high),
        decreases node,
    {
        match node {
            None => true,
            Some(n) => {
                proof {
                    assert(contents(*node) == contents(n.left).union(contents(n.right)).insert(
                        n.val,
                    ));
                    assert(contents(*node).contains(n.val));
                }
                if let Some(l) = low {
                    match compare(l, &n.val) {
                        Rank::Below => {},
                        _ => {
                            return false;
                        },
                    }
                }
                if let Some(h) = high {
                    match compare(&n.val, h) {
                        Rank::Below => {},
                        _ => {
                            return false;
                        },
                    }
                }
                let left_ok = Self::is_ordered_within(&n.left, low, Some(&n.val));
                if !left_ok {
                    proof {
                        if ordered(*node) && within(*node, low, high) {
                            assert(forall|x: T| #[trigger]
                                contents(n.left).contains(x) ==> contents(*node).contains(x));
                            assert(within(n.left, low, Some(&n.val)));
                        }
                    }
                    return false;
                }
                let right_ok = Self::is_ordered_within(&n.right, Some(&n.val), high);
                if !right_ok {
                    proof {
                        if ordered(*node) && within(*node, low, high) {
                            assert(forall|x: T| #[trigger]
                                contents(n.right).contains(x) ==> contents(*node).contains(x));
                            assert(within(n.right, Some(&n.val), high));
                        }
                    }
                    return false;
                }
                proof {
                    if let Some(l) = low {
                        assert forall|x: T| #[trigger] contents(*node).contains(x) implies less(
                            *l,
                            x,
                        ) by {
                            if contents(n.right).contains(x) {
                                lemma_less_transitive(*l, n.val, x);
                            }
                        }
                    }
                    if let Some(h) = high {
                        assert forall|x: T| #[trigger] contents(*node).contains(x) implies less(
                            x,
                            *h,
                        ) by {
                            if contents(n.left).contains(x) {
                                lemma_less_transitive(x, n.val, *h);
                            }
                        }
                    }
                }
                true
            },
        }
    }
}

} // verus!
