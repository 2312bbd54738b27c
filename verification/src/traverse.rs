//! Reading a tree out: its values in ascending order, and its levels from
//! the root down.

use crate::node::{contents, height, heights_cached, in_order, ordered, size, Link, TreeNode};
use crate::order::{lemma_less_transitive, lemma_less_trichotomy, less, total_order};
use crate::tree::Tree;
use vstd::prelude::*;
use vstd::seq_lib::{seq_to_set_distributes_over_add, seq_to_set_is_finite};

verus! {

/// Each element sorts strictly before every later one.
pub open spec fn ascending<T: Ord>(s: Seq<T>) -> bool {
    forall|i: int, j: int| 0 <= i < j < s.len() ==> less(#[trigger] s[i], #[trigger] s[j])
}

/// The in-order sequence of a subtree holds exactly the values of the
/// subtree, one entry per node.
pub proof fn lemma_in_order_values<T: Ord>(link: Link<T>)
    ensures
        in_order(link).to_set() == contents(link),
        in_order(link).len() == size(link),
    decreases link,
{
    match link {
        None => {
            assert(in_order(link).to_set() =~= contents(link));
        },
        Some(n) => {
            lemma_in_order_values(n.left);
            lemma_in_order_values(n.right);
            let before = in_order(n.left);
            let after = in_order(n.right);
            before.lemma_push_to_set_commute(n.val);
            seq_to_set_distributes_over_add(before.push(n.val), after);
            assert(in_order(link).to_set() =~= contents(link));
        },
    }
}

/// The in-order sequence of a search tree is strictly ascending.
pub proof fn lemma_in_order_ascending<T: Ord>(link: Link<T>)
    requires
        total_order::<T>(),
        ordered(link),
    ensures
        ascending(in_order(link)),
    decreases link,
{
    match link {
        None => {},
        Some(n) => {
            lemma_in_order_ascending(n.left);
            lemma_in_order_ascending(n.right);
            lemma_in_order_values(n.left);
            lemma_in_order_values(n.right);
            let before = in_order(n.left);
            let after = in_order(n.right);
            let all = in_order(link);
            assert forall|i: int| 0 <= i < before.len() implies less(
                #[trigger] before[i],
                n.val,
            ) by {
                assert(before.contains(before[i]));
                assert(before.to_set().contains(before[i]));
            }
            assert forall|i: int| 0 <= i < after.len() implies less(n.val, #[trigger] after[i]) by {
                assert(after.contains(after[i]));
                assert(after.to_set().contains(after[i]));
            }
            assert forall|i: int, j: int| 0 <= i < j < all.len() implies less(
                #[trigger] all[i],
                #[trigger] all[j],
            ) by {
                let mid = before.len() as int;
                if j < mid {
                    assert(all[i] == before[i] && all[j] == before[j]);
                } else if j == mid {
                    assert(all[i] == before[i] && all[j] == n.val);
                } else if i < mid {
                    assert(all[i] == before[i] && all[j] == after[j - mid - 1]);
                    lemma_less_transitive(all[i], n.val, all[j]);
                } else if i == mid {
                    assert(all[i] == n.val && all[j] == after[j - mid - 1]);
                } else {
                    assert(all[i] == after[i - mid - 1] && all[j] == after[j - mid - 1]);
                }
            }
        },
    }
}

/// A search tree holds every value once: its in-order sequence repeats
/// nothing, and its set of values is finite and has as many members as the
/// tree has nodes.
pub proof fn lemma_size_is_cardinality<T: Ord>(link: Link<T>)
    requires
        total_order::<T>(),
        ordered(link),
    ensures
        in_order(link).no_duplicates(),
        contents(link).finite(),
        contents(link).len() == size(link),
{
    let all = in_order(link);
    lemma_in_order_values(link);
    lemma_in_order_ascending(link);
    assert forall|i: int, j: int| 0 <= i < all.len() && 0 <= j < all.len() && i != j implies all[i]
        != all[j] by {
        lemma_less_trichotomy(all[i], all[j]);
    }
    all.unique_seq_to_set();
    seq_to_set_is_finite(all);
}

/// The width of the level at `depth`: one slot at the root, and twice as
/// many on each level below.
pub open spec fn level_width(depth: nat) -> nat
    decreases depth,
{
    if depth == 0 {
        1
    } else {
        2 * level_width((depth - 1) as nat)
    }
}

/// The subtree in slot `index` of the level at `depth` below `link`, slots
/// counted from the left. The two slots below slot `i` are `2 * i` (left)
/// and `2 * i + 1` (right); below an absent subtree everything is absent.
pub open spec fn descendant<T: Ord>(link: Link<T>, depth: nat, index: nat) -> Link<T>
    decreases depth,
{
    if depth == 0 {
        link
    } else {
        match descendant(link, (depth - 1) as nat, index / 2) {
            None => None,
            Some(n) => if index % 2 == 0 {
                n.left
            } else {
                n.right
            },
        }
    }
}

/// The value in a slot, absent where the tree has no node there.
pub open spec fn slot<T: Ord>(link: Link<T>, depth: nat, index: nat) -> Option<T> {
    match descendant(link, depth, index) {
        None => None,
        Some(n) => Some(n.val),
    }
}

/// One level of a subtree, with a placeholder for every absent node.
pub open spec fn level<T: Ord>(link: Link<T>, depth: nat) -> Seq<Option<T>> {
    Seq::new(level_width(depth), |i: int| slot(link, depth, i as nat))
}

/// The node that a frontier entry refers to, as a subtree.
pub open spec fn as_link<T: Ord>(entry: Option<&TreeNode<T>>) -> Link<T> {
    match entry {
        None => None,
        Some(n) => Some(Box::new(*n)),
    }
}

impl<T: Ord + Copy> Tree<T> {
    /// Appends the values of a subtree to `out`, from left to right.
    pub fn collect_in_order(node: &Link<T>, out: &mut Vec<T>)
        ensures
            final(out)@ == old(out)@ + in_order(*node),
        decreases node,
    {
        match node {
            None => {},
            Some(n) => {
                Self::collect_in_order(&n.left, out);
                out.push(n.val);
                Self::collect_in_order(&n.right, out);
                assert(out@ =~= old(out)@ + in_order(*node));
            },
        }
    }

    /// The root of a subtree as a frontier entry.
    fn entry_of(node: &Link<T>) -> (entry: Option<&TreeNode<T>>)
        ensures
            as_link(entry) == *node,
    {
        match node {
            None => None,
            Some(n) => Some(&**n),
        }
    }

    /// The levels of a subtree from the root down. Level `d` has
    /// `level_width(d)` slots; a slot holds the value of the node at that
    /// place, or nothing where the subtree has no node there. There are as
    /// many levels as the cached height of the root says.
    pub fn level_order_of(node: &Link<T>) -> (rows: Vec<Vec<Option<T>>>)
        requires
            heights_cached(*node),
        ensures
            rows@.len() == height(*node),
            forall|d: int|
                0 <= d < rows@.len() ==> (#[trigger] rows@[d])@ == level(*node, d as nat),
    {
        let h = Self::get_node_height(node);
        let mut rows: Vec<Vec<Option<T>>> = Vec::new();
        let mut frontier: Vec<Option<&TreeNode<T>>> = Vec::new();
        frontier.push(Self::entry_of(node));
        let mut depth: u32 = 0;
        while depth < h
            invariant
                depth <= h,
                rows@.len() == depth,
                forall|d: int|
                    0 <= d < rows@.len() ==> (#[trigger] rows@[d])@ == level(*node, d as nat),
                frontier@.len() == level_width(depth as nat),
                forall|i: int|
                    0 <= i < frontier@.len() ==> as_link(#[trigger] frontier@[i]) == descendant(
                        *node,
                        depth as nat,
                        i as nat,
                    ),
            decreases h - depth,
        {
            let mut row: Vec<Option<T>> = Vec::new();
            let mut below: Vec<Option<&TreeNode<T>>> = Vec::new();
            let mut i: usize = 0;
            while i < frontier.len()
                invariant
                    i <= frontier@.len(),
                    row@.len() == i,
                    below@.len() == 2 * i,
                    forall|k: int|
                        0 <= k < frontier@.len() ==> as_link(#[trigger] frontier@[k]) == descendant(
                            *node,
                            depth as nat,
                            k as nat,
                        ),
                    forall|k: int|
                        0 <= k < i ==> #[trigger] row@[k] == slot(*node, depth as nat, k as nat),
                    forall|k: int|
                        0 <= k < 2 * i ==> as_link(#[trigger] below@[k]) == descendant(
                            *node,
                            (depth + 1) as nat,
                            k as nat,
                        ),
                decreases frontier@.len() - i,
            {
                match frontier[i] {
                    None => {
                        row.push(None);
                        below.push(None);
                        below.push(None);
                    },
                    Some(n) => {
                        row.push(Some(n.val));
                        below.push(Self::entry_of(&n.left));
                        below.push(Self::entry_of(&n.right));
                    },
                }
                proof {
                    assert((2 * i) / 2 == i && (2 * i) % 2 == 0);
                    assert((2 * i + 1) / 2 == i && (2 * i + 1) % 2 == 1);
                }
                i += 1;
            }
            proof {
                assert(row@ =~= level(*node, depth as nat));
            }
            rows.push(row);
            frontier = below;
            depth += 1;
        }
        rows
    }
}

} // verus!
