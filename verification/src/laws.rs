//! What holds of every tree and of every run of insertions and removals.

use crate::insert::{inserted, lemma_inserted};
use crate::node::{balanced, contents, height, size, well_formed, Link};
use crate::order::total_order;
use crate::remove::{lemma_removed, removed};
use crate::traverse::level_width;
use vstd::prelude::*;

verus! {

/// The least number of nodes that a balanced tree of height `h` can have:
/// a root, a subtree of height `h - 1`, and a subtree one level shorter
/// than that.
pub open spec fn min_size(h: nat) -> nat
    decreases h,
{
    if h == 0 {
        0
    } else if h == 1 {
        1
    } else {
        1 + min_size((h - 1) as nat) + min_size((h - 2) as nat)
    }
}

/// The Fibonacci numbers 0, 1, 1, 2, 3, 5, 8, ...
pub open spec fn fibonacci(i: nat) -> nat
    decreases i,
{
    if i < 2 {
        i
    } else {
        fibonacci((i - 1) as nat) + fibonacci((i - 2) as nat)
    }
}

/// The sparsest balanced tree of height `h` has one node less than the
/// Fibonacci number of index `h + 2`.
pub proof fn lemma_min_size_is_fibonacci(h: nat)
    ensures
        min_size(h) + 1 == fibonacci(h + 2),
    decreases h,
{
    if h == 0 {
        assert(fibonacci(2) == fibonacci(1) + fibonacci(0));
    } else if h == 1 {
        assert(fibonacci(2) == fibonacci(1) + fibonacci(0));
        assert(fibonacci(3) == fibonacci(2) + fibonacci(1));
    } else {
        lemma_min_size_is_fibonacci((h - 1) as nat);
        lemma_min_size_is_fibonacci((h - 2) as nat);
    }
}

/// `min_size` grows with the height.
pub proof fn lemma_min_size_monotonic(a: nat, b: nat)
    requires
        a <= b,
    ensures
        min_size(a) <= min_size(b),
    decreases b,
{
    if a < b {
        lemma_min_size_monotonic(a, (b - 1) as nat);
    }
}

/// `min_size` at least doubles with every two levels: a balanced tree of
/// height `h` has at least `2^(h / 2) - 1` nodes.
pub proof fn lemma_min_size_exponential(h: nat)
    ensures
        level_width(h / 2) <= min_size(h) + 1,
    decreases h,
{
    if h >= 2 {
        lemma_min_size_exponential((h - 2) as nat);
        lemma_min_size_monotonic((h - 2) as nat, (h - 1) as nat);
        assert((h - 2) / 2 == h / 2 - 1);
    }
}

/// A balanced tree of height `h` has at least `min_size(h)` nodes: as
/// many as the sparsest balanced tree of its height. With `n` nodes, then,
/// the Fibonacci number of index `h + 2` is at most `n + 1`, which bounds
/// the height by a logarithm of the number of nodes.
pub proof fn lemma_balanced_size<T: Ord>(link: Link<T>)
    requires
        balanced(link),
    ensures
        min_size(height(link)) <= size(link),
    decreases link,
{
    match link {
        None => {},
        Some(n) => {
            lemma_balanced_size(n.left);
            lemma_balanced_size(n.right);
            let hl = height(n.left);
            let hr = height(n.right);
            let h = height(link);
            if h >= 2 {
                if hl >= hr {
                    lemma_min_size_monotonic((h - 2) as nat, hr);
                } else {
                    lemma_min_size_monotonic((h - 2) as nat, hl);
                }
            }
        },
    }
}

/// No tree is higher than it has nodes.
pub proof fn lemma_height_at_most_size<T: Ord>(link: Link<T>)
    ensures
        height(link) <= size(link),
    decreases link,
{
    match link {
        None => {},
        Some(n) => {
            lemma_height_at_most_size(n.left);
            lemma_height_at_most_size(n.right);
        },
    }
}

/// What inserting the values of `vals` one after another makes of `link`.
pub open spec fn inserted_all<T: Ord>(link: Link<T>, vals: Seq<T>) -> Link<T>
    decreases vals.len(),
{
    if vals.len() == 0 {
        link
    } else {
        inserted(inserted_all(link, vals.drop_last()), vals.last())
    }
}

/// What removing the values of `vals` one after another makes of `link`.
pub open spec fn removed_all<T: Ord>(link: Link<T>, vals: Seq<T>) -> Link<T>
    decreases vals.len(),
{
    if vals.len() == 0 {
        link
    } else {
        removed(removed_all(link, vals.drop_last()), vals.last())
    }
}

/// Every insertion of the run finds a tree that can still grow by a level
/// without its height leaving `u32`.
pub open spec fn insertions_fit<T: Ord>(link: Link<T>, vals: Seq<T>) -> bool {
    forall|k: int|
        0 <= k < vals.len() ==> height(#[trigger] inserted_all(link, vals.take(k))) < u32::MAX
}

/// A run of insertions into a well-formed tree gives a well-formed tree
/// that holds the old values and the inserted ones. It has one node more
/// for every inserted value if these are distinct and new.
pub proof fn lemma_inserted_all<T: Ord>(link: Link<T>, vals: Seq<T>)
    requires
        total_order::<T>(),
        well_formed(link),
        insertions_fit(link, vals),
    ensures
        well_formed(inserted_all(link, vals)),
        contents(inserted_all(link, vals)) == contents(link).union(vals.to_set()),
        size(link) <= size(inserted_all(link, vals)) <= size(link) + vals.len(),
        vals.no_duplicates() && contents(link).disjoint(vals.to_set()) ==> size(
            inserted_all(link, vals),
        ) == size(link) + vals.len(),
    decreases vals.len(),
{
    if vals.len() == 0 {
        assert(contents(link).union(vals.to_set()) =~= contents(link));
    } else {
        let front = vals.drop_last();
        let last = vals.last();
        let mid = inserted_all(link, front);
        assert(front =~= vals.take(vals.len() - 1));
        assert forall|k: int| 0 <= k < front.len() implies height(
            #[trigger] inserted_all(link, front.take(k)),
        ) < u32::MAX by {
            assert(front.take(k) =~= vals.take(k));
        }
        lemma_inserted_all(link, front);
        lemma_inserted(mid, last);
        assert(vals =~= front.push(last));
        front.lemma_push_to_set_commute(last);
        assert(contents(inserted_all(link, vals)) =~= contents(link).union(vals.to_set()));
        if vals.no_duplicates() && contents(link).disjoint(vals.to_set()) {
            assert(vals.to_set().contains(last));
            assert(front.no_duplicates());
            assert(contents(link).disjoint(front.to_set()));
            if front.to_set().contains(last) {
                let i = choose|i: int| 0 <= i < front.len() && front[i] == last;
                assert(vals[i] == vals[vals.len() - 1]);
            }
            assert(!contents(mid).contains(last));
        }
    }
}

/// A run of insertions fits if the tree and the run together have fewer
/// than `u32::MAX` values: no tree is higher than it has nodes.
pub proof fn lemma_short_runs_fit<T: Ord>(link: Link<T>, vals: Seq<T>)
    requires
        total_order::<T>(),
        well_formed(link),
        size(link) + vals.len() < u32::MAX,
    ensures
        insertions_fit(link, vals),
    decreases vals.len(),
{
    if vals.len() > 0 {
        let front = vals.drop_last();
        lemma_short_runs_fit(link, front);
        lemma_inserted_all(link, front);
        lemma_height_at_most_size(inserted_all(link, front));
        assert forall|k: int| 0 <= k < vals.len() implies height(
            #[trigger] inserted_all(link, vals.take(k)),
        ) < u32::MAX by {
            if k < front.len() {
                assert(front.take(k) =~= vals.take(k));
            } else {
                assert(front =~= vals.take(k));
            }
        }
    }
}

/// A run of insertions that fits has fitted up to each of its steps.
proof fn lemma_prefix_fits<T: Ord>(link: Link<T>, vals: Seq<T>, done: int)
    requires
        insertions_fit(link, vals),
        0 <= done <= vals.len(),
    ensures
        insertions_fit(link, vals.take(done)),
{
    assert forall|k: int| 0 <= k < vals.take(done).len() implies height(
        #[trigger] inserted_all(link, vals.take(done).take(k)),
    ) < u32::MAX by {
        assert(vals.take(done).take(k) =~= vals.take(k));
    }
}

/// A run of removals from a well-formed tree gives a well-formed tree that
/// holds the old values but the removed ones.
pub proof fn lemma_removed_all<T: Ord>(link: Link<T>, vals: Seq<T>)
    requires
        total_order::<T>(),
        well_formed(link),
    ensures
        well_formed(removed_all(link, vals)),
        contents(removed_all(link, vals)) == contents(link).difference(vals.to_set()),
    decreases vals.len(),
{
    if vals.len() == 0 {
        assert(contents(link).difference(vals.to_set()) =~= contents(link));
    } else {
        let front = vals.drop_last();
        let last = vals.last();
        lemma_removed_all(link, front);
        lemma_removed(removed_all(link, front), last);
        assert(vals =~= front.push(last));
        front.lemma_push_to_set_commute(last);
        assert(contents(removed_all(link, vals)) =~= contents(link).difference(vals.to_set()));
    }
}

/// Starting from the empty tree, after each of a run of insertions the tree
/// is a balanced search tree with correct cached heights, and holds exactly
/// the values inserted so far.
pub proof fn lemma_invariants_after_each_insertion<T: Ord>(vals: Seq<T>, done: int)
    requires
        total_order::<T>(),
        insertions_fit(None, vals),
        0 <= done <= vals.len(),
    ensures
        well_formed(inserted_all(None, vals.take(done))),
        contents(inserted_all(None, vals.take(done))) == vals.take(done).to_set(),
{
    lemma_prefix_fits(None, vals, done);
    lemma_inserted_all(None, vals.take(done));
    assert(Set::<T>::empty().union(vals.take(done).to_set()) =~= vals.take(done).to_set());
}

/// After a run of insertions into the empty tree, each of a run of removals
/// leaves a well-formed tree that holds the inserted values but those
/// removed so far.
pub proof fn lemma_invariants_after_each_removal<T: Ord>(
    inserts: Seq<T>,
    removes: Seq<T>,
    done: int,
)
    requires
        total_order::<T>(),
        insertions_fit(None, inserts),
        0 <= done <= removes.len(),
    ensures
        well_formed(removed_all(inserted_all(None, inserts), removes.take(done))),
        contents(removed_all(inserted_all(None, inserts), removes.take(done)))
            == inserts.to_set().difference(removes.take(done).to_set()),
{
    lemma_inserted_all(None, inserts);
    assert(Set::<T>::empty().union(inserts.to_set()) =~= inserts.to_set());
    lemma_removed_all(inserted_all(None, inserts), removes.take(done));
}

/// A tree built from `n` distinct values by inserting them one after
/// another has `n` nodes, and its height `h` is so small that
/// `min_size(h) <= n`.
pub proof fn lemma_height_of_built_tree<T: Ord>(vals: Seq<T>)
    requires
        total_order::<T>(),
        vals.no_duplicates(),
        insertions_fit(None, vals),
    ensures
        size(inserted_all(None, vals)) == vals.len(),
        min_size(height(inserted_all(None, vals))) <= vals.len(),
{
    lemma_inserted_all(None, vals);
    lemma_balanced_size(inserted_all(None, vals));
}

} // verus!
