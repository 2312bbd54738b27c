//! The tree itself: an owned root, the model it is read through, and the
//! operations on it.

use crate::insert::inserted;
use crate::node::{contents, height, in_order, size, well_formed, Link, TreeNode};
use crate::order::total_order;
use crate::remove::removed;
use crate::traverse::{ascending, lemma_in_order_ascending, lemma_in_order_values, level};
use vstd::prelude::*;

verus! {

/// An ordered set of values, kept as a height-balanced binary search tree.
pub struct Tree<T: Ord> {
    pub(crate) root: Option<Box<TreeNode<T>>>,
}

/// Why an operation left the tree as it was.
#[derive(Clone, Copy, Debug, PartialEq, Eq, Structural)]
pub enum TreeError {
    /// The value to insert is already in the tree.
    Duplicate,
    /// The value to remove is not in the tree.
    NotFound,
}

impl<T: Ord> View for Tree<T> {
    type V = Set<T>;

    /// The set of values in the tree.
    open spec fn view(&self) -> Set<T> {
        contents(self.root())
    }
}

impl<T: Ord> Tree<T> {
    /// The subtree that the tree owns.
    pub closed spec fn root(&self) -> Link<T> {
        self.root
    }

    /// The values of the tree from left to right.
    pub open spec fn in_order(&self) -> Seq<T> {
        in_order(self.root())
    }

    /// The height of the tree; 0 when it is empty.
    pub open spec fn height(&self) -> nat {
        height(self.root())
    }

    /// The number of nodes in the tree.
    pub open spec fn size(&self) -> nat {
        size(self.root())
    }

    /// The tree is a search tree, is balanced, and caches true heights.
    pub open spec fn well_formed(&self) -> bool {
        well_formed(self.root())
    }

    /// An empty tree.
    pub fn new() -> (tree: Self)
        ensures
            tree.well_formed(),
            tree.root() is None,
            tree@ == Set::<T>::empty(),
            tree.in_order() == Seq::<T>::empty(),
            tree.height() == 0,
            tree.size() == 0,
    {
        Tree { root: None }
    }

    /// Inserts `val`. A value that is already present is rejected and the
    /// tree stays exactly as it was.
    pub fn insert(&mut self, val: T) -> (res: Result<(), TreeError>)
        requires
            total_order::<T>(),
            old(self).well_formed(),
            old(self).height() < u32::MAX,
        ensures
            final(self).well_formed(),
            final(self)@ == old(self)@.insert(val),
            res is Ok <==> !old(self)@.contains(val),
            res is Err ==> res == Err::<(), TreeError>(TreeError::Duplicate) && *final(self)
                == *old(self),
            res is Ok ==> final(self).size() == old(self).size() + 1,
            old(self).height() <= final(self).height() <= old(self).height() + 1,
            final(self).root() == inserted(old(self).root(), val),
    {
        let (root, grew) = Self::insert_with_node(self.root.take(), val);
        self.root = root;
        if grew {
            Ok(())
        } else {
            Err(TreeError::Duplicate)
        }
    }

    /// The height of the tree, read from the root's cached height.
    pub fn get_height(&self) -> (h: u32)
        requires
            self.well_formed(),
        ensures
            h as nat == self.height(),
    {
        Self::get_node_height(&self.root)
    }

    /// Whether the tree satisfies its three invariants.
    pub fn is_well_formed(&self) -> (ok: bool)
        requires
            total_order::<T>(),
        ensures
            ok == self.well_formed(),
    {
        Self::checked_height(&self.root).is_some() && Self::is_ordered_within(
            &self.root,
            None,
            None,
        )
    }
}

impl<T: Ord + Copy> Tree<T> {
    /// Removes `val`. A value that is not present is reported as not found
    /// and the tree stays exactly as it was.
    pub fn remove(&mut self, val: &T) -> (res: Result<(), TreeError>)
        requires
            total_order::<T>(),
            old(self).well_formed(),
        ensures
            final(self).well_formed(),
            final(self)@ == old(self)@.remove(*val),
            res is Ok <==> old(self)@.contains(*val),
            res is Err ==> res == Err::<(), TreeError>(TreeError::NotFound) && *final(self)
                == *old(self),
            res is Ok ==> final(self).size() + 1 == old(self).size(),
            final(self).height() <= old(self).height() <= final(self).height() + 1,
            final(self).root() == removed(old(self).root(), *val),
    {
        let (root, found) = Self::remove_with_node(self.root.take(), val);
        self.root = root;
        if found {
            Ok(())
        } else {
            Err(TreeError::NotFound)
        }
    }

    /// The values of the tree from left to right: each value of the set
    /// once, and in ascending order if the tree is well formed.
    pub fn to_vec(&self) -> (values: Vec<T>)
        ensures
            values@ == self.in_order(),
            values@.to_set() == self@,
            values@.len() == self.size(),
            total_order::<T>() && self.well_formed() ==> ascending(values@),
    {
        proof {
            lemma_in_order_values(self.root);
            if total_order::<T>() && self.well_formed() {
                lemma_in_order_ascending(self.root);
            }
        }
        let mut values = Vec::new();
        Self::collect_in_order(&self.root, &mut values);
        values
    }

    /// The tree level by level from the root down, for display. There are
    /// as many levels as the tree is high; level `d` has `level_width(d)`
    /// slots, and a slot is empty where the tree has no node at that place.
    pub fn level_order(&self) -> (rows: Vec<Vec<Option<T>>>)
        requires
            self.well_formed(),
        ensures
            rows@.len() == self.height(),
            forall|d: int|
                0 <= d < rows@.len() ==> (#[trigger] rows@[d])@ == level(self.root(), d as nat),
    {
        Self::level_order_of(&self.root)
    }
}

} // verus!
