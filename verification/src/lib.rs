//! An ordered set kept as a height-balanced binary search tree.
//!
//! A [`Tree`] owns its nodes through boxes, so a rotation is a transfer of
//! ownership between two of them. Every operation is stated over a
//! mathematical model of the tree (the set of its values, their sequence
//! from left to right, its height and its exact shape) and proved against
//! that model; the invariants of the tree are proved to survive every
//! insertion and removal.
//!
//! - [`order`]: the total order on the values.
//! - [`node`]: the nodes and the model of a subtree.
//! - [`balance`]: cached heights, rotations, rebalancing of one node.
//! - [`insert`] and [`remove`]: the two recursive updates.
//! - [`traverse`]: the values in order, and the tree level by level.
//! - [`check`]: the invariants, tested at run time.
//! - [`tree`]: the tree type and its operations.
//! - [`laws`]: what holds of whole runs of operations, and of heights.

pub mod balance;
pub mod check;
pub mod insert;
pub mod laws;
pub mod node;
pub mod order;
pub mod remove;
pub mod traverse;
pub mod tree;

pub use node::TreeNode;
pub use order::Rank;
pub use tree::{Tree, TreeError};
