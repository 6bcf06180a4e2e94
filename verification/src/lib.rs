//! A succinct representation of ordered trees: a level-order unary degree
//! sequence (LOUDS) over a rank/select-indexed bit sequence.  Tree navigation
//! (parent, children, siblings, degree, depth, lowest common ancestor) is
//! answered purely by rank and select queries, without stored pointers.

pub mod bits;
pub mod fid;
pub mod laws;
pub mod louds;
pub mod tree;

pub use crate::fid::{Fid, OutOfRange};
pub use crate::louds::{BitIndex, Louds, NodeId};
pub use crate::tree::TreeNode;
