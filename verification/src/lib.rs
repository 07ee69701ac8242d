//! A red-black tree over `u64` keys: an ordered, mutable set supporting
//! insertion, removal, membership queries and in-order traversal.
//!
//! The balancing strategy is the classical red-black scheme: every node
//! carries a colour, the root is black, no red node has a red child, and
//! every path from a node down to an absent child passes through the same
//! number of black nodes.  Together these bound the height of the tree
//! logarithmically in its size.

mod node;
mod tree;

pub use node::Node;
pub use tree::Tree;
