//! An ordered key/value map backed by a height-balanced (AVL) binary search
//! tree, with lazy in-order traversal, and a small approximate-membership
//! filter.

pub mod order;
pub mod node;
pub mod balance;
pub mod iter;
pub mod tree;
pub mod bloom;

pub use bloom::BloomFilter;
pub use iter::{
    AvlTreeIterator, AvlTreeKeyIterator, AvlTreeKeyValueIterator, AvlTreeNodeIterator,
    AvlTreeOwnedIterator, AvlTreeValueIterator, get_key, get_key_value, get_node, get_value,
};
pub use node::AVLTreeNode;
pub use tree::AvlTree;
