//! Classic data structures with machine-checked contracts.
//!
//! The centre of the crate is [`rope::Rope`], a tree-shaped text buffer whose
//! operations are all stated against the character sequence the tree stands
//! for. Beside it stand a binary search tree, a red-black tree, a trie and a
//! Bloom filter.
pub mod bf;
pub mod bst;
pub mod rbt;
pub mod rope;
pub mod trie;

pub use bf::BloomFilter;
pub use bst::{BinaryTree, Traversal};
pub use rbt::RedBlackTree;
pub use rope::Rope;
