//! An in-memory ordered trie (prefix tree) over strings.
//!
//! The trie stores a set of strings. Every node keeps its children sorted by
//! their key character, so each step of a descent is an ordered lookup.
//! Operations: insertion, exact membership, removal, and prefix search in
//! three traversal styles whose result sets always agree.

pub mod laws;
pub mod order;
pub mod sorting;
pub mod tree;

pub use sorting::Sorted;
pub use tree::Node;
pub use tree::Trie;
