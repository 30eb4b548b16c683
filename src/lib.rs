//! An in-memory ordered key-value multiway search tree (B-tree) in which every
//! node, inner or leaf, stores key/value pairs.
//!
//! `BTree::new` builds an empty tree of a given node capacity, `BTree::add`
//! inserts (or overwrites) a pair and `BTree::find` looks a key up. Each tree
//! is viewed as a `Map<u64, V>`; the contracts are stated over that view.
pub mod search;
pub mod node;
pub mod tree;

pub use node::BTreeNode;
pub use search::SearchResult;
pub use tree::BTree;
