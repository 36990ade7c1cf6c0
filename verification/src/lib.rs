//! Ordered and prefix-keyed containers for registering devices and their
//! notifications: a red-black tree, a binary max-heap, a trie and the node
//! of a B-tree, each with a contract that Verus proves.

pub mod btree;
pub mod heap;
pub mod iot;
pub mod keyed;
pub mod order;
pub mod red_black_tree;
pub mod text;
pub mod trie;
