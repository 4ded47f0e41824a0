//! The nodes of the trie.

pub mod cnode;
pub mod lnode;
pub mod mnode;
pub mod snode;
