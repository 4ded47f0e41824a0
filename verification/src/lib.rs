//! A persistent map and a persistent set, kept as a hash array mapped trie.
//!
//! A trie never changes. Every operation that would change it hands back a
//! new trie, which shares with the old one every node that the operation did
//! not touch.
//!
//! The modules, from the leaves up:
//!
//! - `word`, `uint`: the hash word and the flag word, and the unsigned
//!   integers as both;
//! - `flag`: the slot that a hash selects at a level of the trie;
//! - `traits`, `hashers`: what keys, values and hashers must offer, and
//!   hashers for numbers;
//! - `entries`, `ops`, `joint`: the models that the contracts speak of:
//!   runs of entries, the answers of the caller's operations, and the join
//!   of two runs;
//! - `node`: the singleton, the collision list, the branch and their sum;
//! - `hash_trie`, `set`: the map and the set;
//! - `canon`, `laws`: what holds of the operations taken together.

use vstd::prelude::*;

pub mod canon;
pub mod entries;
pub mod flag;
pub mod hash_trie;
pub mod hashers;
pub mod joint;
pub mod laws;
pub mod node;
pub mod ops;
pub mod result;
pub mod set;
pub mod share;
pub mod traits;
pub mod uint;
pub mod word;

pub use crate::hash_trie::HashTrie;
pub use crate::hashers::{IdentityHasher, MixHasher, ZeroHasher};
pub use crate::result::{HashTrieError, MapTransformResult, MapTransmuteResult, SetTransformResult};
pub use crate::set::HashTrieSet;
pub use crate::traits::{HasherBv, Key, Value};
pub use crate::word::{Flagword, Hashword};

verus! {

/// A map with 64-bit hashes, 32 slots for each branch and the hasher
/// `MixHasher`.
pub type DefaultHashTrieMap<K, V> = HashTrie<u64, u32, K, V, MixHasher>;

/// A set with 64-bit hashes, 32 slots for each branch and the hasher
/// `MixHasher`.
pub type DefaultHashTrieSet<V> = HashTrieSet<u64, u32, V, MixHasher>;

} // verus!
