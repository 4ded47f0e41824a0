//! Hashers for keys that are numbers.

use vstd::prelude::*;
use crate::traits::HasherBv;

verus! {

/// Spreads the bits of a word over the whole word, so that words that
/// differ in a few bits differ in the bits that each level of a trie reads.
/// This is the finishing step of the SplitMix64 generator, a bijection.
pub open spec fn mix_spec(x: u64) -> u64 {
    let a = (x ^ (x >> 30)).wrapping_mul(0xbf58_476d_1ce4_e5b9);
    let b = (a ^ (a >> 27)).wrapping_mul(0x94d0_49bb_1331_11eb);
    b ^ (b >> 31)
}

/// Computes `mix_spec`.
pub fn mix(x: u64) -> (r: u64)
    ensures
        r == mix_spec(x),
{
    let a = (x ^ (x >> 30)).wrapping_mul(0xbf58_476d_1ce4_e5b9);
    let b = (a ^ (a >> 27)).wrapping_mul(0x94d0_49bb_1331_11eb);
    b ^ (b >> 31)
}

/// The hasher that takes a number as its own hash.
#[derive(Clone, Copy, Debug, Default)]
pub struct IdentityHasher {}

/// The hasher that spreads the bits of a number with `mix`.
#[derive(Clone, Copy, Debug, Default)]
pub struct MixHasher {}

/// The hasher that gives every key the hash 0. A trie with this hasher is
/// one collision list.
#[derive(Clone, Copy, Debug, Default)]
pub struct ZeroHasher {}

impl HasherBv<u64, u8> for IdentityHasher {
    open spec fn spec_hash(k: u8) -> u64 {
        k as u64
    }

    fn hash(&self, k: &u8) -> (h: u64) {
        *k as u64
    }
}

impl HasherBv<u64, u8> for MixHasher {
    open spec fn spec_hash(k: u8) -> u64 {
        mix_spec(k as u64)
    }

    fn hash(&self, k: &u8) -> (h: u64) {
        mix(*k as u64)
    }
}

impl HasherBv<u64, u8> for ZeroHasher {
    open spec fn spec_hash(k: u8) -> u64 {
        0
    }

    fn hash(&self, k: &u8) -> (h: u64) {
        0
    }
}

impl HasherBv<u64, u16> for IdentityHasher {
    open spec fn spec_hash(k: u16) -> u64 {
        k as u64
    }

    fn hash(&self, k: &u16) -> (h: u64) {
        *k as u64
    }
}

impl HasherBv<u64, u16> for MixHasher {
    open spec fn spec_hash(k: u16) -> u64 {
        mix_spec(k as u64)
    }

    fn hash(&self, k: &u16) -> (h: u64) {
        mix(*k as u64)
    }
}

impl HasherBv<u64, u16> for ZeroHasher {
    open spec fn spec_hash(k: u16) -> u64 {
        0
    }

    fn hash(&self, k: &u16) -> (h: u64) {
        0
    }
}

impl HasherBv<u64, u32> for IdentityHasher {
    open spec fn spec_hash(k: u32) -> u64 {
        k as u64
    }

    fn hash(&self, k: &u32) -> (h: u64) {
        *k as u64
    }
}

impl HasherBv<u64, u32> for MixHasher {
    open spec fn spec_hash(k: u32) -> u64 {
        mix_spec(k as u64)
    }

    fn hash(&self, k: &u32) -> (h: u64) {
        mix(*k as u64)
    }
}

impl HasherBv<u64, u32> for ZeroHasher {
    open spec fn spec_hash(k: u32) -> u64 {
        0
    }

    fn hash(&self, k: &u32) -> (h: u64) {
        0
    }
}

impl HasherBv<u64, u64> for IdentityHasher {
    open spec fn spec_hash(k: u64) -> u64 {
        k
    }

    fn hash(&self, k: &u64) -> (h: u64) {
        *k
    }
}

impl HasherBv<u64, u64> for MixHasher {
    open spec fn spec_hash(k: u64) -> u64 {
        mix_spec(k)
    }

    fn hash(&self, k: &u64) -> (h: u64) {
        mix(*k)
    }
}

impl HasherBv<u64, u64> for ZeroHasher {
    open spec fn spec_hash(k: u64) -> u64 {
        0
    }

    fn hash(&self, k: &u64) -> (h: u64) {
        0
    }
}

impl HasherBv<u64, i8> for IdentityHasher {
    /// The number, counted from the least number of its type.
    open spec fn spec_hash(k: i8) -> u64 {
        (k + 0x80) as u64
    }

    fn hash(&self, k: &i8) -> (h: u64) {
        (*k as i64 + 0x80) as u64
    }
}

impl HasherBv<u64, i8> for MixHasher {
    open spec fn spec_hash(k: i8) -> u64 {
        mix_spec((k + 0x80) as u64)
    }

    fn hash(&self, k: &i8) -> (h: u64) {
        mix((*k as i64 + 0x80) as u64)
    }
}

impl HasherBv<u64, i8> for ZeroHasher {
    open spec fn spec_hash(k: i8) -> u64 {
        0
    }

    fn hash(&self, k: &i8) -> (h: u64) {
        0
    }
}

impl HasherBv<u64, i16> for IdentityHasher {
    /// The number, counted from the least number of its type.
    open spec fn spec_hash(k: i16) -> u64 {
        (k + 0x8000) as u64
    }

    fn hash(&self, k: &i16) -> (h: u64) {
        (*k as i64 + 0x8000) as u64
    }
}

impl HasherBv<u64, i16> for MixHasher {
    open spec fn spec_hash(k: i16) -> u64 {
        mix_spec((k + 0x8000) as u64)
    }

    fn hash(&self, k: &i16) -> (h: u64) {
        mix((*k as i64 + 0x8000) as u64)
    }
}

impl HasherBv<u64, i16> for ZeroHasher {
    open spec fn spec_hash(k: i16) -> u64 {
        0
    }

    fn hash(&self, k: &i16) -> (h: u64) {
        0
    }
}

impl HasherBv<u64, i32> for IdentityHasher {
    /// The number, counted from the least number of its type.
    open spec fn spec_hash(k: i32) -> u64 {
        (k + 0x8000_0000) as u64
    }

    fn hash(&self, k: &i32) -> (h: u64) {
        (*k as i64 + 0x8000_0000) as u64
    }
}

impl HasherBv<u64, i32> for MixHasher {
    open spec fn spec_hash(k: i32) -> u64 {
        mix_spec((k + 0x8000_0000) as u64)
    }

    fn hash(&self, k: &i32) -> (h: u64) {
        mix((*k as i64 + 0x8000_0000) as u64)
    }
}

impl HasherBv<u64, i32> for ZeroHasher {
    open spec fn spec_hash(k: i32) -> u64 {
        0
    }

    fn hash(&self, k: &i32) -> (h: u64) {
        0
    }
}

} // verus!
