//! The place of a hash at one level of the trie.

use vstd::prelude::*;
use crate::word::{fan, is_bit, Flagword, Hashword, Slots};

verus! {

/// Whether the trie has a level `depth` for hash words of type `H`: whether
/// bits of the hash are left for it.
pub open spec fn fits<H: Hashword, F: Slots>(depth: nat) -> bool {
    depth * F::log_width() < H::width()
}

/// The number of bits of the hash that are left for level `depth` and the
/// levels below it.
pub open spec fn room<H: Hashword, F: Slots>(depth: nat) -> nat {
    if fits::<H, F>(depth) {
        (H::width() - depth * F::log_width()) as nat
    } else {
        0
    }
}

/// A level leaves less room to the next.
pub proof fn lemma_room<H: Hashword, F: Slots>(depth: nat)
    requires
        fits::<H, F>(depth),
    ensures
        room::<H, F>(depth + 1) < room::<H, F>(depth),
{
    F::lemma_log_width();
    assert((depth + 1) * F::log_width() == depth * F::log_width() + F::log_width())
        by (nonlinear_arith);
}

/// A trie has fewer than 128 levels.
pub proof fn lemma_fits<H: Hashword, F: Slots>(depth: nat)
    requires
        fits::<H, F>(depth),
    ensures
        depth < 128,
{
    H::lemma_width();
    F::lemma_log_width();
    assert(depth <= depth * F::log_width()) by (nonlinear_arith)
        requires
            F::log_width() >= 1,
    ;
}

/// The slot that the hash `h` selects at level `depth`.
pub open spec fn slot_of<H: Hashword, F: Slots>(h: H, depth: nat) -> nat {
    h.slice_spec(depth * F::log_width(), F::log_width())
}

/// A hash, a level of the trie, the slot that the hash selects at that level
/// and the flag word that holds this slot alone.
pub struct Flag<H: Hashword, F: Flagword> {
    hash_value: H,
    depth: u8,
    index: u8,
    mask: F,
}

impl<H: Hashword, F: Flagword> Flag<H, F> {
    #[verifier::type_invariant]
    spec fn inv(self) -> bool {
        &&& fits::<H, F>(self.depth as nat)
        &&& self.index == slot_of::<H, F>(self.hash_value, self.depth as nat)
        &&& self.index < fan::<F>()
        &&& is_bit(self.mask, self.index as nat)
    }

    /// The hash that the flag was made from.
    pub closed spec fn hash_spec(self) -> H {
        self.hash_value
    }

    /// The level of the flag.
    pub closed spec fn depth_spec(self) -> nat {
        self.depth as nat
    }

    /// The flag of `h` at the root.
    pub fn new(h: H) -> (flag: Self)
        ensures
            flag.hash_spec() == h,
            flag.depth_spec() == 0,
    {
        proof {
            H::lemma_width();
            F::lemma_log_width();
            assert(0 * F::log_width() == 0);
        }
        let index = h.slice(0, F::log_bits());
        proof {
            h.lemma_slice_bound(0, F::log_width());
        }
        Flag { hash_value: h, depth: 0, index, mask: F::bit(index) }
    }

    /// The flag of `h` at level `depth`, if the trie has that level.
    pub fn new_at_depth(h: H, depth: usize) -> (r: Option<Self>)
        ensures
            r.is_some() == fits::<H, F>(depth as nat),
            r matches Some(flag) ==> flag.hash_spec() == h && flag.depth_spec() == depth,
    {
        proof {
            H::lemma_width();
            F::lemma_log_width();
        }
        let width = H::bits();
        let log = F::log_bits();
        if depth >= width as usize {
            assert(depth * F::log_width() >= H::width()) by (nonlinear_arith)
                requires
                    depth >= H::width(),
                    F::log_width() >= 1,
            ;
            return None;
        }
        assert(depth * log <= 128 * 7) by (nonlinear_arith)
            requires
                depth < 128,
                log <= 7,
        ;
        let shift: u32 = depth as u32 * log;
        if shift >= width {
            return None;
        }
        let index = h.slice(shift, log);
        proof {
            h.lemma_slice_bound(shift as nat, log as nat);
        }
        Some(Flag { hash_value: h, depth: depth as u8, index, mask: F::bit(index) })
    }

    /// The flag of the same hash one level down, if the trie has that level.
    pub fn next(&self) -> (r: Option<Self>)
        ensures
            r.is_some() == fits::<H, F>(self.depth_spec() + 1),
            r matches Some(flag) ==> flag.hash_spec() == self.hash_spec() && flag.depth_spec()
                == self.depth_spec() + 1,
    {
        Self::new_at_depth(self.hash_value, self.depth as usize + 1)
    }

    pub fn hash_value(&self) -> (h: H)
        ensures
            h == self.hash_spec(),
    {
        self.hash_value
    }

    pub fn depth(&self) -> (d: usize)
        ensures
            d == self.depth_spec(),
            fits::<H, F>(d as nat),
            d < 128,
    {
        proof {
            use_type_invariant(self);
            H::lemma_width();
            F::lemma_log_width();
            assert(self.depth <= self.depth * F::log_width()) by (nonlinear_arith)
                requires
                    F::log_width() >= 1,
            ;
        }
        self.depth as usize
    }

    /// The slot of the hash at the flag's level.
    pub fn index(&self) -> (i: u8)
        ensures
            i == slot_of::<H, F>(self.hash_spec(), self.depth_spec()),
            i < fan::<F>(),
    {
        proof {
            use_type_invariant(self);
        }
        self.index
    }

    /// The flag word `1 << index`.
    pub fn mask(&self) -> (m: F)
        ensures
            is_bit(m, slot_of::<H, F>(self.hash_spec(), self.depth_spec())),
    {
        proof {
            use_type_invariant(self);
        }
        self.mask
    }
}

} // verus!
