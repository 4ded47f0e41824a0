//! The two machine words a trie is built from: the hash word, read a few bits
//! at a time, and the flag word, a set of slots with a population count.

use vstd::prelude::*;
use vstd::arithmetic::power2::pow2;

verus! {

/// An unsigned word that holds the hash of a key.
///
/// The trie reads it in groups of bits, lowest first. Two words with the same
/// bits are the same word.
pub trait Hashword: Sized + Copy {
    /// Number of bits in the word.
    spec fn width() -> nat;

    /// Whether bit `i` is set. Bits at or above `width()` are never set.
    spec fn bit(self, i: nat) -> bool;

    /// The `len` bits that start at bit `shift`, as a number.
    spec fn slice_spec(self, shift: nat, len: nat) -> nat;

    proof fn lemma_width()
        ensures
            0 < Self::width() <= 128,
    ;

    proof fn lemma_same_bits(a: Self, b: Self)
        requires
            forall|i: nat| i < Self::width() ==> a.bit(i) == b.bit(i),
        ensures
            a == b,
    ;

    proof fn lemma_slice(a: Self, b: Self, shift: nat, len: nat)
        requires
            1 <= len <= 7,
            a.slice_spec(shift, len) == b.slice_spec(shift, len),
        ensures
            forall|i: nat| shift <= i < shift + len ==> a.bit(i) == b.bit(i),
    ;

    proof fn lemma_slice_bound(self, shift: nat, len: nat)
        requires
            1 <= len <= 7,
        ensures
            self.slice_spec(shift, len) < pow2(len),
    ;

    fn bits() -> (w: u32)
        ensures
            w == Self::width(),
    ;

    fn same(&self, other: &Self) -> (b: bool)
        ensures
            b == (*self == *other),
    ;

    fn slice(&self, shift: u32, len: u32) -> (c: u8)
        requires
            shift < Self::width(),
            1 <= len <= 7,
        ensures
            c == self.slice_spec(shift as nat, len as nat),
    ;
}

/// A set of slots, each a number below `fan()`.
pub trait Slots: Sized + Copy {
    /// Base-two logarithm of the number of slots.
    spec fn log_width() -> nat;

    /// Whether slot `i` is in the set.
    spec fn has(self, i: nat) -> bool;

    proof fn lemma_log_width()
        ensures
            1 <= Self::log_width() <= 7,
    ;

    proof fn lemma_has(self, i: nat)
        requires
            self.has(i),
        ensures
            i < pow2(Self::log_width()),
    ;

    proof fn lemma_same_slots(a: Self, b: Self)
        requires
            forall|i: nat| a.has(i) == b.has(i),
        ensures
            a == b,
    ;
}

/// An unsigned word of `fan()` bits, used as the set of occupied slots of a
/// branch node.
pub trait Flagword: Slots {
    fn log_bits() -> (n: u32)
        ensures
            n == Self::log_width(),
    ;

    /// The number of slots.
    fn slots() -> (n: u8)
        ensures
            n == fan::<Self>(),
    ;

    /// The empty set: the word 0.
    fn empty() -> (f: Self)
        ensures
            forall|i: nat| !f.has(i),
    ;

    /// The set that holds `index` alone: `1 << index`.
    fn bit(index: u8) -> (f: Self)
        requires
            index < pow2(Self::log_width()),
        ensures
            forall|i: nat| f.has(i) <==> i == index,
    ;

    /// The slots below `index`: `(1 << index) - 1`.
    fn below(index: u8) -> (f: Self)
        requires
            index < pow2(Self::log_width()),
        ensures
            forall|i: nat| f.has(i) <==> i < index,
    ;

    /// `self & other`.
    fn intersect(self, other: Self) -> (f: Self)
        ensures
            forall|i: nat| f.has(i) <==> self.has(i) && other.has(i),
    ;

    /// `self | other`.
    fn union(self, other: Self) -> (f: Self)
        ensures
            forall|i: nat| f.has(i) <==> self.has(i) || other.has(i),
    ;

    /// `self & !other`.
    fn minus(self, other: Self) -> (f: Self)
        ensures
            forall|i: nat| f.has(i) <==> self.has(i) && !other.has(i),
    ;

    /// `self == 0`.
    fn is_empty(self) -> (b: bool)
        ensures
            b <==> forall|i: nat| !self.has(i),
    ;

    fn same(&self, other: &Self) -> (b: bool)
        ensures
            b == (*self == *other),
    ;

    /// Population count.
    fn count(self) -> (n: usize)
        ensures
            n == rank(self, fan::<Self>()),
    ;
}

/// Number of slots of a branch node: the bit width of the flag word.
pub open spec fn fan<F: Slots>() -> nat {
    pow2(F::log_width())
}

/// Number of slots below `n` that are in `f`. For a slot `i` of `f` this is
/// the place of its child in the compact child array.
pub open spec fn rank<F: Slots>(f: F, n: nat) -> nat
    decreases n,
{
    if n == 0 {
        0
    } else {
        rank(f, (n - 1) as nat) + if f.has((n - 1) as nat) {
            1nat
        } else {
            0nat
        }
    }
}

/// Whether `m` holds the slot `k` and no other.
pub open spec fn is_bit<F: Slots>(m: F, k: nat) -> bool {
    forall|i: nat| m.has(i) <==> i == k
}

pub proof fn lemma_rank_mono<F: Slots>(f: F, a: nat, b: nat)
    requires
        a <= b,
    ensures
        rank(f, a) <= rank(f, b),
    decreases b,
{
    if a < b {
        lemma_rank_mono(f, a, (b - 1) as nat);
    }
}

/// A slot of `f` below `n` is counted in `rank(f, n)`.
pub proof fn lemma_rank_strict<F: Slots>(f: F, i: nat, n: nat)
    requires
        f.has(i),
        i < n,
    ensures
        rank(f, i) < rank(f, n),
    decreases n,
{
    if i + 1 < n {
        lemma_rank_strict(f, i, (n - 1) as nat);
    }
}

pub proof fn lemma_rank_ext<F: Slots>(f: F, g: F, n: nat)
    requires
        forall|i: nat| i < n ==> f.has(i) == g.has(i),
    ensures
        rank(f, n) == rank(g, n),
    decreases n,
{
    if n > 0 {
        lemma_rank_ext(f, g, (n - 1) as nat);
    }
}

/// Two slots of `f` with the same rank are the same slot.
pub proof fn lemma_rank_injective<F: Slots>(f: F, i: nat, j: nat)
    requires
        f.has(i),
        f.has(j),
        rank(f, i) == rank(f, j),
    ensures
        i == j,
{
    if i < j {
        lemma_rank_strict(f, i, j);
    } else if j < i {
        lemma_rank_strict(f, j, i);
    }
}

/// Cutting `f` off at slot `k` leaves `rank(f, k)` slots.
pub proof fn lemma_rank_cut<F: Slots>(f: F, g: F, k: nat, n: nat)
    requires
        forall|i: nat| g.has(i) <==> f.has(i) && i < k,
        k <= n,
    ensures
        rank(g, n) == rank(f, k),
    decreases n,
{
    if k < n {
        lemma_rank_cut(f, g, k, (n - 1) as nat);
    } else {
        lemma_rank_ext(f, g, n);
    }
}

/// Adding a new slot `k` raises by one the rank of everything above it.
pub proof fn lemma_rank_with<F: Slots>(f: F, g: F, k: nat, n: nat)
    requires
        !f.has(k),
        forall|i: nat| g.has(i) <==> f.has(i) || i == k,
    ensures
        rank(g, n) == rank(f, n) + if k < n {
            1nat
        } else {
            0nat
        },
    decreases n,
{
    if n > 0 {
        lemma_rank_with(f, g, k, (n - 1) as nat);
    }
}

/// Taking the slot `k` out lowers by one the rank of everything above it.
pub proof fn lemma_rank_without<F: Slots>(f: F, g: F, k: nat, n: nat)
    requires
        f.has(k),
        forall|i: nat| g.has(i) <==> f.has(i) && i != k,
    ensures
        rank(f, n) == rank(g, n) + if k < n {
            1nat
        } else {
            0nat
        },
    decreases n,
{
    lemma_rank_with(g, f, k, n);
}

/// A flag word with one slot counts one from that slot on.
pub proof fn lemma_rank_bit<F: Slots>(m: F, k: nat, n: nat)
    requires
        is_bit(m, k),
    ensures
        rank(m, n) == if k < n {
            1nat
        } else {
            0nat
        },
    decreases n,
{
    if n > 0 {
        lemma_rank_bit(m, k, (n - 1) as nat);
    }
}

/// An empty flag word counts nothing.
pub proof fn lemma_rank_empty<F: Slots>(m: F, n: nat)
    requires
        forall|i: nat| !m.has(i),
    ensures
        rank(m, n) == 0,
    decreases n,
{
    if n > 0 {
        lemma_rank_empty(m, (n - 1) as nat);
    }
}

/// Every place of the child array belongs to a slot of `f`.
pub proof fn lemma_rank_onto<F: Slots>(f: F, j: nat, n: nat) -> (i: nat)
    requires
        j < rank(f, n),
    ensures
        i < n,
        f.has(i),
        rank(f, i) == j,
    decreases n,
{
    if j < rank(f, (n - 1) as nat) {
        lemma_rank_onto(f, j, (n - 1) as nat)
    } else {
        (n - 1) as nat
    }
}

/// The slot whose child stands at place `j` of the child array.
pub open spec fn slot_at<F: Slots>(f: F, j: nat) -> nat {
    choose|i: nat| f.has(i) && rank(f, i) == j
}

pub proof fn lemma_slot_at<F: Slots>(f: F, j: nat)
    requires
        j < rank(f, fan::<F>()),
    ensures
        f.has(slot_at(f, j)),
        rank(f, slot_at(f, j)) == j,
        slot_at(f, j) < fan::<F>(),
{
    let i = lemma_rank_onto(f, j, fan::<F>());
    f.lemma_has(slot_at(f, j));
}

/// The slot of a child is found again from its place.
pub proof fn lemma_slot_at_rank<F: Slots>(f: F, i: nat)
    requires
        f.has(i),
    ensures
        slot_at(f, rank(f, i)) == i,
        rank(f, i) < rank(f, fan::<F>()),
{
    f.lemma_has(i);
    lemma_rank_strict(f, i, fan::<F>());
    lemma_slot_at(f, rank(f, i));
    lemma_rank_injective(f, i, slot_at(f, rank(f, i)));
}

/// Whether `a` and `b` have the same bits below `n`.
pub open spec fn agree<H: Hashword>(a: H, b: H, n: nat) -> bool {
    forall|i: nat| i < n ==> a.bit(i) == b.bit(i)
}

/// Words that agree on every bit are equal.
pub proof fn lemma_agree_all<H: Hashword>(a: H, b: H, n: nat)
    requires
        agree(a, b, n),
        n >= H::width(),
    ensures
        a == b,
{
    H::lemma_same_bits(a, b);
}

/// Agreement below `shift` and an equal group of bits at `shift` give
/// agreement below the end of the group.
pub proof fn lemma_agree_step<H: Hashword>(a: H, b: H, shift: nat, len: nat)
    requires
        agree(a, b, shift),
        1 <= len <= 7,
        a.slice_spec(shift, len) == b.slice_spec(shift, len),
    ensures
        agree(a, b, shift + len),
{
    H::lemma_slice(a, b, shift, len);
}

} // verus!
