//! The unsigned integers of 8 to 64 bits as hash words and as flag words.

use vstd::prelude::*;
use vstd::arithmetic::power2::lemma2_to64;
use vstd::std_specs::bits::{
    axiom_u16_trailing_zeros, axiom_u32_trailing_zeros, axiom_u64_trailing_zeros,
    axiom_u8_trailing_zeros, u16_trailing_zeros, u32_trailing_zeros, u64_trailing_zeros,
    u8_trailing_zeros,
};
use crate::word::{rank, Flagword, Hashword, Slots};

verus! {

/// `u8::count_ones`: the number of bits of `x` that are set. A `u8` has
/// bits 0 to 7, so that is the number of slots below 8 that `x` holds.
#[verifier::external_body]
fn count_ones_u8(x: u8) -> (n: usize)
    ensures
        n == rank(x, 8),
{
    x.count_ones() as usize
}

/// What the bit operations of `u8` do to the single bit `j`.
proof fn lemma_bits_u8(a: u8, b: u8, j: u8, k: u8)
    by (bit_vector)
    requires
        j < 8,
        k < 8,
    ensures
        (0u8 >> j) & 1 == 0,
        ((1u8 << k) >> j) & 1 == 1 <==> j == k,
        1u8 << k >= 1,
        ((((1u8 << k) - 1) as u8) >> j) & 1 == 1 <==> j < k,
        ((a & b) >> j) & 1 == 1 <==> (a >> j) & 1 == 1 && (b >> j) & 1 == 1,
        ((a | b) >> j) & 1 == 1 <==> (a >> j) & 1 == 1 || (b >> j) & 1 == 1,
        ((a & !b) >> j) & 1 == 1 <==> (a >> j) & 1 == 1 && !((b >> j) & 1 == 1),
        a ^ b == 0 ==> a == b,
        ((a ^ b) >> j) & 1 == 1 ==> ((a >> j) & 1 == 1) != ((b >> j) & 1 == 1),
{
}

/// Two `u8` that differ, differ in one of their bits.
proof fn lemma_differ_u8(a: u8, b: u8) -> (j: u8)
    requires
        a != b,
    ensures
        j < 8,
        ((a >> j) & 1 == 1) != ((b >> j) & 1 == 1),
{
    let x = a ^ b;
    lemma_bits_u8(a, b, 0, 0);
    axiom_u8_trailing_zeros(x);
    let j = u8_trailing_zeros(x) as u8;
    lemma_bits_u8(a, b, j, 0);
    j
}

/// What a group of `l` bits of a `u8`, taken at bit `s`, says of bit `j`.
proof fn lemma_slice_u8(a: u8, b: u8, s: u8, l: u8, j: u8)
    by (bit_vector)
    requires
        s < 8,
        1 <= l < 8,
    ensures
        1u8 << l >= 1,
        (a >> s) & (((1u8 << l) - 1) as u8) < (1u8 << l),
        (a >> s) & (((1u8 << l) - 1) as u8) < 128,
        l == 1 ==> 1u8 << l == 2,
        l == 2 ==> 1u8 << l == 4,
        l == 3 ==> 1u8 << l == 8,
        l == 4 ==> 1u8 << l == 16,
        l == 5 ==> 1u8 << l == 32,
        l == 6 ==> 1u8 << l == 64,
        l == 7 ==> 1u8 << l == 128,
        s <= j && j < s + l && j < 8 && (a >> s) & (((1u8 << l) - 1) as u8) == (b >> s) & (((
        1u8 << l) - 1) as u8) ==> ((a >> j) & 1 == 1) == ((b >> j) & 1 == 1),
{
}

impl Slots for u8 {
    open spec fn log_width() -> nat {
        3
    }

    open spec fn has(self, i: nat) -> bool {
        i < 8 && (self >> (i as u8)) & 1 == 1
    }

    proof fn lemma_log_width() {
    }

    proof fn lemma_has(self, i: nat) {
        lemma2_to64();
    }

    proof fn lemma_same_slots(a: Self, b: Self) {
        if a != b {
            let j = lemma_differ_u8(a, b);
            assert(a.has(j as nat) == b.has(j as nat));
        }
    }
}

impl Flagword for u8 {
    fn log_bits() -> (n: u32) {
        3
    }

    fn slots() -> (n: u8) {
        proof {
            lemma2_to64();
        }
        8
    }

    fn empty() -> (f: Self) {
        let f: u8 = 0;
        assert forall|i: nat| !f.has(i) by {
            if i < 8 {
                lemma_bits_u8(0, 0, i as u8, 0);
            }
        }
        f
    }

    fn bit(index: u8) -> (f: Self) {
        proof {
            lemma2_to64();
        }
        let k: u8 = index as u8;
        let f: u8 = 1u8 << k;
        assert forall|i: nat| f.has(i) <==> i == index by {
            if i < 8 {
                lemma_bits_u8(0, 0, i as u8, k);
            }
        }
        f
    }

    fn below(index: u8) -> (f: Self) {
        proof {
            lemma2_to64();
        }
        let k: u8 = index as u8;
        proof {
            lemma_bits_u8(0, 0, 0, k);
        }
        let f: u8 = (1u8 << k) - 1;
        assert forall|i: nat| f.has(i) <==> i < index by {
            if i < 8 {
                lemma_bits_u8(0, 0, i as u8, k);
            }
        }
        f
    }

    fn intersect(self, other: Self) -> (f: Self) {
        let f = self & other;
        assert forall|i: nat| f.has(i) <==> self.has(i) && other.has(i) by {
            if i < 8 {
                lemma_bits_u8(self, other, i as u8, 0);
            }
        }
        f
    }

    fn union(self, other: Self) -> (f: Self) {
        let f = self | other;
        assert forall|i: nat| f.has(i) <==> self.has(i) || other.has(i) by {
            if i < 8 {
                lemma_bits_u8(self, other, i as u8, 0);
            }
        }
        f
    }

    fn minus(self, other: Self) -> (f: Self) {
        let f = self & !other;
        assert forall|i: nat| f.has(i) <==> self.has(i) && !other.has(i) by {
            if i < 8 {
                lemma_bits_u8(self, other, i as u8, 0);
            }
        }
        f
    }

    fn is_empty(self) -> (b: bool) {
        proof {
            let z: u8 = 0;
            assert forall|i: nat| !z.has(i) by {
                if i < 8 {
                    lemma_bits_u8(0, 0, i as u8, 0);
                }
            }
            if forall|i: nat| !self.has(i) {
                Self::lemma_same_slots(self, z);
            }
        }
        self == 0
    }

    fn same(&self, other: &Self) -> (b: bool) {
        *self == *other
    }

    fn count(self) -> (n: usize) {
        proof {
            lemma2_to64();
        }
        count_ones_u8(self)
    }
}

impl Hashword for u8 {
    open spec fn width() -> nat {
        8
    }

    open spec fn bit(self, i: nat) -> bool {
        i < 8 && (self >> (i as u8)) & 1 == 1
    }

    open spec fn slice_spec(self, shift: nat, len: nat) -> nat {
        if shift < 8 && 1 <= len < 8 {
            ((self >> (shift as u8)) & (((1u8 << (len as u8)) - 1) as u8)) as nat
        } else {
            0
        }
    }

    proof fn lemma_width() {
    }

    proof fn lemma_same_bits(a: Self, b: Self) {
        if a != b {
            let j = lemma_differ_u8(a, b);
            assert(a.bit(j as nat) == b.bit(j as nat));
        }
    }

    proof fn lemma_slice(a: Self, b: Self, shift: nat, len: nat) {
        assert forall|i: nat| shift <= i < shift + len implies a.bit(i) == b.bit(i) by {
            if i < 8 {
                lemma_slice_u8(a, b, shift as u8, len as u8, i as u8);
            }
        }
    }

    proof fn lemma_slice_bound(self, shift: nat, len: nat) {
        lemma2_to64();
        if shift < 8 {
            lemma_slice_u8(self, 0, shift as u8, len as u8, 0);
        }
    }

    fn bits() -> (w: u32) {
        8
    }

    fn same(&self, other: &Self) -> (b: bool) {
        *self == *other
    }

    fn slice(&self, shift: u32, len: u32) -> (c: u8) {
        let s: u8 = shift as u8;
        let l: u8 = len as u8;
        proof {
            lemma_slice_u8(*self, 0, s, l, 0);
        }
        let m: u8 = (1u8 << l) - 1;
        let r: u8 = (*self >> s) & m;
        r as u8
    }
}

/// `u16::count_ones`: the number of bits of `x` that are set. A `u16` has
/// bits 0 to 15, so that is the number of slots below 16 that `x` holds.
#[verifier::external_body]
fn count_ones_u16(x: u16) -> (n: usize)
    ensures
        n == rank(x, 16),
{
    x.count_ones() as usize
}

/// What the bit operations of `u16` do to the single bit `j`.
proof fn lemma_bits_u16(a: u16, b: u16, j: u16, k: u16)
    by (bit_vector)
    requires
        j < 16,
        k < 16,
    ensures
        (0u16 >> j) & 1 == 0,
        ((1u16 << k) >> j) & 1 == 1 <==> j == k,
        1u16 << k >= 1,
        ((((1u16 << k) - 1) as u16) >> j) & 1 == 1 <==> j < k,
        ((a & b) >> j) & 1 == 1 <==> (a >> j) & 1 == 1 && (b >> j) & 1 == 1,
        ((a | b) >> j) & 1 == 1 <==> (a >> j) & 1 == 1 || (b >> j) & 1 == 1,
        ((a & !b) >> j) & 1 == 1 <==> (a >> j) & 1 == 1 && !((b >> j) & 1 == 1),
        a ^ b == 0 ==> a == b,
        ((a ^ b) >> j) & 1 == 1 ==> ((a >> j) & 1 == 1) != ((b >> j) & 1 == 1),
{
}

/// Two `u16` that differ, differ in one of their bits.
proof fn lemma_differ_u16(a: u16, b: u16) -> (j: u16)
    requires
        a != b,
    ensures
        j < 16,
        ((a >> j) & 1 == 1) != ((b >> j) & 1 == 1),
{
    let x = a ^ b;
    lemma_bits_u16(a, b, 0, 0);
    axiom_u16_trailing_zeros(x);
    let j = u16_trailing_zeros(x) as u16;
    lemma_bits_u16(a, b, j, 0);
    j
}

/// What a group of `l` bits of a `u16`, taken at bit `s`, says of bit `j`.
proof fn lemma_slice_u16(a: u16, b: u16, s: u16, l: u16, j: u16)
    by (bit_vector)
    requires
        s < 16,
        1 <= l < 8,
    ensures
        1u16 << l >= 1,
        (a >> s) & (((1u16 << l) - 1) as u16) < (1u16 << l),
        (a >> s) & (((1u16 << l) - 1) as u16) < 128,
        l == 1 ==> 1u16 << l == 2,
        l == 2 ==> 1u16 << l == 4,
        l == 3 ==> 1u16 << l == 8,
        l == 4 ==> 1u16 << l == 16,
        l == 5 ==> 1u16 << l == 32,
        l == 6 ==> 1u16 << l == 64,
        l == 7 ==> 1u16 << l == 128,
        s <= j && j < s + l && j < 16 && (a >> s) & (((1u16 << l) - 1) as u16) == (b >> s) & (((
        1u16 << l) - 1) as u16) ==> ((a >> j) & 1 == 1) == ((b >> j) & 1 == 1),
{
}

impl Slots for u16 {
    open spec fn log_width() -> nat {
        4
    }

    open spec fn has(self, i: nat) -> bool {
        i < 16 && (self >> (i as u16)) & 1 == 1
    }

    proof fn lemma_log_width() {
    }

    proof fn lemma_has(self, i: nat) {
        lemma2_to64();
    }

    proof fn lemma_same_slots(a: Self, b: Self) {
        if a != b {
            let j = lemma_differ_u16(a, b);
            assert(a.has(j as nat) == b.has(j as nat));
        }
    }
}

impl Flagword for u16 {
    fn log_bits() -> (n: u32) {
        4
    }

    fn slots() -> (n: u8) {
        proof {
            lemma2_to64();
        }
        16
    }

    fn empty() -> (f: Self) {
        let f: u16 = 0;
        assert forall|i: nat| !f.has(i) by {
            if i < 16 {
                lemma_bits_u16(0, 0, i as u16, 0);
            }
        }
        f
    }

    fn bit(index: u8) -> (f: Self) {
        proof {
            lemma2_to64();
        }
        let k: u16 = index as u16;
        let f: u16 = 1u16 << k;
        assert forall|i: nat| f.has(i) <==> i == index by {
            if i < 16 {
                lemma_bits_u16(0, 0, i as u16, k);
            }
        }
        f
    }

    fn below(index: u8) -> (f: Self) {
        proof {
            lemma2_to64();
        }
        let k: u16 = index as u16;
        proof {
            lemma_bits_u16(0, 0, 0, k);
        }
        let f: u16 = (1u16 << k) - 1;
        assert forall|i: nat| f.has(i) <==> i < index by {
            if i < 16 {
                lemma_bits_u16(0, 0, i as u16, k);
            }
        }
        f
    }

    fn intersect(self, other: Self) -> (f: Self) {
        let f = self & other;
        assert forall|i: nat| f.has(i) <==> self.has(i) && other.has(i) by {
            if i < 16 {
                lemma_bits_u16(self, other, i as u16, 0);
            }
        }
        f
    }

    fn union(self, other: Self) -> (f: Self) {
        let f = self | other;
        assert forall|i: nat| f.has(i) <==> self.has(i) || other.has(i) by {
            if i < 16 {
                lemma_bits_u16(self, other, i as u16, 0);
            }
        }
        f
    }

    fn minus(self, other: Self) -> (f: Self) {
        let f = self & !other;
        assert forall|i: nat| f.has(i) <==> self.has(i) && !other.has(i) by {
            if i < 16 {
                lemma_bits_u16(self, other, i as u16, 0);
            }
        }
        f
    }

    fn is_empty(self) -> (b: bool) {
        proof {
            let z: u16 = 0;
            assert forall|i: nat| !z.has(i) by {
                if i < 16 {
                    lemma_bits_u16(0, 0, i as u16, 0);
                }
            }
            if forall|i: nat| !self.has(i) {
                Self::lemma_same_slots(self, z);
            }
        }
        self == 0
    }

    fn same(&self, other: &Self) -> (b: bool) {
        *self == *other
    }

    fn count(self) -> (n: usize) {
        proof {
            lemma2_to64();
        }
        count_ones_u16(self)
    }
}

impl Hashword for u16 {
    open spec fn width() -> nat {
        16
    }

    open spec fn bit(self, i: nat) -> bool {
        i < 16 && (self >> (i as u16)) & 1 == 1
    }

    open spec fn slice_spec(self, shift: nat, len: nat) -> nat {
        if shift < 16 && 1 <= len < 8 {
            ((self >> (shift as u16)) & (((1u16 << (len as u16)) - 1) as u16)) as nat
        } else {
            0
        }
    }

    proof fn lemma_width() {
    }

    proof fn lemma_same_bits(a: Self, b: Self) {
        if a != b {
            let j = lemma_differ_u16(a, b);
            assert(a.bit(j as nat) == b.bit(j as nat));
        }
    }

    proof fn lemma_slice(a: Self, b: Self, shift: nat, len: nat) {
        assert forall|i: nat| shift <= i < shift + len implies a.bit(i) == b.bit(i) by {
            if i < 16 {
                lemma_slice_u16(a, b, shift as u16, len as u16, i as u16);
            }
        }
    }

    proof fn lemma_slice_bound(self, shift: nat, len: nat) {
        lemma2_to64();
        if shift < 16 {
            lemma_slice_u16(self, 0, shift as u16, len as u16, 0);
        }
    }

    fn bits() -> (w: u32) {
        16
    }

    fn same(&self, other: &Self) -> (b: bool) {
        *self == *other
    }

    fn slice(&self, shift: u32, len: u32) -> (c: u8) {
        let s: u16 = shift as u16;
        let l: u16 = len as u16;
        proof {
            lemma_slice_u16(*self, 0, s, l, 0);
        }
        let m: u16 = (1u16 << l) - 1;
        let r: u16 = (*self >> s) & m;
        r as u8
    }
}

/// `u32::count_ones`: the number of bits of `x` that are set. A `u32` has
/// bits 0 to 31, so that is the number of slots below 32 that `x` holds.
#[verifier::external_body]
fn count_ones_u32(x: u32) -> (n: usize)
    ensures
        n == rank(x, 32),
{
    x.count_ones() as usize
}

/// What the bit operations of `u32` do to the single bit `j`.
proof fn lemma_bits_u32(a: u32, b: u32, j: u32, k: u32)
    by (bit_vector)
    requires
        j < 32,
        k < 32,
    ensures
        (0u32 >> j) & 1 == 0,
        ((1u32 << k) >> j) & 1 == 1 <==> j == k,
        1u32 << k >= 1,
        ((((1u32 << k) - 1) as u32) >> j) & 1 == 1 <==> j < k,
        ((a & b) >> j) & 1 == 1 <==> (a >> j) & 1 == 1 && (b >> j) & 1 == 1,
        ((a | b) >> j) & 1 == 1 <==> (a >> j) & 1 == 1 || (b >> j) & 1 == 1,
        ((a & !b) >> j) & 1 == 1 <==> (a >> j) & 1 == 1 && !((b >> j) & 1 == 1),
        a ^ b == 0 ==> a == b,
        ((a ^ b) >> j) & 1 == 1 ==> ((a >> j) & 1 == 1) != ((b >> j) & 1 == 1),
{
}

/// Two `u32` that differ, differ in one of their bits.
proof fn lemma_differ_u32(a: u32, b: u32) -> (j: u32)
    requires
        a != b,
    ensures
        j < 32,
        ((a >> j) & 1 == 1) != ((b >> j) & 1 == 1),
{
    let x = a ^ b;
    lemma_bits_u32(a, b, 0, 0);
    axiom_u32_trailing_zeros(x);
    let j = u32_trailing_zeros(x) as u32;
    lemma_bits_u32(a, b, j, 0);
    j
}

/// What a group of `l` bits of a `u32`, taken at bit `s`, says of bit `j`.
proof fn lemma_slice_u32(a: u32, b: u32, s: u32, l: u32, j: u32)
    by (bit_vector)
    requires
        s < 32,
        1 <= l < 8,
    ensures
        1u32 << l >= 1,
        (a >> s) & (((1u32 << l) - 1) as u32) < (1u32 << l),
        (a >> s) & (((1u32 << l) - 1) as u32) < 128,
        l == 1 ==> 1u32 << l == 2,
        l == 2 ==> 1u32 << l == 4,
        l == 3 ==> 1u32 << l == 8,
        l == 4 ==> 1u32 << l == 16,
        l == 5 ==> 1u32 << l == 32,
        l == 6 ==> 1u32 << l == 64,
        l == 7 ==> 1u32 << l == 128,
        s <= j && j < s + l && j < 32 && (a >> s) & (((1u32 << l) - 1) as u32) == (b >> s) & (((
        1u32 << l) - 1) as u32) ==> ((a >> j) & 1 == 1) == ((b >> j) & 1 == 1),
{
}

impl Slots for u32 {
    open spec fn log_width() -> nat {
        5
    }

    open spec fn has(self, i: nat) -> bool {
        i < 32 && (self >> (i as u32)) & 1 == 1
    }

    proof fn lemma_log_width() {
    }

    proof fn lemma_has(self, i: nat) {
        lemma2_to64();
    }

    proof fn lemma_same_slots(a: Self, b: Self) {
        if a != b {
            let j = lemma_differ_u32(a, b);
            assert(a.has(j as nat) == b.has(j as nat));
        }
    }
}

impl Flagword for u32 {
    fn log_bits() -> (n: u32) {
        5
    }

    fn slots() -> (n: u8) {
        proof {
            lemma2_to64();
        }
        32
    }

    fn empty() -> (f: Self) {
        let f: u32 = 0;
        assert forall|i: nat| !f.has(i) by {
            if i < 32 {
                lemma_bits_u32(0, 0, i as u32, 0);
            }
        }
        f
    }

    fn bit(index: u8) -> (f: Self) {
        proof {
            lemma2_to64();
        }
        let k: u32 = index as u32;
        let f: u32 = 1u32 << k;
        assert forall|i: nat| f.has(i) <==> i == index by {
            if i < 32 {
                lemma_bits_u32(0, 0, i as u32, k);
            }
        }
        f
    }

    fn below(index: u8) -> (f: Self) {
        proof {
            lemma2_to64();
        }
        let k: u32 = index as u32;
        proof {
            lemma_bits_u32(0, 0, 0, k);
        }
        let f: u32 = (1u32 << k) - 1;
        assert forall|i: nat| f.has(i) <==> i < index by {
            if i < 32 {
                lemma_bits_u32(0, 0, i as u32, k);
            }
        }
        f
    }

    fn intersect(self, other: Self) -> (f: Self) {
        let f = self & other;
        assert forall|i: nat| f.has(i) <==> self.has(i) && other.has(i) by {
            if i < 32 {
                lemma_bits_u32(self, other, i as u32, 0);
            }
        }
        f
    }

    fn union(self, other: Self) -> (f: Self) {
        let f = self | other;
        assert forall|i: nat| f.has(i) <==> self.has(i) || other.has(i) by {
            if i < 32 {
                lemma_bits_u32(self, other, i as u32, 0);
            }
        }
        f
    }

    fn minus(self, other: Self) -> (f: Self) {
        let f = self & !other;
        assert forall|i: nat| f.has(i) <==> self.has(i) && !other.has(i) by {
            if i < 32 {
                lemma_bits_u32(self, other, i as u32, 0);
            }
        }
        f
    }

    fn is_empty(self) -> (b: bool) {
        proof {
            let z: u32 = 0;
            assert forall|i: nat| !z.has(i) by {
                if i < 32 {
                    lemma_bits_u32(0, 0, i as u32, 0);
                }
            }
            if forall|i: nat| !self.has(i) {
                Self::lemma_same_slots(self, z);
            }
        }
        self == 0
    }

    fn same(&self, other: &Self) -> (b: bool) {
        *self == *other
    }

    fn count(self) -> (n: usize) {
        proof {
            lemma2_to64();
        }
        count_ones_u32(self)
    }
}

impl Hashword for u32 {
    open spec fn width() -> nat {
        32
    }

    open spec fn bit(self, i: nat) -> bool {
        i < 32 && (self >> (i as u32)) & 1 == 1
    }

    open spec fn slice_spec(self, shift: nat, len: nat) -> nat {
        if shift < 32 && 1 <= len < 8 {
            ((self >> (shift as u32)) & (((1u32 << (len as u32)) - 1) as u32)) as nat
        } else {
            0
        }
    }

    proof fn lemma_width() {
    }

    proof fn lemma_same_bits(a: Self, b: Self) {
        if a != b {
            let j = lemma_differ_u32(a, b);
            assert(a.bit(j as nat) == b.bit(j as nat));
        }
    }

    proof fn lemma_slice(a: Self, b: Self, shift: nat, len: nat) {
        assert forall|i: nat| shift <= i < shift + len implies a.bit(i) == b.bit(i) by {
            if i < 32 {
                lemma_slice_u32(a, b, shift as u32, len as u32, i as u32);
            }
        }
    }

    proof fn lemma_slice_bound(self, shift: nat, len: nat) {
        lemma2_to64();
        if shift < 32 {
            lemma_slice_u32(self, 0, shift as u32, len as u32, 0);
        }
    }

    fn bits() -> (w: u32) {
        32
    }

    fn same(&self, other: &Self) -> (b: bool) {
        *self == *other
    }

    fn slice(&self, shift: u32, len: u32) -> (c: u8) {
        let s: u32 = shift as u32;
        let l: u32 = len as u32;
        proof {
            lemma_slice_u32(*self, 0, s, l, 0);
        }
        let m: u32 = (1u32 << l) - 1;
        let r: u32 = (*self >> s) & m;
        r as u8
    }
}

/// `u64::count_ones`: the number of bits of `x` that are set. A `u64` has
/// bits 0 to 63, so that is the number of slots below 64 that `x` holds.
#[verifier::external_body]
fn count_ones_u64(x: u64) -> (n: usize)
    ensures
        n == rank(x, 64),
{
    x.count_ones() as usize
}

/// What the bit operations of `u64` do to the single bit `j`.
proof fn lemma_bits_u64(a: u64, b: u64, j: u64, k: u64)
    by (bit_vector)
    requires
        j < 64,
        k < 64,
    ensures
        (0u64 >> j) & 1 == 0,
        ((1u64 << k) >> j) & 1 == 1 <==> j == k,
        1u64 << k >= 1,
        ((((1u64 << k) - 1) as u64) >> j) & 1 == 1 <==> j < k,
        ((a & b) >> j) & 1 == 1 <==> (a >> j) & 1 == 1 && (b >> j) & 1 == 1,
        ((a | b) >> j) & 1 == 1 <==> (a >> j) & 1 == 1 || (b >> j) & 1 == 1,
        ((a & !b) >> j) & 1 == 1 <==> (a >> j) & 1 == 1 && !((b >> j) & 1 == 1),
        a ^ b == 0 ==> a == b,
        ((a ^ b) >> j) & 1 == 1 ==> ((a >> j) & 1 == 1) != ((b >> j) & 1 == 1),
{
}

/// Two `u64` that differ, differ in one of their bits.
proof fn lemma_differ_u64(a: u64, b: u64) -> (j: u64)
    requires
        a != b,
    ensures
        j < 64,
        ((a >> j) & 1 == 1) != ((b >> j) & 1 == 1),
{
    let x = a ^ b;
    lemma_bits_u64(a, b, 0, 0);
    axiom_u64_trailing_zeros(x);
    let j = u64_trailing_zeros(x) as u64;
    lemma_bits_u64(a, b, j, 0);
    j
}

/// What a group of `l` bits of a `u64`, taken at bit `s`, says of bit `j`.
proof fn lemma_slice_u64(a: u64, b: u64, s: u64, l: u64, j: u64)
    by (bit_vector)
    requires
        s < 64,
        1 <= l < 8,
    ensures
        1u64 << l >= 1,
        (a >> s) & (((1u64 << l) - 1) as u64) < (1u64 << l),
        (a >> s) & (((1u64 << l) - 1) as u64) < 128,
        l == 1 ==> 1u64 << l == 2,
        l == 2 ==> 1u64 << l == 4,
        l == 3 ==> 1u64 << l == 8,
        l == 4 ==> 1u64 << l == 16,
        l == 5 ==> 1u64 << l == 32,
        l == 6 ==> 1u64 << l == 64,
        l == 7 ==> 1u64 << l == 128,
        s <= j && j < s + l && j < 64 && (a >> s) & (((1u64 << l) - 1) as u64) == (b >> s) & (((
        1u64 << l) - 1) as u64) ==> ((a >> j) & 1 == 1) == ((b >> j) & 1 == 1),
{
}

impl Slots for u64 {
    open spec fn log_width() -> nat {
        6
    }

    open spec fn has(self, i: nat) -> bool {
        i < 64 && (self >> (i as u64)) & 1 == 1
    }

    proof fn lemma_log_width() {
    }

    proof fn lemma_has(self, i: nat) {
        lemma2_to64();
    }

    proof fn lemma_same_slots(a: Self, b: Self) {
        if a != b {
            let j = lemma_differ_u64(a, b);
            assert(a.has(j as nat) == b.has(j as nat));
        }
    }
}

impl Flagword for u64 {
    fn log_bits() -> (n: u32) {
        6
    }

    fn slots() -> (n: u8) {
        proof {
            lemma2_to64();
        }
        64
    }

    fn empty() -> (f: Self) {
        let f: u64 = 0;
        assert forall|i: nat| !f.has(i) by {
            if i < 64 {
                lemma_bits_u64(0, 0, i as u64, 0);
            }
        }
        f
    }

    fn bit(index: u8) -> (f: Self) {
        proof {
            lemma2_to64();
        }
        let k: u64 = index as u64;
        let f: u64 = 1u64 << k;
        assert forall|i: nat| f.has(i) <==> i == index by {
            if i < 64 {
                lemma_bits_u64(0, 0, i as u64, k);
            }
        }
        f
    }

    fn below(index: u8) -> (f: Self) {
        proof {
            lemma2_to64();
        }
        let k: u64 = index as u64;
        proof {
            lemma_bits_u64(0, 0, 0, k);
        }
        let f: u64 = (1u64 << k) - 1;
        assert forall|i: nat| f.has(i) <==> i < index by {
            if i < 64 {
                lemma_bits_u64(0, 0, i as u64, k);
            }
        }
        f
    }

    fn intersect(self, other: Self) -> (f: Self) {
        let f = self & other;
        assert forall|i: nat| f.has(i) <==> self.has(i) && other.has(i) by {
            if i < 64 {
                lemma_bits_u64(self, other, i as u64, 0);
            }
        }
        f
    }

    fn union(self, other: Self) -> (f: Self) {
        let f = self | other;
        assert forall|i: nat| f.has(i) <==> self.has(i) || other.has(i) by {
            if i < 64 {
                lemma_bits_u64(self, other, i as u64, 0);
            }
        }
        f
    }

    fn minus(self, other: Self) -> (f: Self) {
        let f = self & !other;
        assert forall|i: nat| f.has(i) <==> self.has(i) && !other.has(i) by {
            if i < 64 {
                lemma_bits_u64(self, other, i as u64, 0);
            }
        }
        f
    }

    fn is_empty(self) -> (b: bool) {
        proof {
            let z: u64 = 0;
            assert forall|i: nat| !z.has(i) by {
                if i < 64 {
                    lemma_bits_u64(0, 0, i as u64, 0);
                }
            }
            if forall|i: nat| !self.has(i) {
                Self::lemma_same_slots(self, z);
            }
        }
        self == 0
    }

    fn same(&self, other: &Self) -> (b: bool) {
        *self == *other
    }

    fn count(self) -> (n: usize) {
        proof {
            lemma2_to64();
        }
        count_ones_u64(self)
    }
}

impl Hashword for u64 {
    open spec fn width() -> nat {
        64
    }

    open spec fn bit(self, i: nat) -> bool {
        i < 64 && (self >> (i as u64)) & 1 == 1
    }

    open spec fn slice_spec(self, shift: nat, len: nat) -> nat {
        if shift < 64 && 1 <= len < 8 {
            ((self >> (shift as u64)) & (((1u64 << (len as u64)) - 1) as u64)) as nat
        } else {
            0
        }
    }

    proof fn lemma_width() {
    }

    proof fn lemma_same_bits(a: Self, b: Self) {
        if a != b {
            let j = lemma_differ_u64(a, b);
            assert(a.bit(j as nat) == b.bit(j as nat));
        }
    }

    proof fn lemma_slice(a: Self, b: Self, shift: nat, len: nat) {
        assert forall|i: nat| shift <= i < shift + len implies a.bit(i) == b.bit(i) by {
            if i < 64 {
                lemma_slice_u64(a, b, shift as u64, len as u64, i as u64);
            }
        }
    }

    proof fn lemma_slice_bound(self, shift: nat, len: nat) {
        lemma2_to64();
        if shift < 64 {
            lemma_slice_u64(self, 0, shift as u64, len as u64, 0);
        }
    }

    fn bits() -> (w: u32) {
        64
    }

    fn same(&self, other: &Self) -> (b: bool) {
        *self == *other
    }

    fn slice(&self, shift: u32, len: u32) -> (c: u8) {
        let s: u64 = shift as u64;
        let l: u64 = len as u64;
        proof {
            lemma_slice_u64(*self, 0, s, l, 0);
        }
        let m: u64 = (1u64 << l) - 1;
        let r: u64 = (*self >> s) & m;
        r as u8
    }
}

} // verus!
