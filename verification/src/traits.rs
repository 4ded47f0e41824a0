//! What a trie asks of its keys, its values and its hasher.

use vstd::prelude::*;

verus! {

/// A value that can be copied and compared, both exactly: a copy equals the
/// value that it was made of, and two values compare equal only when they
/// are the same value.
pub trait Value: Sized {
    /// A copy of `self`.
    fn dup(&self) -> (c: Self)
        ensures
            c == *self,
    ;

    /// Whether `self` and `other` are the same value.
    fn same(&self, other: &Self) -> (b: bool)
        ensures
            b == (*self == *other),
    ;
}

/// A value that can serve as a key.
pub trait Key: Value {

}

/// A hasher for keys of type `K` that gives hash words of type `H`.
///
/// The hash of a key depends on the key alone: every hasher of the type
/// gives the same word for the same key.
pub trait HasherBv<H, K>: Default {
    /// The hash of `k`.
    spec fn spec_hash(k: K) -> H;

    fn hash(&self, k: &K) -> (h: H)
        ensures
            h == Self::spec_hash(*k),
    ;
}

impl Value for () {
    fn dup(&self) -> (c: Self) {
        ()
    }

    fn same(&self, other: &Self) -> (b: bool) {
        true
    }
}

impl Value for bool {
    fn dup(&self) -> (c: Self) {
        *self
    }

    fn same(&self, other: &Self) -> (b: bool) {
        *self == *other
    }
}

impl Key for bool {

}

impl Value for char {
    fn dup(&self) -> (c: Self) {
        *self
    }

    fn same(&self, other: &Self) -> (b: bool) {
        *self == *other
    }
}

impl Key for char {

}

impl Value for u8 {
    fn dup(&self) -> (c: Self) {
        *self
    }

    fn same(&self, other: &Self) -> (b: bool) {
        *self == *other
    }
}

impl Key for u8 {

}

impl Value for u16 {
    fn dup(&self) -> (c: Self) {
        *self
    }

    fn same(&self, other: &Self) -> (b: bool) {
        *self == *other
    }
}

impl Key for u16 {

}

impl Value for u32 {
    fn dup(&self) -> (c: Self) {
        *self
    }

    fn same(&self, other: &Self) -> (b: bool) {
        *self == *other
    }
}

impl Key for u32 {

}

impl Value for u64 {
    fn dup(&self) -> (c: Self) {
        *self
    }

    fn same(&self, other: &Self) -> (b: bool) {
        *self == *other
    }
}

impl Key for u64 {

}

impl Value for u128 {
    fn dup(&self) -> (c: Self) {
        *self
    }

    fn same(&self, other: &Self) -> (b: bool) {
        *self == *other
    }
}

impl Key for u128 {

}

impl Value for usize {
    fn dup(&self) -> (c: Self) {
        *self
    }

    fn same(&self, other: &Self) -> (b: bool) {
        *self == *other
    }
}

impl Key for usize {

}

impl Value for i8 {
    fn dup(&self) -> (c: Self) {
        *self
    }

    fn same(&self, other: &Self) -> (b: bool) {
        *self == *other
    }
}

impl Key for i8 {

}

impl Value for i16 {
    fn dup(&self) -> (c: Self) {
        *self
    }

    fn same(&self, other: &Self) -> (b: bool) {
        *self == *other
    }
}

impl Key for i16 {

}

impl Value for i32 {
    fn dup(&self) -> (c: Self) {
        *self
    }

    fn same(&self, other: &Self) -> (b: bool) {
        *self == *other
    }
}

impl Key for i32 {

}

impl Value for i64 {
    fn dup(&self) -> (c: Self) {
        *self
    }

    fn same(&self, other: &Self) -> (b: bool) {
        *self == *other
    }
}

impl Key for i64 {

}

impl Value for i128 {
    fn dup(&self) -> (c: Self) {
        *self
    }

    fn same(&self, other: &Self) -> (b: bool) {
        *self == *other
    }
}

impl Key for i128 {

}

impl Value for isize {
    fn dup(&self) -> (c: Self) {
        *self
    }

    fn same(&self, other: &Self) -> (b: bool) {
        *self == *other
    }
}

impl Key for isize {

}

} // verus!
