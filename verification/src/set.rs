//! The set: a trie whose keys are the elements and whose values say nothing.

use vstd::prelude::*;
use vstd::std_specs::cmp::PartialEqSpecImpl;
use crate::entries::keys;
use crate::hash_trie::HashTrie;
use crate::ops::{combines, kept, transform_shares, transformed};
use crate::result::{HashTrieError, MapTransformResult, SetTransformResult};
use crate::traits::{HasherBv, Key};
use crate::word::{Flagword, Hashword};

verus! {

/// A persistent set, kept as a hash array mapped trie.
///
/// No operation changes a set: each hands back a new set, which shares with
/// the old one every node that the operation did not touch.
#[must_use]
#[derive(Debug)]
pub struct HashTrieSet<H: Hashword, F: Flagword, V: Key, M: HasherBv<H, V>> {
    set: HashTrie<H, F, V, (), M>,
}

/// The answer for an entry of the trie that stands for the answer `a` for
/// an element of the set.
pub open spec fn lifted<R>(a: (SetTransformResult, R)) -> MapTransformResult<(), R> {
    match a.0 {
        SetTransformResult::Unchanged => MapTransformResult::Unchanged(a.1),
        SetTransformResult::Removed => MapTransformResult::Removed(a.1),
    }
}

/// Whether `op` may be called on every element of `es`.
pub open spec fn set_ready<V, A, Op: Fn(&V) -> A>(op: &Op, es: Seq<V>) -> bool {
    forall|i: int| 0 <= i < es.len() ==> op.requires((&#[trigger] es[i],))
}

/// Whether `rs` holds, for each element of `es`, something that `op` may
/// answer for that element.
pub open spec fn set_answers<V, A, Op: Fn(&V) -> A>(op: &Op, es: Seq<V>, rs: Seq<A>) -> bool {
    &&& rs.len() == es.len()
    &&& forall|i: int| 0 <= i < es.len() ==> op.ensures((&#[trigger] es[i],), rs[i])
}

/// Whether `op` may have been called on every element of `es` and have come
/// back from each call.
pub open spec fn set_visited<V, Op: Fn(&V)>(op: &Op, es: Seq<V>) -> bool {
    forall|i: int| 0 <= i < es.len() ==> op.ensures((&#[trigger] es[i],), ())
}

/// The elements of `es` that the answers `rs`, one for each, let stay.
pub open spec fn set_transformed<V, R>(es: Seq<V>, rs: Seq<(SetTransformResult, R)>) -> Seq<V>
    decreases es.len(),
{
    if es.len() == 0 || rs.len() == 0 {
        Seq::empty()
    } else {
        (if rs[0].0 is Unchanged {
            seq![es[0]]
        } else {
            Seq::empty()
        }) + set_transformed(es.drop_first(), rs.drop_first())
    }
}

/// Whether every answer is `Unchanged`.
pub open spec fn set_unchanged<R>(rs: Seq<(SetTransformResult, R)>) -> bool {
    forall|i: int| 0 <= i < rs.len() ==> (#[trigger] rs[i]).0 is Unchanged
}

/// The shares of the reduction that the answers carry.
pub open spec fn set_shares<R>(rs: Seq<(SetTransformResult, R)>) -> Seq<R> {
    Seq::new(rs.len(), |i: int| rs[i].1)
}

/// The elements that are left are the keys of the entries that are left.
proof fn lemma_set_transformed<V, R>(
    es: Seq<(V, ())>,
    rm: Seq<MapTransformResult<(), R>>,
    rs: Seq<(SetTransformResult, R)>,
)
    requires
        rm.len() == es.len(),
        rs.len() == es.len(),
        forall|i: int| 0 <= i < es.len() ==> #[trigger] rm[i] == lifted(rs[i]),
    ensures
        keys(transformed(es, rm)) == set_transformed(keys(es), rs),
    decreases es.len(),
{
    if es.len() == 0 {
        assert(keys(transformed(es, rm)) =~= set_transformed(keys(es), rs));
    } else {
        let et = es.drop_first();
        assert forall|i: int| 0 <= i < et.len() implies #[trigger] rm.drop_first()[i] == lifted(
            rs.drop_first()[i],
        ) by {
            assert(rm.drop_first()[i] == rm[i + 1]);
        }
        lemma_set_transformed(et, rm.drop_first(), rs.drop_first());
        assert(keys(es).drop_first() =~= keys(et));
        assert(rm[0] == lifted(rs[0]));
        let head = kept(es[0], rm[0]);
        let tail = transformed(et, rm.drop_first());
        assert(keys(head + tail) =~= keys(head) + keys(tail));
        assert(keys(head) =~= if rs[0].0 is Unchanged {
            seq![es[0].0]
        } else {
            Seq::<V>::empty()
        });
    }
}

impl<H: Hashword, F: Flagword, V: Key, M: HasherBv<H, V>> View for HashTrieSet<H, F, V, M> {
    type V = Set<V>;

    /// The elements of the set.
    closed spec fn view(&self) -> Set<V> {
        self.set@.dom()
    }
}

impl<H: Hashword, F: Flagword, V: Key, M: HasherBv<H, V>> HashTrieSet<H, F, V, M> {
    /// The trie that holds the set: its keys are the elements.
    pub closed spec fn trie(&self) -> HashTrie<H, F, V, (), M> {
        self.set
    }

    /// The set is what its trie says: the elements are its keys, in the
    /// order of its entries.
    pub proof fn lemma_trie(&self)
        ensures
            self@ == self.trie()@.dom(),
            self.elements() == keys(self.trie().entries()),
            self.len() == self.trie().entries().len(),
            self.inv() == self.trie().inv(),
    {
    }

    /// Whether the set is well formed. Every set that the operations hand out
    /// is.
    pub closed spec fn inv(&self) -> bool {
        self.set.inv()
    }

    /// The number of elements that the set holds.
    pub closed spec fn len(&self) -> nat {
        self.set.entries().len()
    }

    /// Whether the two sets are the same: the tries that hold them are.
    /// This is what `==` computes.
    pub closed spec fn alike(&self, other: &Self) -> bool {
        self.set.alike(&other.set)
    }

    /// A set is the same as itself.
    pub proof fn lemma_alike_self(&self)
        ensures
            self.alike(self),
    {
        self.set.lemma_alike_self();
    }

    /// Sets that are the same hold the same elements in the same order.
    pub proof fn lemma_alike(&self, other: &Self)
        requires
            self.alike(other),
        ensures
            self.elements() == other.elements(),
            self@ == other@,
            self.len() == other.len(),
    {
        self.set.lemma_alike(&other.set);
    }

    /// The elements of the set, in the order in which `visit` meets them.
    pub closed spec fn elements(&self) -> Seq<V> {
        keys(self.set.entries())
    }

    /// There are as many elements as `len` says.
    pub proof fn lemma_len(&self)
        ensures
            self.elements().len() == self.len(),
    {
    }

    /// Whether `out` may come of combining the shares `shares`, one for
    /// each element in the order of `elements`, along the shape of the trie
    /// that holds the set: see `MNode::reduces`.
    pub closed spec fn reduced<R: Default, Re: Fn(&R, &R) -> R>(
        &self,
        reduce_op: &Re,
        shares: Seq<R>,
        out: R,
    ) -> bool {
        self.set.reduced(reduce_op, shares, out)
    }

    /// Whether `new` and `out` are what `transform` gives where `op`
    /// answers `rs` for the elements: `new` holds the elements that stay,
    /// in their order, and is this set where all stay, and `out` came of the
    /// shares that the answers carry.
    pub open spec fn transformed_to<
        R: Default,
        Re: Fn(&R, &R) -> R,
        Op: Fn(&V) -> (SetTransformResult, R),
    >(
        &self,
        reduce_op: &Re,
        op: &Op,
        rs: Seq<(SetTransformResult, R)>,
        new: Self,
        out: R,
    ) -> bool {
        &&& set_answers(op, self.elements(), rs)
        &&& new.elements() == set_transformed(self.elements(), rs)
        &&& new.inv()
        &&& set_unchanged(rs) ==> new == *self
        &&& self.reduced(reduce_op, set_shares(rs), out)
    }

    /// Get a new, empty HashTrieSet.
    pub fn new() -> (s: Self)
        ensures
            s@ == Set::<V>::empty(),
            s.len() == 0,
            s.inv(),
    {
        let s = Self { set: HashTrie::new() };
        assert(s@ =~= Set::<V>::empty());
        s
    }

    /// Get the total number of entries in the set.
    pub fn size(&self) -> (n: usize)
        ensures
            n == self.len(),
            n == self@.len(),
    {
        self.set.size()
    }

    /// Search the HashTrieSet for the given value and return a reference if
    /// found, or `HashTrieError::NotFound` if not found.
    pub fn find(&self, value: &V) -> (r: Result<&V, HashTrieError>)
        ensures
            r.is_ok() == self@.contains(*value),
            r matches Ok(v) ==> *v == *value,
    {
        match self.set.find(value) {
            Ok((v, _)) => Ok(v),
            Err(e) => Err(e),
        }
    }

    /// Search the HashTrieSet for the spot to insert the value and return
    /// both a mutated set and, if applicable, a reference to the replaced
    /// value. If found and replacement is disabled, a reference to the
    /// existing value is returned.
    pub fn insert<'a>(&'a self, value: V, replace: bool) -> (r: Result<
        (Self, Option<&'a V>),
        &'a V,
    >)
        requires
            self.len() < usize::MAX,
        ensures
            r.is_err() == (self@.contains(value) && !replace),
            r matches Err(v) ==> *v == value,
            r matches Ok(done) ==> {
                &&& done.0@ == self@.insert(value)
                &&& done.0.inv()
                &&& done.1.is_some() == self@.contains(value)
                &&& done.1 matches Some(v) ==> *v == value
                &&& done.0.len() == self.len() + if self@.contains(value) {
                    0nat
                } else {
                    1nat
                }
                &&& self.trie().inserts_to(value, (), done.0.trie())
            },
    {
        match self.set.insert(value, (), replace) {
            Ok((set, prev)) => {
                let s = Self { set };
                assert(s@ =~= self@.insert(value));
                Ok(
                    (
                        s,
                        match prev {
                            Some((v, _)) => Some(v),
                            None => None,
                        },
                    ),
                )
            },
            Err((v, _)) => Err(v),
        }
    }

    /// Search the HashTrieSet for the given value to remove and return a
    /// mutated set, or `HashTrieError::NotFound` if not found.
    pub fn remove(&self, value: &V) -> (r: Result<(Self, &V), HashTrieError>)
        ensures
            r.is_ok() == self@.contains(*value),
            r matches Ok(done) ==> {
                &&& done.0@ == self@.remove(*value)
                &&& done.0.inv()
                &&& *done.1 == *value
                &&& done.0.len() + 1 == self.len()
                &&& self.trie().removes_to(*value, done.0.trie())
            },
    {
        match self.set.remove(value) {
            Ok((set, v, _)) => {
                let s = Self { set };
                assert(s@ =~= self@.remove(*value));
                Ok((s, v))
            },
            Err(e) => Err(e),
        }
    }

    /// Run an operation on each entry in the set.
    pub fn visit<Op: Fn(&V)>(&self, op: Op)
        requires
            set_ready(&op, self.elements()),
        ensures
            set_visited(&op, self.elements()),
    {
        let ghost es = self.set.entries();
        let inner = &op;
        let each = |k: &V, u: &()|
            requires
                inner.requires((k,)),
            ensures
                inner.ensures((k,), ()),
            { inner(k) };
        proof {
            assert forall|i: int| 0 <= i < es.len() implies each.requires(
                (&(#[trigger] es[i]).0, &es[i].1),
            ) by {
                assert(keys(es)[i] == es[i].0);
            }
        }
        self.set.visit(each);
        proof {
            assert forall|i: int| 0 <= i < keys(es).len() implies op.ensures(
                (&#[trigger] keys(es)[i],),
                (),
            ) by {
                assert(keys(es)[i] == es[i].0);
                assert(each.ensures((&es[i].0, &es[i].1), ()));
            }
        }
    }

    /// Run a transform operation on each entry in the set. Returns the
    /// transformed set and a reduction of the secondary returns of the
    /// transform operations.
    pub fn transform<R: Default, Re: Fn(&R, &R) -> R, Op: Fn(&V) -> (SetTransformResult, R)>(
        &self,
        reduce_op: Re,
        op: Op,
    ) -> (r: (Self, R))
        requires
            set_ready(&op, self.elements()),
            combines(&reduce_op),
        ensures
            exists|rs: Seq<(SetTransformResult, R)>| #[trigger]
                self.transformed_to(&reduce_op, &op, rs, r.0, r.1),
    {
        let ghost es = self.set.entries();
        let ghost reduce = reduce_op;
        let inner = &op;
        let each = |k: &V, u: &()| -> (out: MapTransformResult<(), R>)
            requires
                inner.requires((k,)),
            ensures
                exists|a: (SetTransformResult, R)| #[trigger]
                    inner.ensures((k,), a) && out == lifted(a),
            {
                let (result, reduced) = inner(k);
                let ghost a = (result, reduced);
                let out = match result {
                    SetTransformResult::Unchanged => MapTransformResult::Unchanged(reduced),
                    SetTransformResult::Removed => MapTransformResult::Removed(reduced),
                };
                assert(inner.ensures((k,), a) && out == lifted(a));
                out
            };
        proof {
            assert forall|i: int| 0 <= i < es.len() implies each.requires(
                (&(#[trigger] es[i]).0, &es[i].1),
            ) by {
                assert(keys(es)[i] == es[i].0);
            }
        }
        let ghost lift = each;
        let (set, reduced) = self.set.transform(reduce_op, each);
        let ghost gset = set;
        let new = Self { set };
        let ghost rs;
        proof {
            let each = lift;
            let set = gset;
            let rm = choose|rm: Seq<MapTransformResult<(), R>>| #[trigger]
                self.set.transformed_to(&reduce, &each, rm, set, reduced);
            rs = Seq::new(
                es.len(),
                |i: int|
                    choose|a: (SetTransformResult, R)| #[trigger]
                        op.ensures((&es[i].0,), a) && rm[i] == lifted(a),
            );
            assert forall|i: int| 0 <= i < es.len() implies op.ensures(
                (&#[trigger] keys(es)[i],),
                rs[i],
            ) && rm[i] == lifted(rs[i]) by {
                assert(keys(es)[i] == es[i].0);
                assert(each.ensures((&es[i].0, &es[i].1), rm[i]));
            }
            lemma_set_transformed(es, rm, rs);
            assert(transform_shares(rm) =~= set_shares(rs));
            if set_unchanged(rs) {
                assert forall|i: int| 0 <= i < rm.len() implies #[trigger] rm[i] is Unchanged by {
                    assert(rs[i].0 is Unchanged);
                }
            }
            assert(self.transformed_to(&reduce, &op, rs, new, reduced));
        }
        let r = (new, reduced);
        assert(self.transformed_to(&reduce, &op, rs, r.0, r.1));
        r
    }
}

impl<H: Hashword, F: Flagword, V: Key, M: HasherBv<H, V>> Clone for HashTrieSet<H, F, V, M> {
    /// A second handle to the same set.
    fn clone(&self) -> (s: Self)
        ensures
            s == *self,
    {
        Self { set: self.set.clone() }
    }
}

impl<H: Hashword, F: Flagword, V: Key, M: HasherBv<H, V>> Default for HashTrieSet<H, F, V, M> {
    /// The empty set.
    fn default() -> (s: Self)
        ensures
            s@ == Set::<V>::empty(),
            s.len() == 0,
            s.inv(),
    {
        Self::new()
    }
}

impl<H: Hashword, F: Flagword, V: Key, M: HasherBv<H, V>> PartialEq for HashTrieSet<
    H,
    F,
    V,
    M,
> {
    fn eq(&self, other: &Self) -> (b: bool) {
        self.set == other.set
    }
}

impl<H: Hashword, F: Flagword, V: Key, M: HasherBv<H, V>> PartialEqSpecImpl for HashTrieSet<
    H,
    F,
    V,
    M,
> {
    open spec fn obeys_eq_spec() -> bool {
        true
    }

    open spec fn eq_spec(&self, other: &Self) -> bool {
        self.alike(other)
    }
}

impl<H: Hashword, F: Flagword, V: Key, M: HasherBv<H, V>> Eq for HashTrieSet<H, F, V, M> {

}

} // verus!
