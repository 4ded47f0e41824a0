//! The singleton leaf: one key and its value.

use vstd::prelude::*;
use std::sync::Arc;
use crate::entries::{lemma_put_front, lemma_single, mixed, within};
use crate::flag::room;
use crate::joint::{aligned, joint_ok};
use crate::node::cnode::{self, Side};
use crate::node::lnode::{self, LNodeNext};
use crate::node::mnode::{inserted, joined_node, MNode};
use crate::ops::{combines, kept, moved};
use crate::result::{
    FindResult, InsertResult, LNodeTransmuteResult, MNodeTransmuteResult, MapTransformResult,
    MapTransmuteResult, SNodeRemoveResult, SNodeTransformResult, SNodeTransmuteResult,
};
use crate::share::share;
use crate::traits::{HasherBv, Key, Value};
use crate::word::{Flagword, Hashword};

verus! {

/// A leaf that holds one entry.
#[derive(Debug)]
pub struct SNode<K, V> {
    key: K,
    value: V,
}

impl<K, V> View for SNode<K, V> {
    type V = (K, V);

    closed spec fn view(&self) -> (K, V) {
        (self.key, self.value)
    }
}

impl<K, V> SNode<K, V> {
    /// Two singletons with the same entry are the same singleton.
    pub proof fn lemma_same(&self, other: &Self)
        requires
            self@ == other@,
        ensures
            self == other,
    {
    }
}

impl<K, V> SNode<K, V> {
    /// The singleton of `(key, value)`, not yet shared.
    pub fn make(key: K, value: V) -> (s: Self)
        ensures
            s@ == (key, value),
    {
        Self { key, value }
    }
}

impl<K: Key, V: Value> SNode<K, V> {
    #[must_use]
    pub fn new(key: K, value: V) -> (s: Arc<Self>)
        ensures
            s@ == (key, value),
    {
        Arc::new(Self { key, value })
    }

    #[must_use]
    pub fn key(&self) -> (k: &K)
        ensures
            *k == self@.0,
    {
        &self.key
    }

    #[must_use]
    pub fn value(&self) -> (v: &V)
        ensures
            *v == self@.1,
    {
        &self.value
    }

    /// Whether the two singletons hold the same entry.
    pub fn same(&self, other: &Self) -> (b: bool)
        ensures
            b == (*self == *other),
    {
        self.key.same(&other.key) && self.value.same(&other.value)
    }

    /// Calls `op` on the entry.
    pub fn visit<Op: Fn(&K, &V)>(&self, op: &Op)
        requires
            op.requires((&self@.0, &self@.1)),
        ensures
            op.ensures((&self@.0, &self@.1), ()),
    {
        op(&self.key, &self.value);
    }

    /// The entry, if its key is `key`.
    pub fn find<'a>(&'a self, key: &K) -> (r: FindResult<'a, K, V>)
        ensures
            r.entry() == if self@.0 == *key {
                Some(self@)
            } else {
                None
            },
    {
        if self.key.same(key) {
            FindResult::Found(&self.key, &self.value)
        } else {
            FindResult::NotFound
        }
    }
}

/// Inserts `(key, value)` into the singleton, or beside it.
///
/// Where `key` is the singleton's key, the entry is replaced if `replace`
/// is true and handed back if not. Otherwise the result holds both entries:
/// a list where the two keys have the same hash, a branch where they do not.
pub fn insert<'a, H: Hashword, F: Flagword, K: Key, V: Value, M: HasherBv<H, K>>(
    this: &'a Arc<SNode<K, V>>,
    key: K,
    value: V,
    key_hash: H,
    depth: usize,
    replace: bool,
) -> (r: InsertResult<'a, H, F, K, V, M>)
    requires
        key_hash == M::spec_hash(key),
        within::<H, F, K, V, M>(seq![this@], key_hash, depth as nat),
    ensures
        inserted(
            MNode::<H, F, K, V, M>::S(*this),
            depth as nat,
            key,
            value,
            replace,
            r.found(),
            r.prev(),
            r.node(),
        ),
{
    proof {
        lemma_single(this@, key);
    }
    if this.key.same(&key) {
        if replace {
            proof {
                lemma_put_front::<H, K, V, M>(seq![this@], key, value);
                assert(seq![(key, value)] + Seq::<(K, V)>::empty() =~= seq![(key, value)]);
            }
            InsertResult::InsertedS(SNode::new(key, value), Some((&this.key, &this.value)))
        } else {
            InsertResult::Found(&this.key, &this.value)
        }
    } else {
        lnode::lift_to_cnode_and_insert(
            LNodeNext::S(share(this)),
            key,
            value,
            key_hash,
            depth,
        ).widen()
    }
}

/// Removes `key` from the singleton: if it is the singleton's key, nothing
/// is left.
pub fn remove<'a, K: Key, V: Value>(this: &'a Arc<SNode<K, V>>, key: &K) -> (r: SNodeRemoveResult<
    'a,
    K,
    V,
>)
    ensures
        r.entry() == if this@.0 == *key {
            Some(this@)
        } else {
            None
        },
{
    if this.key.same(key) {
        SNodeRemoveResult::RemovedZ(&this.key, &this.value)
    } else {
        SNodeRemoveResult::NotFound
    }
}

/// Asks `op` what becomes of the entry: it stays, gets a new value, or
/// goes.
pub fn transform<K: Key, V: Value, R, Op: Fn(&K, &V) -> MapTransformResult<V, R>>(
    this: &Arc<SNode<K, V>>,
    op: &Op,
) -> (r: SNodeTransformResult<K, V, R>)
    requires
        op.requires((&this@.0, &this@.1)),
    ensures
        op.ensures((&this@.0, &this@.1), r.answer()),
        r matches SNodeTransformResult::S(snode, _) ==> snode@.0 == this@.0,
        r.entries(this@) == kept(this@, r.answer()),
{
    match op(&this.key, &this.value) {
        MapTransformResult::Unchanged(r) => SNodeTransformResult::Unchanged(r),
        MapTransformResult::Transformed(v, r) => SNodeTransformResult::S(
            SNode::new(this.key.dup(), v),
            r,
        ),
        MapTransformResult::Removed(r) => SNodeTransformResult::Removed(r),
    }
}

/// Asks `op` what comes of the entry: a new entry, or nothing.
pub fn transmute<K: Key, V: Value, S: Key, X: Value, R, Op: Fn(&K, &V) -> MapTransmuteResult<
    S,
    X,
    R,
>>(this: &Arc<SNode<K, V>>, op: &Op) -> (r: SNodeTransmuteResult<S, X, R>)
    requires
        op.requires((&this@.0, &this@.1)),
    ensures
        op.ensures((&this@.0, &this@.1), r.answer()),
        r.entries() == moved(r.answer()),
{
    match op(&this.key, &this.value) {
        MapTransmuteResult::Transmuted(s, x, r) => SNodeTransmuteResult::S(SNode::new(s, x), r),
        MapTransmuteResult::Removed(r) => SNodeTransmuteResult::Removed(r),
    }
}

/// The join of two singletons whose keys have one hash.
///
/// Where the two have one key, `both_op` is asked about them. Where they
/// have not, `right_op` is asked about the right one and `left_op` about
/// the left one, and the entries that the answers give, that for the right
/// one first, make a list of two, a singleton or nothing.
pub fn joint_transmute_values<
    K: Key,
    V: Value,
    W: Value,
    S: Key,
    X: Value,
    R,
    Re: Fn(&R, &R) -> R,
    Bo: Fn(&K, &V, &K, &W) -> MapTransmuteResult<S, X, R>,
    Lo: Fn(&K, &V) -> MapTransmuteResult<S, X, R>,
    Ro: Fn(&K, &W) -> MapTransmuteResult<S, X, R>,
>(
    this: &Arc<SNode<K, V>>,
    right: &Arc<SNode<K, W>>,
    reduce_op: &Re,
    both_op: &Bo,
    left_op: &Lo,
    right_op: &Ro,
) -> (r: LNodeTransmuteResult<S, X, R>)
    requires
        this@.0 == right@.0 ==> both_op.requires((&this@.0, &this@.1, &right@.0, &right@.1)),
        this@.0 != right@.0 ==> left_op.requires((&this@.0, &this@.1)) && right_op.requires(
            (&right@.0, &right@.1),
        ),
        combines(reduce_op),
    ensures
        exists|rs: Seq<MapTransmuteResult<S, X, R>>| #[trigger]
            lnode::joined_same(
                reduce_op,
                both_op,
                left_op,
                right_op,
                seq![this@],
                seq![right@],
                rs,
                r,
            ),
{
    let left = LNodeNext::S(share(this));
    let right = LNodeNext::S(share(right));
    proof {
        lemma_single(right@[0], this@.0);
        lemma_single(left@[0], right@[0].0);
    }
    lnode::joint_same(&left, &right, reduce_op, both_op, left_op, right_op)
}

/// The joint walk over the singleton `this` and the node `right`, which
/// stand at level `depth`.
pub fn joint_transmute<
    H: Hashword,
    F: Flagword,
    K: Key,
    V: Value,
    W: Value,
    S: Key,
    X: Value,
    M: HasherBv<H, K> + HasherBv<H, S>,
    R: Default,
    Re: Fn(&R, &R) -> R,
    Bo: Fn(&K, &V, &K, &W) -> MapTransmuteResult<S, X, R>,
    Lo: Fn(&K, &V) -> MapTransmuteResult<S, X, R>,
    Ro: Fn(&K, &W) -> MapTransmuteResult<S, X, R>,
>(
    this: &Arc<SNode<K, V>>,
    right: &MNode<H, F, K, W, M>,
    reduce_op: &Re,
    both_op: &Bo,
    left_op: &Lo,
    right_op: &Ro,
    depth: usize,
) -> (r: MNodeTransmuteResult<H, F, S, X, M, R>)
    requires
        right.wf(depth as nat),
        joint_ok::<H, K, V, W, S, X, R, M, Bo, Lo, Ro>(
            both_op,
            left_op,
            right_op,
            seq![this@],
            right.entries(),
        ),
        combines(reduce_op),
        aligned::<H, F, K, V, W, M>(seq![this@], right.entries(), depth as nat),
        1 + right.entries().len() < usize::MAX,
    ensures
        joined_node(seq![this@], right.entries(), depth as nat, both_op, left_op, right_op, r),
        right is C && depth == 0 ==> r is C || r is Removed,
        right !is C && <M as HasherBv<H, K>>::spec_hash(this@.0) == <M as HasherBv<
            H,
            K,
        >>::spec_hash(right.entries()[0].0) ==> r !is C,
        right !is C && r is C ==> mixed::<H, S, X, M>(r.node().unwrap().entries()),
        MNode::<H, F, K, V, M>::S(*this).joint_reduces(
            right,
            depth as nat,
            reduce_op,
            both_op,
            left_op,
            right_op,
            r.reduction(),
        ),
    decreases room::<H, F>(depth as nat), 2nat,
{
    match right {
        MNode::C(cnode) => {
            let me = MNode::<H, F, K, V, M>::S(share(this));
            let left = me.side(depth);
            let side = Side::Branch(cnode);
            assert(side.node() == *right);
            cnode::joint_transmute(&left, &side, reduce_op, both_op, left_op, right_op, depth)
        },
        _ => {
            let left = LNodeNext::S(share(this));
            lnode::joint_leaves(
                &left,
                &right.leaf(),
                reduce_op,
                both_op,
                left_op,
                right_op,
                depth,
            )
        },
    }
}

} // verus!
