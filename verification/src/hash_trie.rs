//! The trie: a root node, and the operations on the map that it stands for.

use vstd::prelude::*;
use vstd::std_specs::cmp::PartialEqSpecImpl;
use std::marker::PhantomData;
use std::sync::Arc;
use vstd::pervasive::unreached;
use crate::canon::same_buckets;
use crate::entries::{
    bucket, distinct, lemma_distinct, lemma_map, lemma_map_len, lemma_put_map, lemma_took_last,
    lemma_took_map, put, ready, to_map, took, visited,
};
use crate::joint::{joined, joint_ok};
use crate::node::cnode::CNode;
use crate::node::mnode::{transformed_node, transmuted_node, MNode};
use crate::ops::{
    answers, combines, keeps_apart, keeps_hash, lemma_transformed, transform_shares, transformed,
    transmute_shares, transmuted, unchanged,
};
use crate::result::{
    entry_of, FindResult, HashTrieError, InsertResult, MNodeTransformResult,
    MNodeTransmuteResult, MapTransformResult, MapTransmuteResult, RemoveResult,
};
use crate::traits::{HasherBv, Key, Value};
use crate::word::{fan, lemma_rank_empty, Flagword, Hashword};

verus! {

/// A persistent map from keys to values, kept as a hash array mapped trie.
///
/// No operation changes a trie: each hands back a new trie, which shares
/// with the old one every node that the operation did not touch.
#[derive(Debug)]
pub struct HashTrie<H: Hashword, F: Flagword, K: Key, V: Value, M: HasherBv<H, K>> {
    root: MNode<H, F, K, V, M>,
}

impl<H: Hashword, F: Flagword, K: Key, V: Value, M: HasherBv<H, K>> View for HashTrie<
    H,
    F,
    K,
    V,
    M,
> {
    type V = Map<K, V>;

    /// The map that the trie stands for.
    closed spec fn view(&self) -> Map<K, V> {
        to_map(self.root.entries())
    }
}

impl<H: Hashword, F: Flagword, K: Key, V: Value, M: HasherBv<H, K>> HashTrie<H, F, K, V, M> {
    /// Whether the trie is well formed: its root is a well-formed branch of
    /// level 0, which has no child where the trie is empty. Every trie that
    /// the operations hand out is.
    #[verifier::type_invariant]
    pub closed spec fn inv(&self) -> bool {
        self.root is C && self.root.wf(0)
    }

    /// The entries of the trie, in the order in which `visit` meets them.
    pub closed spec fn entries(&self) -> Seq<(K, V)> {
        self.root.entries()
    }

    /// Whether the two tries are the same: their roots are the same kind
    /// of node, with the same flag word, the same children in the same
    /// order, the same entries in the same order. This is what `==`
    /// computes.
    pub closed spec fn alike(&self, other: &Self) -> bool {
        self.root.alike(&other.root)
    }

    /// Whether `out` may come of combining the shares `shares`, one for
    /// each entry in the order of `entries`, along the shape of the trie:
    /// see `MNode::reduces`.
    pub closed spec fn reduced<R: Default, Re: Fn(&R, &R) -> R>(
        &self,
        reduce_op: &Re,
        shares: Seq<R>,
        out: R,
    ) -> bool {
        self.root.reduces(reduce_op, shares, out)
    }

    /// Whether `out` may come of the shares in the joint walk over this
    /// trie and `right`: see `MNode::joint_reduces`.
    pub closed spec fn joint_reduced<
        W: Value,
        S: Key,
        X: Value,
        R: Default,
        Re: Fn(&R, &R) -> R,
        Bo: Fn(&K, &V, &K, &W) -> MapTransmuteResult<S, X, R>,
        Lo: Fn(&K, &V) -> MapTransmuteResult<S, X, R>,
        Ro: Fn(&K, &W) -> MapTransmuteResult<S, X, R>,
    >(
        &self,
        right: &HashTrie<H, F, K, W, M>,
        reduce_op: &Re,
        both_op: &Bo,
        left_op: &Lo,
        right_op: &Ro,
        out: R,
    ) -> bool {
        self.root.joint_reduces(&right.root, 0, reduce_op, both_op, left_op, right_op, out)
    }

    /// Whether `new` is the trie that `insert` hands back for `(key, value)`
    /// where it hands one back.
    ///
    /// It is well formed and stands for the map with the new entry. It has
    /// one entry more, or as many where the key was there. Among the entries
    /// with the hash of the key the new entry comes first and the old entry
    /// of the key is gone; the entries of every other hash are as they were.
    pub open spec fn inserts_to(&self, key: K, value: V, new: Self) -> bool {
        &&& new.inv()
        &&& new@ == self@.insert(key, value)
        &&& new.entries().len() == self.entries().len() + if self@.contains_key(key) {
            0nat
        } else {
            1nat
        }
        &&& put::<H, K, V, M>(self.entries(), new.entries(), key, value)
    }

    /// Whether `new` is the trie that `remove` hands back for `key`, which
    /// the trie holds.
    ///
    /// It is well formed and stands for the map without the key. It has one
    /// entry less. The entry of the key is gone from the entries with the
    /// hash of the key; the entries of every other hash are as they were.
    pub open spec fn removes_to(&self, key: K, new: Self) -> bool {
        &&& new.inv()
        &&& new@ == self@.remove(key)
        &&& new.entries().len() + 1 == self.entries().len()
        &&& took::<H, K, V, M>(self.entries(), new.entries(), key)
    }

    /// Whether `new` and `out` are what `transform` gives where `op`
    /// answers `rs` for the entries: `new` holds what is left of the
    /// entries, in their order, and is this trie where nothing changed, and
    /// `out` came of the shares that the answers carry.
    pub open spec fn transformed_to<
        R: Default,
        Re: Fn(&R, &R) -> R,
        Op: Fn(&K, &V) -> MapTransformResult<V, R>,
    >(
        &self,
        reduce_op: &Re,
        op: &Op,
        rs: Seq<MapTransformResult<V, R>>,
        new: Self,
        out: R,
    ) -> bool {
        &&& answers(op, self.entries(), rs)
        &&& new.entries() == transformed(self.entries(), rs)
        &&& new.inv()
        &&& unchanged(rs) ==> new == *self
        &&& self.reduced(reduce_op, transform_shares(rs), out)
    }

    /// Whether `new` and `out` are what `transmute` gives where `op`
    /// answers `rs` for the entries: `new` holds the entries that the
    /// answers give, in their order, and `out` came of the shares that the
    /// answers carry.
    pub open spec fn transmuted_to<
        S: Key,
        X: Value,
        R: Default,
        Re: Fn(&R, &R) -> R,
        Op: Fn(&K, &V) -> MapTransmuteResult<S, X, R>,
    >(
        &self,
        reduce_op: &Re,
        op: &Op,
        rs: Seq<MapTransmuteResult<S, X, R>>,
        new: HashTrie<H, F, S, X, M>,
        out: R,
    ) -> bool where M: HasherBv<H, S> {
        &&& answers(op, self.entries(), rs)
        &&& new.entries() == transmuted(rs)
        &&& new.inv()
        &&& self.reduced(reduce_op, transmute_shares(rs), out)
    }

    /// Whether `new` is the trie that `joint_transmute` gives for this trie
    /// and `right`.
    ///
    /// It is well formed. For each hash its entries are what the three
    /// operations answer about the entries of that hash in the two tries:
    /// see `joined`.
    pub open spec fn joins_to<
        W: Value,
        S: Key,
        X: Value,
        R,
        Bo: Fn(&K, &V, &K, &W) -> MapTransmuteResult<S, X, R>,
        Lo: Fn(&K, &V) -> MapTransmuteResult<S, X, R>,
        Ro: Fn(&K, &W) -> MapTransmuteResult<S, X, R>,
    >(
        &self,
        right: &HashTrie<H, F, K, W, M>,
        both_op: &Bo,
        left_op: &Lo,
        right_op: &Ro,
        new: HashTrie<H, F, S, X, M>,
    ) -> bool where M: HasherBv<H, S> {
        &&& new.inv()
        &&& joined::<H, K, V, W, S, X, R, M, Bo, Lo, Ro>(
            both_op,
            left_op,
            right_op,
            self.entries(),
            right.entries(),
            new.entries(),
        )
        &&& new.entries().len() <= self.entries().len() + right.entries().len()
    }

    /// The view is the map of the entries.
    pub proof fn lemma_view(&self)
        ensures
            self@ == to_map(self.entries()),
    {
    }

    /// No key occurs twice among the entries, and the map has as many keys
    /// as the trie has entries.
    pub proof fn lemma_size(&self)
        requires
            self.inv(),
        ensures
            distinct(self.entries()),
            self@.dom().finite(),
            self@.len() == self.entries().len(),
    {
        assert forall|h: H| #[trigger] distinct(bucket::<H, K, V, M>(self.entries(), h)) by {
            self.root.lemma_bucket_distinct(0, h);
        }
        lemma_distinct::<H, K, V, M>(self.entries());
        lemma_map_len(self.entries());
    }

    /// Among the entries of one hash no key occurs twice.
    pub proof fn lemma_entries(&self)
        requires
            self.inv(),
        ensures
            forall|h: H| #[trigger] distinct(bucket::<H, K, V, M>(self.entries(), h)),
    {
        assert forall|h: H| #[trigger] distinct(bucket::<H, K, V, M>(self.entries(), h)) by {
            self.root.lemma_bucket_distinct(0, h);
        }
    }

    /// A trie is the same as itself.
    pub proof fn lemma_alike_self(&self)
        ensures
            self.alike(self),
    {
        self.root.lemma_alike_self();
    }

    /// Tries that are the same hold the same entries in the same order, and
    /// stand for the same map.
    pub proof fn lemma_alike(&self, other: &Self)
        requires
            self.alike(other),
        ensures
            self.entries() == other.entries(),
            self@ == other@,
    {
        self.root.lemma_alike_entries(&other.root);
    }

    /// Two well-formed tries that hold the same entries for each hash, in
    /// the same order, are the same trie.
    pub proof fn lemma_canonical(&self, other: &Self)
        requires
            self.inv(),
            other.inv(),
            same_buckets::<H, K, V, M>(self.entries(), other.entries()),
        ensures
            self.alike(other),
    {
        self.root.lemma_canonical(&other.root, 0);
    }

    /// The empty trie.
    #[must_use]
    pub fn new() -> (trie: Self)
        ensures
            trie@ == Map::<K, V>::empty(),
            trie.entries() == Seq::<(K, V)>::empty(),
            trie.inv(),
    {
        let bitmap = F::empty();
        let cnode = CNode { bitmap, nodes: Vec::new(), size: 0, marker: PhantomData };
        proof {
            H::lemma_width();
            lemma_rank_empty(bitmap, fan::<F>());
            assert(0 * F::log_width() == 0);
            assert(to_map(cnode.entries()) =~= Map::<K, V>::empty());
        }
        Self { root: MNode::C(Arc::new(cnode)) }
    }

    /// The trie with the root `mnode`.
    #[must_use]
    fn singleton(mnode: MNode<H, F, K, V, M>) -> (trie: Self)
        requires
            mnode is C,
            mnode.wf(0),
        ensures
            trie.root == mnode,
            trie.entries() == mnode.entries(),
            trie@ == to_map(mnode.entries()),
            trie.inv(),
    {
        Self { root: mnode }
    }

    /// The root of the trie, a branch.
    pub fn root(&self) -> (node: &MNode<H, F, K, V, M>)
        ensures
            node is C,
            node.wf(0),
            node.entries() == self.entries(),
    {
        proof {
            use_type_invariant(self);
        }
        &self.root
    }

    /// The number of entries, which is the number of keys.
    pub fn size(&self) -> (n: usize)
        ensures
            n == self.entries().len(),
            n == self@.len(),
    {
        proof {
            use_type_invariant(self);
            self.root.lemma_count(0);
            self.lemma_size();
        }
        self.root.size()
    }

    /// The entry of `key`, or `NotFound` where the trie has none.
    pub fn find<'a>(&'a self, key: &K) -> (r: Result<(&'a K, &'a V), HashTrieError>)
        ensures
            r.is_ok() == self@.contains_key(*key),
            r matches Ok(kv) ==> *kv.0 == *key && *kv.1 == self@[*key],
    {
        proof {
            use_type_invariant(self);
            lemma_map(self.root.entries(), *key);
        }
        let hash = M::default().hash(key);
        match self.root.find(key, hash, 0) {
            FindResult::NotFound => Err(HashTrieError::NotFound),
            FindResult::Found(key, value) => Ok((key, value)),
        }
    }

    /// The trie with the entry `(key, value)`.
    ///
    /// Where the trie has no entry of `key`, the new trie has this one more.
    /// Where it has one and `replace` is true, the new trie has the new
    /// entry in its place, and the old entry comes back with it. Where it
    /// has one and `replace` is false, there is no new trie: the entry that
    /// is in the way comes back as the error.
    pub fn insert<'a>(&'a self, key: K, value: V, replace: bool) -> (r: Result<
        (Self, Option<(&'a K, &'a V)>),
        (&'a K, &'a V),
    >)
        requires
            self.entries().len() < usize::MAX,
        ensures
            r.is_err() == (self@.contains_key(key) && !replace),
            r matches Err(kv) ==> *kv.0 == key && *kv.1 == self@[key],
            r matches Ok(done) ==> {
                &&& self.inserts_to(key, value, done.0)
                &&& done.1.is_some() == self@.contains_key(key)
                &&& entry_of(done.1) matches Some(kv) ==> kv == (key, self@[key])
            },
    {
        proof {
            use_type_invariant(self);
            lemma_map(self.root.entries(), key);
            assert(0 * F::log_width() == 0);
        }
        let hash = M::default().hash(&key);
        let r = self.root.insert(key, value, hash, 0, replace);
        proof {
            if r.node().is_some() {
                lemma_put_map::<H, K, V, M>(
                    self.root.entries(),
                    r.node().unwrap().entries(),
                    key,
                    value,
                );
            }
        }
        match r {
            InsertResult::Found(key, value) => Err((key, value)),
            InsertResult::InsertedC(cnode, prev) => Ok((Self::singleton(MNode::C(cnode)), prev)),
            // What comes of a branch at the root is a branch.
            InsertResult::InsertedL(_, _) | InsertResult::InsertedS(_, _) => unreached(),
        }
    }

    /// The trie without the entry of `key`, and that entry; or `NotFound`
    /// where the trie has none.
    pub fn remove<'a>(&'a self, key: &K) -> (r: Result<(Self, &'a K, &'a V), HashTrieError>)
        ensures
            r.is_ok() == self@.contains_key(*key),
            r matches Ok(done) ==> {
                &&& self.removes_to(*key, done.0)
                &&& *done.1 == *key
                &&& *done.2 == self@[*key]
            },
    {
        proof {
            use_type_invariant(self);
            lemma_map(self.root.entries(), *key);
            self.root.lemma_bucket_distinct(0, M::spec_hash(*key));
        }
        let hash = M::default().hash(key);
        let r = self.root.remove(key, hash, 0);
        proof {
            if r.entry().is_some() {
                match r.node() {
                    Some(n) => {
                        lemma_took_map::<H, K, V, M>(self.root.entries(), n.entries(), *key);
                        n.lemma_count(0);
                    },
                    None => {
                        lemma_took_last::<H, K, V, M>(self.root.entries(), *key);
                    },
                }
            }
        }
        match r {
            RemoveResult::NotFound => Err(HashTrieError::NotFound),
            RemoveResult::RemovedC(cnode, key, value) => Ok(
                (Self::singleton(MNode::C(cnode)), key, value),
            ),
            RemoveResult::RemovedZ(key, value) => Ok((Self::new(), key, value)),
            // What is left of a branch at the root is a branch.
            RemoveResult::RemovedL(_, _, _) | RemoveResult::RemovedS(_, _, _) => unreached(),
        }
    }

    /// Calls `op` on every entry of the trie, once, in the order of
    /// `entries`.
    pub fn visit<Op: Fn(&K, &V)>(&self, op: Op)
        requires
            ready(&op, self.entries()),
        ensures
            visited(&op, self.entries()),
    {
        self.root.visit(&op);
    }

    /// Transforms every entry with `op`, which lets it stay, gives it a new
    /// value or drops it, and combines the shares of the reduction that `op`
    /// hands back with `reduce_op`.
    ///
    /// The entries are visited in the order of `entries`. Where `op`
    /// changes nothing the trie that comes back is this trie.
    pub fn transform<R: Default, Re: Fn(&R, &R) -> R, Op: Fn(&K, &V) -> MapTransformResult<V, R>>(
        &self,
        reduce_op: Re,
        op: Op,
    ) -> (r: (Self, R))
        requires
            ready(&op, self.entries()),
            combines(&reduce_op),
        ensures
            exists|rs: Seq<MapTransformResult<V, R>>| #[trigger]
                self.transformed_to(&reduce_op, &op, rs, r.0, r.1),
    {
        proof {
            use_type_invariant(self);
        }
        let result = self.root.transform(&reduce_op, &op, 0);
        let ghost rs = choose|rs: Seq<MapTransformResult<V, R>>| #[trigger]
            transformed_node(self.root, 0, &reduce_op, &op, rs, result);
        proof {
            lemma_transformed(self.root.entries(), rs);
        }
        let r = match result {
            MNodeTransformResult::Unchanged(reduced) => (
                Self::singleton(self.root.share()),
                reduced,
            ),
            MNodeTransformResult::C(cnode, reduced) => (
                Self::singleton(MNode::C(cnode)),
                reduced,
            ),
            MNodeTransformResult::Removed(reduced) => {
                proof {
                    assert(transformed(self.root.entries(), rs) =~= Seq::<(K, V)>::empty());
                }
                (Self::new(), reduced)
            },
            // What is left of a branch at the root is a branch.
            MNodeTransformResult::L(_, _) | MNodeTransformResult::S(_, _) => unreached(),
        };
        proof {
            assert(self.transformed_to(&reduce_op, &op, rs, r.0, r.1));
        }
        r
    }

    /// Makes a trie of other keys and values: `op` gives for every entry the
    /// entry that takes its place, or nothing, and the shares of the
    /// reduction that `op` hands back are combined with `reduce_op`.
    ///
    /// The new trie has the shape of this one, so `op` must give each entry
    /// a key with the hash of the key that the entry has, and entries with
    /// different keys different keys.
    pub fn transmute<
        S: Key,
        X: Value,
        R: Default,
        Re: Fn(&R, &R) -> R,
        Op: Fn(&K, &V) -> MapTransmuteResult<S, X, R>,
    >(&self, reduce_op: Re, op: Op) -> (r: (HashTrie<H, F, S, X, M>, R))
        where M: HasherBv<H, S>
        requires
            ready(&op, self.entries()),
            combines(&reduce_op),
            keeps_hash::<H, K, V, S, X, R, M, Op>(&op, self.entries()),
            keeps_apart::<H, K, V, S, X, R, M, Op>(&op, self.entries()),
        ensures
            exists|rs: Seq<MapTransmuteResult<S, X, R>>| #[trigger]
                self.transmuted_to(&reduce_op, &op, rs, r.0, r.1),
    {
        proof {
            use_type_invariant(self);
        }
        let result = self.root.transmute(&reduce_op, &op, 0);
        let ghost rs = choose|rs: Seq<MapTransmuteResult<S, X, R>>| #[trigger]
            transmuted_node(self.root, 0, &reduce_op, &op, rs, result);
        let r = match result {
            MNodeTransmuteResult::C(cnode, reduced) => (
                HashTrie::singleton(MNode::C(cnode)),
                reduced,
            ),
            MNodeTransmuteResult::Removed(reduced) => {
                proof {
                    assert(transmuted(rs) =~= Seq::<(S, X)>::empty());
                }
                (HashTrie::new(), reduced)
            },
            // What comes of a branch at the root is a branch.
            MNodeTransmuteResult::L(_, _) | MNodeTransmuteResult::S(_, _) => unreached(),
        };
        proof {
            assert(self.transmuted_to(&reduce_op, &op, rs, r.0, r.1));
        }
        r
    }

    /// Walks this trie and `right` together and makes a trie of what the
    /// three operations answer.
    ///
    /// For a key that both tries have, `both_op` is asked about the two
    /// entries, the entry of this trie first. For a key that only this trie
    /// has, `left_op` is asked, and for a key that only `right` has,
    /// `right_op`. Each answer gives the entry that goes into the new trie,
    /// or nothing. The new trie takes its shape from the two, so each
    /// answer must give a key with the hash of the key that was asked
    /// about, and answers for different keys must give different keys.
    pub fn joint_transmute<
        W: Value,
        S: Key,
        X: Value,
        R: Default,
        Re: Fn(&R, &R) -> R,
        Bo: Fn(&K, &V, &K, &W) -> MapTransmuteResult<S, X, R>,
        Lo: Fn(&K, &V) -> MapTransmuteResult<S, X, R>,
        Ro: Fn(&K, &W) -> MapTransmuteResult<S, X, R>,
    >(
        &self,
        right: &HashTrie<H, F, K, W, M>,
        reduce_op: Re,
        both_op: Bo,
        left_op: Lo,
        right_op: Ro,
    ) -> (r: (HashTrie<H, F, S, X, M>, R))
        where M: HasherBv<H, S>
        requires
            joint_ok::<H, K, V, W, S, X, R, M, Bo, Lo, Ro>(
                &both_op,
                &left_op,
                &right_op,
                self.entries(),
                right.entries(),
            ),
            combines(&reduce_op),
            self.entries().len() + right.entries().len() < usize::MAX,
        ensures
            self.joins_to(right, &both_op, &left_op, &right_op, r.0),
            self.joint_reduced(right, &reduce_op, &both_op, &left_op, &right_op, r.1),
    {
        proof {
            use_type_invariant(self);
            use_type_invariant(right);
            assert(0 * F::log_width() == 0);
        }
        let result = self.root.joint_transmute(
            &right.root,
            &reduce_op,
            &both_op,
            &left_op,
            &right_op,
            0,
        );
        match result {
            MNodeTransmuteResult::C(cnode, reduced) => (
                HashTrie::singleton(MNode::C(cnode)),
                reduced,
            ),
            MNodeTransmuteResult::Removed(reduced) => (HashTrie::new(), reduced),
            // What comes of two branches at the root is a branch.
            MNodeTransmuteResult::L(_, _) | MNodeTransmuteResult::S(_, _) => unreached(),
        }
    }
}

impl<H: Hashword, F: Flagword, K: Key, V: Value, M: HasherBv<H, K>> Clone for HashTrie<
    H,
    F,
    K,
    V,
    M,
> {
    /// A second handle to the same trie.
    fn clone(&self) -> (trie: Self)
        ensures
            trie == *self,
    {
        proof {
            use_type_invariant(self);
        }
        Self::singleton(self.root.share())
    }
}

impl<H: Hashword, F: Flagword, K: Key, V: Value, M: HasherBv<H, K>> Default for HashTrie<
    H,
    F,
    K,
    V,
    M,
> {
    /// The empty trie.
    fn default() -> (trie: Self)
        ensures
            trie@ == Map::<K, V>::empty(),
            trie.entries() == Seq::<(K, V)>::empty(),
            trie.inv(),
    {
        Self::new()
    }
}

impl<H: Hashword, F: Flagword, K: Key, V: Value, M: HasherBv<H, K>> PartialEq for HashTrie<
    H,
    F,
    K,
    V,
    M,
> {
    fn eq(&self, other: &Self) -> (b: bool) {
        self.root.same(&other.root)
    }
}

impl<H: Hashword, F: Flagword, K: Key, V: Value, M: HasherBv<H, K>> PartialEqSpecImpl for HashTrie<
    H,
    F,
    K,
    V,
    M,
> {
    open spec fn obeys_eq_spec() -> bool {
        true
    }

    open spec fn eq_spec(&self, other: &Self) -> bool {
        self.alike(other)
    }
}

impl<H: Hashword, F: Flagword, K: Key, V: Value, M: HasherBv<H, K>> Eq for HashTrie<
    H,
    F,
    K,
    V,
    M,
> {

}

} // verus!
