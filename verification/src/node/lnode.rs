//! The collision list: two or more entries whose keys have the same hash.

use vstd::prelude::*;
use std::sync::Arc;
use vstd::pervasive::unreached;
use crate::entries::{
    all_hash, bucket, distinct, lemma_absent, lemma_bucket_add, lemma_bucket_all, lemma_cons,
    lemma_lookup_bucket, lemma_lookup_none, lemma_lookup_some, lemma_put_front, lemma_single,
    lemma_took_without, lemma_without, lookup, mixed, put, ready, visited, within, without,
};
use crate::flag::{fits, room, Flag};
use crate::joint::{
    aligned, job_answers, job_for, jobs, joint_ok, left_answer, lefts_answered, lefts_ready,
    lemma_all_answered, lemma_joined_apart, lemma_joined_keys, lemma_joined_left,
    lemma_joined_right, lemma_joined_same, lemma_joint_ok_left, lemma_joint_ok_part,
    lemma_joint_ok_right, lemma_joint_ready, right_answer, right_jobs, rights_answered,
    rights_ready, Job,
};
use crate::node::cnode::{self, Side};
use crate::node::mnode::{inserted, joined_node, leaves_reduce, removed, MNode};
use crate::node::snode::{self, SNode};
use crate::ops::{
    answers, combines, folded_onto, folded_right, kept, lemma_folded_onto, lemma_transformed,
    lemma_transmuted_add, lemma_transmuted_keys, lemma_transmuted_len, moved, transform_shares,
    transformed, transmute_shares, transmuted, unchanged,
};
use crate::result::{
    FindResult, LNodeInsertResult, LNodeRemoveResult, LNodeTransformResult,
    LNodeTransmuteResult, MNodeTransmuteResult, MapTransformResult, MapTransmuteResult,
    RemoveResult, SNodeRemoveResult,
};
use crate::share::share;
use crate::traits::{HasherBv, Key, Value};
use crate::word::{agree, lemma_agree_all, Flagword, Hashword, Slots};

verus! {

/// What follows the first entry of a collision list: the rest of the list,
/// or its last entry.
#[derive(Debug)]
pub enum LNodeNext<K, V> {
    L(Arc<LNode<K, V>>),
    S(Arc<SNode<K, V>>),
}

/// A list of two or more entries, with its length.
#[derive(Debug)]
pub struct LNode<K, V> {
    key: K,
    value: V,
    next: LNodeNext<K, V>,
    size: usize,
}

impl<K, V> View for LNodeNext<K, V> {
    type V = Seq<(K, V)>;

    open spec fn view(&self) -> Seq<(K, V)> {
        match self {
            LNodeNext::L(lnode) => lnode@,
            LNodeNext::S(snode) => seq![snode@],
        }
    }
}

impl<K, V> View for LNode<K, V> {
    type V = Seq<(K, V)>;

    /// The entries of the list, first to last.
    closed spec fn view(&self) -> Seq<(K, V)> {
        self.entries()
    }
}

impl<K, V> LNode<K, V> {
    spec fn entries(self) -> Seq<(K, V)>
        decreases self,
    {
        seq![(self.key, self.value)] + match self.next {
            LNodeNext::L(lnode) => lnode.entries(),
            LNodeNext::S(snode) => seq![snode@],
        }
    }

    #[verifier::type_invariant]
    pub closed spec fn inv(self) -> bool
        decreases self,
    {
        &&& self.size == self@.len()
        &&& match self.next {
            LNodeNext::L(lnode) => lnode.inv(),
            LNodeNext::S(snode) => true,
        }
    }
}

impl<K, V> LNode<K, V> {
    /// A list has at least two entries, and its first entry is the one that
    /// the node itself holds.
    pub proof fn lemma_len(&self)
        ensures
            self@.len() >= 2,
        decreases self,
    {
        match &self.next {
            LNodeNext::L(lnode) => lnode.lemma_len(),
            LNodeNext::S(snode) => {},
        }
    }

    /// Two lists with the same entries are the same list.
    pub proof fn lemma_same(&self, other: &Self)
        requires
            self.inv(),
            other.inv(),
            self@ == other@,
        ensures
            self == other,
        decreases self,
    {
        self.lemma_len();
        other.lemma_len();
        let a = self.next@;
        let b = other.next@;
        assert(a =~= self@.drop_first());
        assert(b =~= other@.drop_first());
        assert(self@[0] == other@[0]);
        match (&self.next, &other.next) {
            (LNodeNext::L(l1), LNodeNext::L(l2)) => {
                l1.lemma_same(&**l2);
            },
            (LNodeNext::L(l1), LNodeNext::S(s2)) => {
                l1.lemma_len();
            },
            (LNodeNext::S(s1), LNodeNext::L(l2)) => {
                l2.lemma_len();
            },
            (LNodeNext::S(s1), LNodeNext::S(s2)) => {
                assert(a[0] == b[0]);
                s1.lemma_same(&**s2);
            },
        }
    }
}

impl<K, V> LNodeNext<K, V> {
    /// What follows, as a node of the trie.
    pub open spec fn mnode<H, F, M>(self) -> MNode<H, F, K, V, M> {
        match self {
            LNodeNext::L(lnode) => MNode::L(lnode),
            LNodeNext::S(snode) => MNode::S(snode),
        }
    }

    /// What follows, as a node of the trie.
    pub fn into_mnode<H, F, M>(self) -> (r: MNode<H, F, K, V, M>)
        ensures
            r == self.mnode::<H, F, M>(),
    {
        match self {
            LNodeNext::L(lnode) => MNode::L(lnode),
            LNodeNext::S(snode) => MNode::S(snode),
        }
    }
}

impl<K, V> LNodeNext<K, V> {
    /// A second handle to what follows.
    pub fn share(&self) -> (r: Self)
        ensures
            r == *self,
    {
        match self {
            LNodeNext::L(lnode) => LNodeNext::L(share(lnode)),
            LNodeNext::S(snode) => LNodeNext::S(share(snode)),
        }
    }
}

impl<K: Key, V: Value> LNodeNext<K, V> {
    /// The first entry whose key is `key`.
    pub fn find<'a>(&'a self, key: &K) -> (r: FindResult<'a, K, V>)
        ensures
            r.entry() == lookup(self@, *key),
    {
        match self {
            LNodeNext::L(lnode) => lnode.find(key),
            LNodeNext::S(snode) => {
                proof {
                    lemma_single(snode@, *key);
                }
                snode.find(key)
            },
        }
    }

    /// The number of entries.
    pub fn size(&self) -> (n: usize)
        ensures
            n == self@.len(),
            n >= 1,
    {
        match self {
            LNodeNext::L(lnode) => lnode.size(),
            LNodeNext::S(snode) => 1,
        }
    }

    /// The first key of what follows.
    pub fn key(&self) -> (k: &K)
        ensures
            self@.len() >= 1,
            *k == self@[0].0,
    {
        match self {
            LNodeNext::L(lnode) => lnode.key(),
            LNodeNext::S(snode) => snode.key(),
        }
    }
}

impl<K: Key, V: Value> LNodeNext<K, V> {
    /// Whether what follows is the same in both: the same entries in the
    /// same order.
    pub fn same(&self, other: &Self) -> (b: bool)
        ensures
            b == (*self == *other),
        decreases self,
    {
        match (self, other) {
            (LNodeNext::L(a), LNodeNext::L(b)) => a.same(b),
            (LNodeNext::S(a), LNodeNext::S(b)) => a.same(b),
            _ => false,
        }
    }
}

impl<K: Key, V: Value> LNode<K, V> {
    /// Whether the two lists are the same: the same entries in the same
    /// order.
    pub fn same(&self, other: &Self) -> (b: bool)
        ensures
            b == (*self == *other),
        decreases self,
    {
        proof {
            use_type_invariant(self);
            use_type_invariant(other);
        }
        self.key.same(&other.key) && self.value.same(&other.value) && self.next.same(&other.next)
    }

    #[must_use]
    pub fn key(&self) -> (k: &K)
        ensures
            self@.len() >= 2,
            *k == self@[0].0,
    {
        proof {
            self.lemma_len();
        }
        &self.key
    }

    #[must_use]
    pub fn value(&self) -> (v: &V)
        ensures
            self@.len() >= 2,
            *v == self@[0].1,
    {
        proof {
            self.lemma_len();
        }
        &self.value
    }

    /// The list that starts with the entry `(key, value)` and goes on with
    /// `next`.
    #[must_use]
    pub fn new(key: K, value: V, next: LNodeNext<K, V>) -> (lnode: Arc<Self>)
        requires
            next@.len() < usize::MAX,
        ensures
            lnode@ == seq![(key, value)] + next@,
    {
        let size = 1 + match &next {
            LNodeNext::L(lnode) => lnode.size(),
            LNodeNext::S(_snode) => 1,
        };
        proof {
            match &next {
                LNodeNext::L(lnode) => {
                    use_type_invariant(&**lnode);
                },
                LNodeNext::S(_) => {},
            }
        }
        Arc::new(Self { key, value, next, size })
    }

    /// The number of entries.
    #[must_use]
    pub fn size(&self) -> (n: usize)
        ensures
            n == self@.len(),
            n >= 2,
    {
        proof {
            use_type_invariant(self);
            self.lemma_len();
        }
        self.size
    }

    /// Calls `op` on every entry, first to last.
    pub fn visit<Op: Fn(&K, &V)>(&self, op: &Op)
        requires
            ready(op, self@),
        ensures
            visited(op, self@),
        decreases self,
    {
        proof {
            self.lemma_len();
            assert(self@[0] == (self.key, self.value));
            assert(self.next@ =~= self@.drop_first());
            assert forall|i: int| 0 <= i < self.next@.len() implies op.requires(
                (&(#[trigger] self.next@[i]).0, &self.next@[i].1),
            ) by {
                assert(self.next@[i] == self@[i + 1]);
            }
        }
        op(&self.key, &self.value);
        match &self.next {
            LNodeNext::L(lnode) => lnode.visit(op),
            LNodeNext::S(snode) => {
                assert(self.next@[0] == snode@);
                snode.visit(op)
            },
        }
        proof {
            assert forall|i: int| 0 <= i < self@.len() implies op.ensures(
                (&(#[trigger] self@[i]).0, &self@[i].1),
                (),
            ) by {
                if i > 0 {
                    assert(self.next@[i - 1] == self@[i]);
                }
            }
        }
    }

    /// The first entry of the list whose key is `key`.
    pub fn find<'a>(&'a self, key: &K) -> (r: FindResult<'a, K, V>)
        ensures
            r.entry() == lookup(self@, *key),
        decreases self,
    {
        proof {
            lemma_cons(self@[0], self.next@, *key);
        }
        if self.key.same(key) {
            FindResult::Found(&self.key, &self.value)
        } else {
            match &self.next {
                LNodeNext::L(lnode) => lnode.find(key),
                LNodeNext::S(snode) => {
                    proof {
                        lemma_single(snode@, *key);
                    }
                    snode.find(key)
                },
            }
        }
    }
}

/// Puts `(key, value)`, whose key is not in `this`, beside the leaf `this`.
///
/// Where the key has the hash of the leaf's keys the result is the list that
/// starts with the new entry. Otherwise it is the branch of level `depth`
/// that holds the leaf and the new entry.
#[must_use]
pub fn lift_to_cnode_and_insert<
    'a,
    H: Hashword,
    F: Flagword,
    K: Key,
    V: Value,
    M: HasherBv<H, K>,
>(this: LNodeNext<K, V>, key: K, value: V, key_hash: H, depth: usize) -> (r: LNodeInsertResult<
    'a,
    H,
    F,
    K,
    V,
    M,
>)
    requires
        this.mnode::<H, F, M>().wf(depth as nat),
        this@.len() >= 1,
        all_hash::<H, K, V, M>(this@, M::spec_hash(this@[0].0)),
        lookup(this@, key).is_none(),
        key_hash == M::spec_hash(key),
        within::<H, F, K, V, M>(this@, key_hash, depth as nat),
        this@.len() < usize::MAX,
    ensures
        inserted(
            this.mnode::<H, F, M>(),
            depth as nat,
            key,
            value,
            false,
            r.found(),
            r.prev(),
            r.node(),
        ),
        M::spec_hash(this@[0].0) == key_hash ==> r.node().unwrap() is L,
        M::spec_hash(this@[0].0) != key_hash ==> r.node().unwrap() is C,
{
    let ghost old = this@;
    let ghost old_node = this.mnode::<H, F, M>();
    let this_hash = M::default().hash(this.key());
    proof {
        assert(old_node.entries() == old);
        lemma_lookup_none(old, key);
        lemma_absent(old, key);
        lemma_bucket_all::<H, K, V, M>(old, this_hash);
    }
    if this_hash.same(&key_hash) {
        let lnode = LNode::new(key, value, this);
        proof {
            use_type_invariant(&*lnode);
            lemma_put_front::<H, K, V, M>(old, key, value);
            let new = lnode@;
            assert forall|i: int, j: int| 0 <= i < j < new.len() implies new[i].0 != new[j].0 by {
                if i > 0 {
                    assert(new[i] == old[i - 1] && new[j] == old[j - 1]);
                } else {
                    assert(new[j] == old[j - 1]);
                }
            }
            assert forall|i: int| 0 <= i < new.len() implies M::spec_hash(#[trigger] new[i].0)
                == M::spec_hash(new[0].0) by {
                if i > 0 {
                    assert(new[i] == old[i - 1]);
                }
            }
        }
        LNodeInsertResult::InsertedL(lnode, None)
    } else {
        proof {
            assert(agree(M::spec_hash(old[0].0), key_hash, depth as nat * F::log_width()));
            if !fits::<H, F>(depth as nat) {
                lemma_agree_all(this_hash, key_hash, depth as nat * F::log_width());
            }
        }
        let this_flag = Flag::new_at_depth(this_hash, depth).unwrap();
        let key_flag = Flag::new_at_depth(key_hash, depth).unwrap();
        let snode = SNode::new(key, value);
        let one = MNode::S(snode);
        proof {
            assert(one.entries() =~= seq![(key, value)]);
            lemma_single((key, value), key);
        }
        let cnode = cnode::lift_to_cnode_and_insert(this.into_mnode(), this_flag, one, key_flag);
        proof {
            let new = cnode.entries();
            let single = seq![(key, value)];
            lemma_bucket_all::<H, K, V, M>(single, key_hash);
            assert forall|h: H| #[trigger]
                bucket::<H, K, V, M>(new, h) == if h == M::spec_hash(key) {
                    seq![(key, value)] + without(bucket::<H, K, V, M>(old, h), key)
                } else {
                    bucket::<H, K, V, M>(old, h)
                } by {
                lemma_bucket_add::<H, K, V, M>(old, single, h);
                lemma_bucket_add::<H, K, V, M>(single, old, h);
                let e = Seq::<(K, V)>::empty();
                assert(e + single =~= single);
                assert(single + e =~= single);
                assert(e + old =~= old);
                assert(old + e =~= old);
                assert(without(e, key) =~= e);
            }
        }
        LNodeInsertResult::InsertedC(cnode, None)
    }
}

/// What the list `[(k, v)] + without(s, k)` inherits from `s`, where `k` is
/// a key of `s`.
proof fn lemma_replaced<H, K, V, M: HasherBv<H, K>>(s: Seq<(K, V)>, k: K, v: V)
    requires
        s.len() >= 1,
        distinct(s),
        all_hash::<H, K, V, M>(s, M::spec_hash(s[0].0)),
        lookup(s, k).is_some(),
    ensures
        ({
            let new = seq![(k, v)] + without(s, k);
            &&& distinct(new)
            &&& all_hash::<H, K, V, M>(new, M::spec_hash(new[0].0))
            &&& new.len() == s.len()
            &&& put::<H, K, V, M>(s, new, k, v)
        }),
        M::spec_hash(s[0].0) == M::spec_hash(k),
{
    let w = without(s, k);
    let new = seq![(k, v)] + w;
    lemma_without(s, k);
    lemma_put_front::<H, K, V, M>(s, k, v);
    lemma_lookup_none(w, k);
    let i = lemma_lookup_some(s, k);
    assert forall|i: int, j: int| 0 <= i < j < new.len() implies new[i].0 != new[j].0 by {
        if i > 0 {
            assert(new[i] == w[i - 1] && new[j] == w[j - 1]);
        } else {
            assert(new[j] == w[j - 1]);
        }
    }
    assert forall|x: int| 0 <= x < new.len() implies M::spec_hash(#[trigger] new[x].0)
        == M::spec_hash(new[0].0) by {
        if x > 0 {
            assert(new[x] == w[x - 1]);
            assert(s.contains(w[x - 1]));
        }
    }
}

/// Inserts `(key, value)` into the list, or beside it.
///
/// Where the key is in the list and `replace` is false, the result is its
/// entry. Where it is there and `replace` is true, the old entry leaves the
/// list and the new one becomes its first. Where the key is not in the list,
/// see `lift_to_cnode_and_insert`.
pub fn insert<'a, H: Hashword, F: Flagword, K: Key, V: Value, M: HasherBv<H, K>>(
    this: &'a Arc<LNode<K, V>>,
    key: K,
    value: V,
    key_hash: H,
    depth: usize,
    replace: bool,
) -> (r: LNodeInsertResult<'a, H, F, K, V, M>)
    requires
        MNode::<H, F, K, V, M>::L(*this).wf(depth as nat),
        key_hash == M::spec_hash(key),
        within::<H, F, K, V, M>(this@, key_hash, depth as nat),
        this@.len() < usize::MAX,
    ensures
        inserted(
            MNode::<H, F, K, V, M>::L(*this),
            depth as nat,
            key,
            value,
            replace,
            r.found(),
            r.prev(),
            r.node(),
        ),
{
    let ghost old = this@;
    proof {
        this.lemma_len();
        lemma_without(old, key);
    }
    match this.find(&key) {
        FindResult::Found(k, v) => if replace {
            match remove_from_lnode(this, &key) {
                LNodeRemoveResult::RemovedL(rest, k, v) => {
                    let lnode = LNode::new(key, value, LNodeNext::L(rest));
                    proof {
                        use_type_invariant(&*lnode);
                        lemma_replaced::<H, K, V, M>(old, key, value);
                    }
                    LNodeInsertResult::InsertedL(lnode, Some((k, v)))
                },
                LNodeRemoveResult::RemovedS(rest, k, v) => {
                    let lnode = LNode::new(key, value, LNodeNext::S(rest));
                    proof {
                        use_type_invariant(&*lnode);
                        lemma_replaced::<H, K, V, M>(old, key, value);
                    }
                    LNodeInsertResult::InsertedL(lnode, Some((k, v)))
                },
                LNodeRemoveResult::NotFound => unreached(),
            }
        } else {
            LNodeInsertResult::Found(k, v)
        },
        FindResult::NotFound => lift_to_cnode_and_insert(
            LNodeNext::L(share(this)),
            key,
            value,
            key_hash,
            depth,
        ),
    }
}

/// Removes the first entry of key `key` from the list. What is left is a
/// shorter list, or a singleton when the list had two entries.
pub fn remove_from_lnode<'a, K: Key, V: Value>(this: &'a Arc<LNode<K, V>>, key: &K) -> (r:
    LNodeRemoveResult<'a, K, V>)
    ensures
        r.entry() == lookup(this@, *key),
        r.rest() == if lookup(this@, *key).is_some() {
            Some(without(this@, *key))
        } else {
            None
        },
    decreases this,
{
    proof {
        use_type_invariant(&**this);
        lemma_cons(this@[0], this.next@, *key);
        lemma_without(this.next@, *key);
    }
    if this.key.same(key) {
        match &this.next {
            LNodeNext::L(lnode) => LNodeRemoveResult::RemovedL(
                share(lnode),
                &this.key,
                &this.value,
            ),
            LNodeNext::S(snode) => LNodeRemoveResult::RemovedS(
                share(snode),
                &this.key,
                &this.value,
            ),
        }
    } else {
        match &this.next {
            LNodeNext::L(lnode) => match remove_from_lnode(lnode, key) {
                LNodeRemoveResult::NotFound => LNodeRemoveResult::NotFound,
                LNodeRemoveResult::RemovedL(rest, k, v) => LNodeRemoveResult::RemovedL(
                    LNode::new(this.key.dup(), this.value.dup(), LNodeNext::L(rest)),
                    k,
                    v,
                ),
                LNodeRemoveResult::RemovedS(rest, k, v) => LNodeRemoveResult::RemovedL(
                    LNode::new(this.key.dup(), this.value.dup(), LNodeNext::S(rest)),
                    k,
                    v,
                ),
            },
            LNodeNext::S(snode) => {
                proof {
                    lemma_single(snode@, *key);
                    assert(seq![this@[0]] + Seq::<(K, V)>::empty() =~= seq![this@[0]]);
                }
                match snode::remove(snode, key) {
                    SNodeRemoveResult::NotFound => LNodeRemoveResult::NotFound,
                    SNodeRemoveResult::RemovedZ(k, v) => LNodeRemoveResult::RemovedS(
                        SNode::new(this.key.dup(), this.value.dup()),
                        k,
                        v,
                    ),
                }
            },
        }
    }
}

/// Removes `key` from the list. What is left is a shorter list, or a
/// singleton.
pub fn remove<'a, H: Hashword, F: Flagword, K: Key, V: Value, M: HasherBv<H, K>>(
    this: &'a Arc<LNode<K, V>>,
    key: &K,
) -> (r: RemoveResult<'a, H, F, K, V, M>)
    requires
        MNode::<H, F, K, V, M>::L(*this).wf(0),
    ensures
        removed(MNode::<H, F, K, V, M>::L(*this), 0, *key, r.entry(), r.node()),
        r.entry().is_some() ==> r.node().is_some() && r.node().unwrap() !is C,
{
    let ghost old = this@;
    proof {
        this.lemma_len();
        lemma_without(old, *key);
        lemma_took_without::<H, K, V, M>(old, *key);
    }
    match remove_from_lnode(this, key) {
        LNodeRemoveResult::NotFound => RemoveResult::NotFound,
        LNodeRemoveResult::RemovedL(lnode, k, v) => {
            proof {
                use_type_invariant(&*lnode);
                let w = lnode@;
                assert forall|x: int| 0 <= x < w.len() implies M::spec_hash(#[trigger] w[x].0)
                    == M::spec_hash(w[0].0) by {
                    assert(old.contains(w[x]) && old.contains(w[0]));
                }
            }
            RemoveResult::RemovedL(lnode, k, v)
        },
        LNodeRemoveResult::RemovedS(snode, k, v) => RemoveResult::RemovedS(snode, k, v),
    }
}

/// Whether `r` is what the transformation of the list `es` gives where `op`
/// answers `rs` for its entries: what is left of the entries, whether
/// anything changed, and the shares of the reduction combined from the
/// right.
pub open spec fn transformed_list<
    K,
    V,
    R,
    Re: Fn(&R, &R) -> R,
    Op: Fn(&K, &V) -> MapTransformResult<V, R>,
>(
    reduce_op: &Re,
    op: &Op,
    es: Seq<(K, V)>,
    rs: Seq<MapTransformResult<V, R>>,
    r: LNodeTransformResult<K, V, R>,
) -> bool {
    &&& answers(op, es, rs)
    &&& r.entries(es) == transformed(es, rs)
    &&& r is Unchanged <==> unchanged(rs)
    &&& folded_right(reduce_op, transform_shares(rs), r.reduction())
}

/// Puts together what `op` answered for the first entry of the list,
/// `result`, and what came of the entries after it, `next`.
///
/// The first entry stays, gets its new value or goes, in front of what is
/// left of the others: a list where two or more entries are left, a
/// singleton where one is, nothing where none is. Where nothing changed the
/// list is not built again. The share of the first entry is combined with
/// what came of the others.
pub fn transform_result<K: Key, V: Value, R, Re: Fn(&R, &R) -> R>(
    this: &Arc<LNode<K, V>>,
    result: MapTransformResult<V, R>,
    next: LNodeTransformResult<K, V, R>,
    reduce_op: &Re,
) -> (r: LNodeTransformResult<K, V, R>)
    requires
        combines(reduce_op),
        next.entries(this@.drop_first()).len() < this@.len(),
    ensures
        r.entries(this@) == kept(this@[0], result) + next.entries(this@.drop_first()),
        r is Unchanged <==> result is Unchanged && next is Unchanged,
        reduce_op.ensures((&result.reduction(), &next.reduction()), r.reduction()),
{
    let ghost es = this@;
    let ghost tail = this.next@;
    let ghost rest = next.entries(es.drop_first());
    proof {
        this.lemma_len();
        use_type_invariant(&**this);
        assert(es[0] == (this.key, this.value));
        assert(tail =~= es.drop_first());
        assert(seq![es[0]] + tail =~= es);
        assert(Seq::<(K, V)>::empty() + rest =~= rest);
        assert(seq![es[0]] + Seq::<(K, V)>::empty() =~= seq![es[0]]);
    }
    match result {
        MapTransformResult::Unchanged(lr) => match next {
            LNodeTransformResult::Unchanged(rr) => LNodeTransformResult::Unchanged(
                reduce_op(&lr, &rr),
            ),
            LNodeTransformResult::L(lnode, rr) => LNodeTransformResult::L(
                LNode::new(this.key.dup(), this.value.dup(), LNodeNext::L(lnode)),
                reduce_op(&lr, &rr),
            ),
            LNodeTransformResult::S(snode, rr) => LNodeTransformResult::L(
                LNode::new(this.key.dup(), this.value.dup(), LNodeNext::S(snode)),
                reduce_op(&lr, &rr),
            ),
            LNodeTransformResult::Removed(rr) => LNodeTransformResult::S(
                SNode::new(this.key.dup(), this.value.dup()),
                reduce_op(&lr, &rr),
            ),
        },
        MapTransformResult::Transformed(lv, lr) => {
            proof {
                assert(seq![(es[0].0, lv)] + Seq::<(K, V)>::empty() =~= seq![(es[0].0, lv)]);
            }
            match next {
                LNodeTransformResult::Unchanged(rr) => LNodeTransformResult::L(
                    LNode::new(this.key.dup(), lv, this.next.share()),
                    reduce_op(&lr, &rr),
                ),
                LNodeTransformResult::L(lnode, rr) => LNodeTransformResult::L(
                    LNode::new(this.key.dup(), lv, LNodeNext::L(lnode)),
                    reduce_op(&lr, &rr),
                ),
                LNodeTransformResult::S(snode, rr) => LNodeTransformResult::L(
                    LNode::new(this.key.dup(), lv, LNodeNext::S(snode)),
                    reduce_op(&lr, &rr),
                ),
                LNodeTransformResult::Removed(rr) => LNodeTransformResult::S(
                    SNode::new(this.key.dup(), lv),
                    reduce_op(&lr, &rr),
                ),
            }
        },
        MapTransformResult::Removed(lr) => match next {
            LNodeTransformResult::Unchanged(rr) => match &this.next {
                LNodeNext::L(lnode) => LNodeTransformResult::L(share(lnode), reduce_op(&lr, &rr)),
                LNodeNext::S(snode) => LNodeTransformResult::S(share(snode), reduce_op(&lr, &rr)),
            },
            LNodeTransformResult::L(lnode, rr) => LNodeTransformResult::L(
                lnode,
                reduce_op(&lr, &rr),
            ),
            LNodeTransformResult::S(snode, rr) => LNodeTransformResult::S(
                snode,
                reduce_op(&lr, &rr),
            ),
            LNodeTransformResult::Removed(rr) => LNodeTransformResult::Removed(
                reduce_op(&lr, &rr),
            ),
        },
    }
}

/// What is left of a single entry.
pub proof fn lemma_transformed_one<K, V, R>(e: (K, V), r: MapTransformResult<V, R>)
    ensures
        transformed(seq![e], seq![r]) == kept(e, r),
        unchanged(seq![r]) == r is Unchanged,
{
    let es = seq![e];
    let rs = seq![r];
    assert(es.drop_first() =~= Seq::<(K, V)>::empty());
    assert(transformed(es.drop_first(), rs.drop_first()) =~= Seq::<(K, V)>::empty());
    assert(kept(e, r) + Seq::<(K, V)>::empty() =~= kept(e, r));
    if r is Unchanged {
        assert forall|i: int| 0 <= i < rs.len() implies #[trigger] rs[i] is Unchanged by {}
    } else {
        assert(rs[0] == r);
    }
}

/// The transformation of a list from the answer for its first entry and the
/// transformation of the rest.
proof fn lemma_transformed_cons<
    K,
    V,
    R,
    Re: Fn(&R, &R) -> R,
    Op: Fn(&K, &V) -> MapTransformResult<V, R>,
>(
    reduce_op: &Re,
    op: &Op,
    es: Seq<(K, V)>,
    result: MapTransformResult<V, R>,
    rt: Seq<MapTransformResult<V, R>>,
    next: LNodeTransformResult<K, V, R>,
    r: LNodeTransformResult<K, V, R>,
)
    requires
        es.len() >= 2,
        transformed_list(reduce_op, op, es.drop_first(), rt, next),
        op.ensures((&es[0].0, &es[0].1), result),
        r.entries(es) == kept(es[0], result) + next.entries(es.drop_first()),
        r is Unchanged <==> result is Unchanged && next is Unchanged,
        reduce_op.ensures((&result.reduction(), &next.reduction()), r.reduction()),
    ensures
        transformed_list(reduce_op, op, es, seq![result] + rt, r),
{
    let tail = es.drop_first();
    let rs = seq![result] + rt;
    assert(rs.drop_first() =~= rt);
    assert(rs[0] == result);
    assert forall|i: int| 0 <= i < es.len() implies op.ensures(
        (&(#[trigger] es[i]).0, &es[i].1),
        rs[i],
    ) by {
        if i > 0 {
            assert(es[i] == tail[i - 1]);
            assert(rs[i] == rt[i - 1]);
        }
    }
    assert(answers(op, es, rs));
    if unchanged(rs) {
        assert(rs[0] is Unchanged);
        assert forall|i: int| 0 <= i < rt.len() implies #[trigger] rt[i] is Unchanged by {
            assert(rt[i] == rs[i + 1]);
        }
    }
    if result is Unchanged && unchanged(rt) {
        assert forall|i: int| 0 <= i < rs.len() implies #[trigger] rs[i] is Unchanged by {
            if i > 0 {
                assert(rs[i] == rt[i - 1]);
            }
        }
    }
    let shares = transform_shares(rs);
    assert(shares.drop_first() =~= transform_shares(rt));
    assert(shares[0] == result.reduction());
    assert(shares.len() >= 2);
    let rest = next.reduction();
    assert(folded_right(reduce_op, shares.drop_first(), rest) && reduce_op.ensures(
        (&shares[0], &rest),
        r.reduction(),
    ));
    assert(folded_right(reduce_op, shares, r.reduction()));
}

/// Transforms every entry of the list with `op` and combines the shares of
/// the reduction with `reduce_op`, the share of an entry with what came of
/// the entries after it.
pub fn transform<
    K: Key,
    V: Value,
    R,
    Re: Fn(&R, &R) -> R,
    Op: Fn(&K, &V) -> MapTransformResult<V, R>,
>(this: &Arc<LNode<K, V>>, reduce_op: &Re, op: &Op) -> (r: LNodeTransformResult<K, V, R>)
    requires
        ready(op, this@),
        combines(reduce_op),
    ensures
        exists|rs: Seq<MapTransformResult<V, R>>| #[trigger]
            transformed_list(reduce_op, op, this@, rs, r),
    decreases this,
{
    let ghost es = this@;
    let ghost tail = this.next@;
    proof {
        this.lemma_len();
        use_type_invariant(&**this);
        assert(es[0] == (this.key, this.value));
        assert(tail =~= es.drop_first());
        assert forall|i: int| 0 <= i < tail.len() implies op.requires(
            (&(#[trigger] tail[i]).0, &tail[i].1),
        ) by {
            assert(tail[i] == es[i + 1]);
        }
    }
    let ghost mut rt: Seq<MapTransformResult<V, R>>;
    let next = match &this.next {
        LNodeNext::L(lnode) => {
            let next = transform(lnode, reduce_op, op);
            proof {
                rt = choose|rs: Seq<MapTransformResult<V, R>>| #[trigger]
                    transformed_list(reduce_op, op, lnode@, rs, next);
            }
            next
        },
        LNodeNext::S(snode) => {
            assert(tail[0] == snode@);
            let next = snode::transform(snode, op);
            proof {
                rt = seq![next.answer()];
                lemma_transformed_one(snode@, next.answer());
                assert(tail =~= seq![snode@]);
                assert(transform_shares(rt) =~= seq![next.reduction()]);
            }
            next.widen()
        },
    };
    assert(transformed_list(reduce_op, op, tail, rt, next));
    proof {
        lemma_transformed(tail, rt);
    }
    let result = op(&this.key, &this.value);
    let r = transform_result(this, result, next, reduce_op);
    proof {
        lemma_transformed_cons(reduce_op, op, es, result, rt, next, r);
    }
    r
}

/// Whether `r` is what the transmutation of the list `es` gives where `op`
/// answers `rs` for its entries: the entries that the answers give, and the
/// shares of the reduction combined from the right.
pub open spec fn transmuted_list<
    K,
    V,
    S,
    X,
    R,
    Re: Fn(&R, &R) -> R,
    Op: Fn(&K, &V) -> MapTransmuteResult<S, X, R>,
>(
    reduce_op: &Re,
    op: &Op,
    es: Seq<(K, V)>,
    rs: Seq<MapTransmuteResult<S, X, R>>,
    r: LNodeTransmuteResult<S, X, R>,
) -> bool {
    &&& answers(op, es, rs)
    &&& r.entries() == transmuted(rs)
    &&& folded_right(reduce_op, transmute_shares(rs), r.reduction())
}

/// Puts together what `op` answered for the first entry of a list,
/// `result`, and what came of the entries after it, `next`.
///
/// The entry that the answer gives, if it gives one, stands in front of the
/// others: a list where that makes two or more entries, a singleton where it
/// makes one, nothing where it makes none. The share of the first entry is
/// combined with what came of the others.
pub fn transmute_result<S: Key, X: Value, R, Re: Fn(&R, &R) -> R>(
    result: MapTransmuteResult<S, X, R>,
    next: LNodeTransmuteResult<S, X, R>,
    reduce_op: &Re,
) -> (r: LNodeTransmuteResult<S, X, R>)
    requires
        combines(reduce_op),
        next.entries().len() < usize::MAX,
    ensures
        r.entries() == moved(result) + next.entries(),
        reduce_op.ensures((&result.reduction(), &next.reduction()), r.reduction()),
{
    let ghost rest = next.entries();
    proof {
        assert(Seq::<(S, X)>::empty() + rest =~= rest);
    }
    match result {
        MapTransmuteResult::Transmuted(lk, lv, lr) => {
            proof {
                assert(seq![(lk, lv)] + Seq::<(S, X)>::empty() =~= seq![(lk, lv)]);
            }
            match next {
                LNodeTransmuteResult::L(lnode, rr) => LNodeTransmuteResult::L(
                    LNode::new(lk, lv, LNodeNext::L(lnode)),
                    reduce_op(&lr, &rr),
                ),
                LNodeTransmuteResult::S(snode, rr) => LNodeTransmuteResult::L(
                    LNode::new(lk, lv, LNodeNext::S(snode)),
                    reduce_op(&lr, &rr),
                ),
                LNodeTransmuteResult::Removed(rr) => LNodeTransmuteResult::S(
                    SNode::new(lk, lv),
                    reduce_op(&lr, &rr),
                ),
            }
        },
        MapTransmuteResult::Removed(lr) => match next {
            LNodeTransmuteResult::L(lnode, rr) => LNodeTransmuteResult::L(
                lnode,
                reduce_op(&lr, &rr),
            ),
            LNodeTransmuteResult::S(snode, rr) => LNodeTransmuteResult::S(
                snode,
                reduce_op(&lr, &rr),
            ),
            LNodeTransmuteResult::Removed(rr) => LNodeTransmuteResult::Removed(
                reduce_op(&lr, &rr),
            ),
        },
    }
}

/// The entries that a single answer gives.
pub proof fn lemma_transmuted_one<S, X, R>(r: MapTransmuteResult<S, X, R>)
    ensures
        transmuted(seq![r]) == moved(r),
{
    let rs = seq![r];
    assert(rs.drop_first() =~= Seq::<MapTransmuteResult<S, X, R>>::empty());
    assert(transmuted(rs.drop_first()) =~= Seq::<(S, X)>::empty());
    assert(moved(r) + Seq::<(S, X)>::empty() =~= moved(r));
}

/// The transmutation of a list from the answer for its first entry and the
/// transmutation of the rest.
proof fn lemma_transmuted_cons<
    K,
    V,
    S,
    X,
    R,
    Re: Fn(&R, &R) -> R,
    Op: Fn(&K, &V) -> MapTransmuteResult<S, X, R>,
>(
    reduce_op: &Re,
    op: &Op,
    es: Seq<(K, V)>,
    result: MapTransmuteResult<S, X, R>,
    rt: Seq<MapTransmuteResult<S, X, R>>,
    next: LNodeTransmuteResult<S, X, R>,
    r: LNodeTransmuteResult<S, X, R>,
)
    requires
        es.len() >= 2,
        transmuted_list(reduce_op, op, es.drop_first(), rt, next),
        op.ensures((&es[0].0, &es[0].1), result),
        r.entries() == moved(result) + next.entries(),
        reduce_op.ensures((&result.reduction(), &next.reduction()), r.reduction()),
    ensures
        transmuted_list(reduce_op, op, es, seq![result] + rt, r),
{
    let tail = es.drop_first();
    let rs = seq![result] + rt;
    assert(rs.drop_first() =~= rt);
    assert(rs[0] == result);
    assert forall|i: int| 0 <= i < es.len() implies op.ensures(
        (&(#[trigger] es[i]).0, &es[i].1),
        rs[i],
    ) by {
        if i > 0 {
            assert(es[i] == tail[i - 1]);
            assert(rs[i] == rt[i - 1]);
        }
    }
    assert(answers(op, es, rs));
    let shares = transmute_shares(rs);
    assert(shares.drop_first() =~= transmute_shares(rt));
    assert(shares[0] == result.reduction());
    assert(folded_right(reduce_op, shares.drop_first(), next.reduction()));
    assert(folded_right(reduce_op, shares, r.reduction()));
}

/// Transmutes every entry of the list with `op` and combines the shares of
/// the reduction with `reduce_op`, the share of an entry with what came of
/// the entries after it.
pub fn transmute<
    K: Key,
    V: Value,
    S: Key,
    X: Value,
    R,
    Re: Fn(&R, &R) -> R,
    Op: Fn(&K, &V) -> MapTransmuteResult<S, X, R>,
>(this: &Arc<LNode<K, V>>, reduce_op: &Re, op: &Op) -> (r: LNodeTransmuteResult<S, X, R>)
    requires
        ready(op, this@),
        combines(reduce_op),
    ensures
        exists|rs: Seq<MapTransmuteResult<S, X, R>>| #[trigger]
            transmuted_list(reduce_op, op, this@, rs, r),
    decreases this,
{
    let ghost es = this@;
    let ghost tail = this.next@;
    proof {
        this.lemma_len();
        use_type_invariant(&**this);
        assert(es[0] == (this.key, this.value));
        assert(tail =~= es.drop_first());
        assert forall|i: int| 0 <= i < tail.len() implies op.requires(
            (&(#[trigger] tail[i]).0, &tail[i].1),
        ) by {
            assert(tail[i] == es[i + 1]);
        }
    }
    let ghost mut rt: Seq<MapTransmuteResult<S, X, R>>;
    let next = match &this.next {
        LNodeNext::L(lnode) => {
            let next = transmute(lnode, reduce_op, op);
            proof {
                rt = choose|rs: Seq<MapTransmuteResult<S, X, R>>| #[trigger]
                    transmuted_list(reduce_op, op, lnode@, rs, next);
            }
            next
        },
        LNodeNext::S(snode) => {
            assert(tail[0] == snode@);
            let next = snode::transmute(snode, op);
            proof {
                rt = seq![next.answer()];
                lemma_transmuted_one(next.answer());
                assert(tail =~= seq![snode@]);
                assert(transmute_shares(rt) =~= seq![next.reduction()]);
            }
            next.widen()
        },
    };
    assert(transmuted_list(reduce_op, op, tail, rt, next));
    proof {
        lemma_transmuted_len(rt);
    }
    let result = op(&this.key, &this.value);
    let r = transmute_result(result, next, reduce_op);
    proof {
        lemma_transmuted_cons(reduce_op, op, es, result, rt, next, r);
    }
    r
}

/// Transmutes every entry of the leaf with `op`, as `transmute` does for a
/// list.
pub fn transmute_leaf<
    K: Key,
    V: Value,
    S: Key,
    X: Value,
    R,
    Re: Fn(&R, &R) -> R,
    Op: Fn(&K, &V) -> MapTransmuteResult<S, X, R>,
>(this: &LNodeNext<K, V>, reduce_op: &Re, op: &Op) -> (r: LNodeTransmuteResult<S, X, R>)
    requires
        ready(op, this@),
        combines(reduce_op),
    ensures
        exists|rs: Seq<MapTransmuteResult<S, X, R>>| #[trigger]
            transmuted_list(reduce_op, op, this@, rs, r),
{
    match this {
        LNodeNext::L(lnode) => transmute(lnode, reduce_op, op),
        LNodeNext::S(snode) => {
            assert(this@[0] == snode@);
            let r = snode::transmute(snode, op);
            proof {
                let rs = seq![r.answer()];
                lemma_transmuted_one(r.answer());
                assert(transmute_shares(rs) =~= seq![r.reduction()]);
            }
            let out = r.widen();
            proof {
                let rs = seq![r.answer()];
                assert(transmuted_list(reduce_op, op, this@, rs, out));
            }
            out
        },
    }
}

/// Whether `r` is what the join of two leaves whose keys have one hash
/// gives where the operations answer `rs` for the questions about `la` and
/// `lb`: the entries that the answers give, and the shares that they carry
/// combined from the right.
pub open spec fn joined_same<
    K,
    V,
    W,
    S,
    X,
    R,
    Re: Fn(&R, &R) -> R,
    Bo: Fn(&K, &V, &K, &W) -> MapTransmuteResult<S, X, R>,
    Lo: Fn(&K, &V) -> MapTransmuteResult<S, X, R>,
    Ro: Fn(&K, &W) -> MapTransmuteResult<S, X, R>,
>(
    reduce_op: &Re,
    both_op: &Bo,
    left_op: &Lo,
    right_op: &Ro,
    la: Seq<(K, V)>,
    lb: Seq<(K, W)>,
    rs: Seq<MapTransmuteResult<S, X, R>>,
    r: LNodeTransmuteResult<S, X, R>,
) -> bool {
    &&& job_answers(both_op, left_op, right_op, jobs(la, lb), rs)
    &&& r.entries() == transmuted(rs)
    &&& folded_right(reduce_op, transmute_shares(rs), r.reduction())
}

/// Asks about one left entry: `both_op` where `found` is the entry of its
/// key on the right, `left_op` where there is none.
fn joint_entry<
    'a,
    K: Key,
    V: Value,
    W: Value,
    S: Key,
    X: Value,
    R,
    Bo: Fn(&K, &V, &K, &W) -> MapTransmuteResult<S, X, R>,
    Lo: Fn(&K, &V) -> MapTransmuteResult<S, X, R>,
>(key: &K, value: &V, found: FindResult<'a, K, W>, both_op: &Bo, left_op: &Lo) -> (r:
    MapTransmuteResult<S, X, R>)
    requires
        match found.entry() {
            Some(y) => both_op.requires((key, value, &y.0, &y.1)),
            None => left_op.requires((key, value)),
        },
    ensures
        left_answer(
            both_op,
            left_op,
            match found.entry() {
                Some(y) => Job::Both((*key, *value), y),
                None => Job::Left((*key, *value)),
            },
            r,
        ),
{
    match found {
        FindResult::Found(rk, rv) => both_op(key, value, rk, rv),
        FindResult::NotFound => left_op(key, value),
    }
}

/// Walks the list `this`, the left one of two leaves whose keys have one
/// hash, and asks about each of its entries: `both_op` where the right leaf
/// has the key, `left_op` where it has not. What the answers give is put
/// together as in `transmute`.
pub fn joint_transmute_lnode_impl<
    K: Key,
    V: Value,
    W: Value,
    S: Key,
    X: Value,
    R,
    Re: Fn(&R, &R) -> R,
    Bo: Fn(&K, &V, &K, &W) -> MapTransmuteResult<S, X, R>,
    Lo: Fn(&K, &V) -> MapTransmuteResult<S, X, R>,
>(
    this: &Arc<LNode<K, V>>,
    right: &LNodeNext<K, W>,
    reduce_op: &Re,
    both_op: &Bo,
    left_op: &Lo,
) -> (r: LNodeTransmuteResult<S, X, R>)
    requires
        lefts_ready(both_op, left_op, this@, right@),
        combines(reduce_op),
    ensures
        exists|rs: Seq<MapTransmuteResult<S, X, R>>|
            lefts_answered(both_op, left_op, this@, right@, rs, r.entries()) && #[trigger] folded_right(
                reduce_op,
                transmute_shares(rs),
                r.reduction(),
            ),
    decreases this,
{
    let ghost es = this@;
    let ghost tail = this.next@;
    proof {
        this.lemma_len();
        use_type_invariant(&**this);
        assert(es[0] == (this.key, this.value));
        assert(tail =~= es.drop_first());
        assert forall|i: int| 0 <= i < tail.len() implies match lookup(
            right@,
            (#[trigger] tail[i]).0,
        ) {
            Some(y) => both_op.requires((&tail[i].0, &tail[i].1, &y.0, &y.1)),
            None => left_op.requires((&tail[i].0, &tail[i].1)),
        } by {
            assert(tail[i] == es[i + 1]);
        }
    }
    let ghost mut rt: Seq<MapTransmuteResult<S, X, R>>;
    let next = match &this.next {
        LNodeNext::L(lnode) => {
            let next = joint_transmute_lnode_impl(lnode, right, reduce_op, both_op, left_op);
            proof {
                rt = choose|rs: Seq<MapTransmuteResult<S, X, R>>|
                    lefts_answered(both_op, left_op, lnode@, right@, rs, next.entries())
                        && #[trigger] folded_right(
                        reduce_op,
                        transmute_shares(rs),
                        next.reduction(),
                    );
            }
            next
        },
        LNodeNext::S(snode) => {
            assert(tail[0] == snode@);
            let found = right.find(snode.key());
            let answer = joint_entry(snode.key(), snode.value(), found, both_op, left_op);
            proof {
                rt = seq![answer];
                lemma_transmuted_one(answer);
                assert(tail =~= seq![snode@]);
                assert(transmute_shares(rt) =~= seq![answer.reduction()]);
            }
            LNodeTransmuteResult::single(answer)
        },
    };
    assert(lefts_answered(both_op, left_op, tail, right@, rt, next.entries()));
    assert(folded_right(reduce_op, transmute_shares(rt), next.reduction()));
    proof {
        lemma_transmuted_len(rt);
    }
    let found = right.find(&this.key);
    let result = joint_entry(&this.key, &this.value, found, both_op, left_op);
    let r = transmute_result(result, next, reduce_op);
    proof {
        let rs = seq![result] + rt;
        assert(rs.drop_first() =~= rt);
        assert(rs[0] == result);
        assert forall|i: int| 0 <= i < es.len() implies left_answer(
            both_op,
            left_op,
            job_for(#[trigger] es[i], right@),
            rs[i],
        ) by {
            if i > 0 {
                assert(es[i] == tail[i - 1]);
                assert(rs[i] == rt[i - 1]);
            }
        }
        assert(lefts_answered(both_op, left_op, es, right@, rs, r.entries()));
        let shares = transmute_shares(rs);
        assert(shares.drop_first() =~= transmute_shares(rt));
        assert(shares[0] == result.reduction());
        assert(folded_right(reduce_op, shares, r.reduction()));
    }
    r
}

/// Walks the right one of two leaves whose keys have one hash, and asks
/// `right_op` about each of its entries whose key the left leaf has not.
/// The entries that the answers give come before `tail`, what came of the
/// left leaf.
pub fn joint_rights<
    K: Key,
    V: Value,
    W: Value,
    S: Key,
    X: Value,
    R,
    Re: Fn(&R, &R) -> R,
    Ro: Fn(&K, &W) -> MapTransmuteResult<S, X, R>,
>(
    this: &LNodeNext<K, W>,
    left: &LNodeNext<K, V>,
    tail: LNodeTransmuteResult<S, X, R>,
    reduce_op: &Re,
    right_op: &Ro,
) -> (r: LNodeTransmuteResult<S, X, R>)
    requires
        rights_ready(right_op, left@, this@),
        combines(reduce_op),
        tail.entries().len() + this@.len() < usize::MAX,
    ensures
        exists|rs: Seq<MapTransmuteResult<S, X, R>>|
            rights_answered(right_op, left@, this@, rs, r.entries(), tail.entries())
                && #[trigger] folded_onto(
                reduce_op,
                transmute_shares(rs),
                tail.reduction(),
                r.reduction(),
            ),
        r.entries().len() <= tail.entries().len() + this@.len(),
    decreases this,
{
    let ghost es = this@;
    let ghost te = tail.entries();
    let ghost base = tail.reduction();
    let ghost none = Seq::<MapTransmuteResult<S, X, R>>::empty();
    let ghost nothing = Seq::<(S, X)>::empty();
    proof {
        assert(transmuted(none) =~= nothing);
        assert(nothing + te =~= te);
        assert(transmute_shares(none) =~= Seq::<R>::empty());
    }
    match this {
        LNodeNext::L(lnode) => {
            let ghost rest_entries = lnode.next@;
            proof {
                lnode.lemma_len();
                use_type_invariant(&**lnode);
                assert(es[0] == (lnode.key, lnode.value));
                assert(rest_entries =~= es.drop_first());
                assert forall|j: int|
                    0 <= j < rest_entries.len() && lookup(
                        left@,
                        (#[trigger] rest_entries[j]).0,
                    ).is_none() implies right_op.requires(
                    (&rest_entries[j].0, &rest_entries[j].1),
                ) by {
                    assert(rest_entries[j] == es[j + 1]);
                }
            }
            let rest = joint_rights(&lnode.next, left, tail, reduce_op, right_op);
            let ghost rt = choose|rs: Seq<MapTransmuteResult<S, X, R>>|
                rights_answered(right_op, left@, rest_entries, rs, rest.entries(), te)
                    && #[trigger] folded_onto(
                    reduce_op,
                    transmute_shares(rs),
                    base,
                    rest.reduction(),
                );
            match left.find(&lnode.key) {
                FindResult::NotFound => {
                    let answer = right_op(&lnode.key, &lnode.value);
                    let r = transmute_result(answer, rest, reduce_op);
                    proof {
                        let rs = seq![answer] + rt;
                        lemma_transmuted_add(seq![answer], rt);
                        lemma_transmuted_one(answer);
                        assert(rs.drop_first() =~= rt);
                        let x = moved(answer);
                        assert(x + (transmuted(rt) + te) =~= (x + transmuted(rt)) + te);
                        let js = right_jobs(left@, es);
                        let jt = right_jobs(left@, rest_entries);
                        assert forall|j: int| 0 <= j < rs.len() implies right_answer(
                            right_op,
                            #[trigger] js[j],
                            rs[j],
                        ) by {
                            if j > 0 {
                                assert(js[j] == jt[j - 1] && rs[j] == rt[j - 1]);
                            }
                        }
                        assert(rights_answered(right_op, left@, es, rs, r.entries(), te));
                        let shares = transmute_shares(rs);
                        assert(shares.drop_first() =~= transmute_shares(rt));
                        assert(shares[0] == answer.reduction());
                        assert(folded_onto(reduce_op, shares, base, r.reduction()));
                    }
                    r
                },
                FindResult::Found(_, _) => {
                    proof {
                        let js = right_jobs(left@, es);
                        let jt = right_jobs(left@, rest_entries);
                        assert(js =~= jt);
                        assert(rights_answered(right_op, left@, es, rt, rest.entries(), te));
                        assert(folded_onto(
                            reduce_op,
                            transmute_shares(rt),
                            base,
                            rest.reduction(),
                        ));
                    }
                    rest
                },
            }
        },
        LNodeNext::S(snode) => {
            proof {
                assert(es[0] == snode@);
                assert(es.drop_first() =~= Seq::<(K, W)>::empty());
                assert(right_jobs(left@, es.drop_first()) =~= Seq::<Job<K, V, W>>::empty());
            }
            match left.find(snode.key()) {
                FindResult::NotFound => {
                    let answer = right_op(snode.key(), snode.value());
                    let r = transmute_result(answer, tail, reduce_op);
                    proof {
                        let rs = seq![answer];
                        lemma_transmuted_one(answer);
                        let js = right_jobs(left@, es);
                        assert(js =~= seq![Job::<K, V, W>::Right(es[0])]);
                        assert(rights_answered(right_op, left@, es, rs, r.entries(), te));
                        let shares = transmute_shares(rs);
                        assert(shares.drop_first() =~= Seq::<R>::empty());
                        assert(folded_onto(reduce_op, shares.drop_first(), base, base));
                        assert(shares[0] == answer.reduction());
                        assert(folded_onto(reduce_op, shares, base, r.reduction()));
                    }
                    r
                },
                FindResult::Found(_, _) => {
                    proof {
                        let js = right_jobs(left@, es);
                        assert(js =~= Seq::<Job<K, V, W>>::empty());
                        assert(rights_answered(right_op, left@, es, none, te, te));
                        assert(folded_onto(reduce_op, transmute_shares(none), base, base));
                    }
                    tail
                },
            }
        },
    }
}

/// The join of two leaves whose keys have one hash: asks about every entry
/// of the left leaf, `both_op` where the right leaf has the key and
/// `left_op` where it has not, and asks `right_op` about the entries that
/// only the right leaf has. The entries that the answers give, those for
/// the right leaf first, make a list, a singleton or nothing.
pub fn joint_same<
    K: Key,
    V: Value,
    W: Value,
    S: Key,
    X: Value,
    R,
    Re: Fn(&R, &R) -> R,
    Bo: Fn(&K, &V, &K, &W) -> MapTransmuteResult<S, X, R>,
    Lo: Fn(&K, &V) -> MapTransmuteResult<S, X, R>,
    Ro: Fn(&K, &W) -> MapTransmuteResult<S, X, R>,
>(
    left: &LNodeNext<K, V>,
    right: &LNodeNext<K, W>,
    reduce_op: &Re,
    both_op: &Bo,
    left_op: &Lo,
    right_op: &Ro,
) -> (r: LNodeTransmuteResult<S, X, R>)
    requires
        lefts_ready(both_op, left_op, left@, right@),
        rights_ready(right_op, left@, right@),
        combines(reduce_op),
        left@.len() + right@.len() < usize::MAX,
    ensures
        exists|rs: Seq<MapTransmuteResult<S, X, R>>| #[trigger]
            joined_same(reduce_op, both_op, left_op, right_op, left@, right@, rs, r),
{
    let ghost mut ra: Seq<MapTransmuteResult<S, X, R>>;
    let lefts = match left {
        LNodeNext::L(lnode) => {
            let lefts = joint_transmute_lnode_impl(lnode, right, reduce_op, both_op, left_op);
            proof {
                ra = choose|rs: Seq<MapTransmuteResult<S, X, R>>|
                    lefts_answered(both_op, left_op, lnode@, right@, rs, lefts.entries())
                        && #[trigger] folded_right(
                        reduce_op,
                        transmute_shares(rs),
                        lefts.reduction(),
                    );
            }
            lefts
        },
        LNodeNext::S(snode) => {
            assert(left@[0] == snode@);
            let found = right.find(snode.key());
            let answer = joint_entry(snode.key(), snode.value(), found, both_op, left_op);
            proof {
                ra = seq![answer];
                lemma_transmuted_one(answer);
                assert(transmute_shares(ra) =~= seq![answer.reduction()]);
            }
            LNodeTransmuteResult::single(answer)
        },
    };
    assert(lefts_answered(both_op, left_op, left@, right@, ra, lefts.entries()));
    assert(folded_right(reduce_op, transmute_shares(ra), lefts.reduction()));
    proof {
        lemma_transmuted_len(ra);
    }
    let ghost mid = lefts.entries();
    let ghost base = lefts.reduction();
    let r = joint_rights(right, left, lefts, reduce_op, right_op);
    proof {
        let rb = choose|rs: Seq<MapTransmuteResult<S, X, R>>|
            rights_answered(right_op, left@, right@, rs, r.entries(), mid)
                && #[trigger] folded_onto(reduce_op, transmute_shares(rs), base, r.reduction());
        lemma_all_answered(both_op, left_op, right_op, left@, right@, ra, rb, mid, r.entries());
        lemma_folded_onto(
            reduce_op,
            transmute_shares(rb),
            transmute_shares(ra),
            base,
            r.reduction(),
        );
        assert(transmute_shares(rb + ra) =~= transmute_shares(rb) + transmute_shares(ra));
        assert(joined_same(reduce_op, both_op, left_op, right_op, left@, right@, rb + ra, r));
    }
    r
}

/// The join of the list `this` and the singleton `right`, whose keys have
/// one hash: see `joint_same`.
pub fn joint_transmute_snode_impl<
    K: Key,
    V: Value,
    W: Value,
    S: Key,
    X: Value,
    R,
    Re: Fn(&R, &R) -> R,
    Bo: Fn(&K, &V, &K, &W) -> MapTransmuteResult<S, X, R>,
    Lo: Fn(&K, &V) -> MapTransmuteResult<S, X, R>,
    Ro: Fn(&K, &W) -> MapTransmuteResult<S, X, R>,
>(
    this: &Arc<LNode<K, V>>,
    right: &Arc<SNode<K, W>>,
    reduce_op: &Re,
    both_op: &Bo,
    left_op: &Lo,
    right_op: &Ro,
) -> (r: LNodeTransmuteResult<S, X, R>)
    requires
        lefts_ready(both_op, left_op, this@, seq![right@]),
        rights_ready(right_op, this@, seq![right@]),
        combines(reduce_op),
        this@.len() + 1 < usize::MAX,
    ensures
        exists|rs: Seq<MapTransmuteResult<S, X, R>>| #[trigger]
            joined_same(reduce_op, both_op, left_op, right_op, this@, seq![right@], rs, r),
{
    let left = LNodeNext::L(share(this));
    let right = LNodeNext::S(share(right));
    joint_same(&left, &right, reduce_op, both_op, left_op, right_op)
}

/// What is known of the entries of a well-formed leaf.
pub proof fn lemma_leaf<H: Hashword, F: Slots, K, V, M: HasherBv<H, K>>(this: &LNodeNext<K, V>)
    requires
        this.mnode::<H, F, M>().wf(0),
    ensures
        this@.len() >= 1,
        distinct(this@),
        all_hash::<H, K, V, M>(this@, M::spec_hash(this@[0].0)),
{
    match this {
        LNodeNext::L(lnode) => {
            lnode.lemma_len();
        },
        LNodeNext::S(snode) => {},
    }
}

/// What came of a leaf is a well-formed leaf where its keys are distinct
/// and of one hash.
pub proof fn lemma_leaf_made<H: Hashword, F: Slots, S, X, M: HasherBv<H, S>, R>(
    r: LNodeTransmuteResult<S, X, R>,
    out: MNodeTransmuteResult<H, F, S, X, M, R>,
    h: H,
)
    requires
        distinct(r.entries()),
        all_hash::<H, S, X, M>(r.entries(), h),
        r matches LNodeTransmuteResult::L(lnode, _) ==> lnode.inv(),
        out.node() == match r {
            LNodeTransmuteResult::L(lnode, _) => Some(MNode::<H, F, S, X, M>::L(lnode)),
            LNodeTransmuteResult::S(snode, _) => Some(MNode::<H, F, S, X, M>::S(snode)),
            LNodeTransmuteResult::Removed(_) => None,
        },
    ensures
        out.node() matches Some(node) ==> node.wf(0) && node !is C && node.entries() == r.entries()
            && node.entries().len() > 0,
        out.node().is_none() ==> r.entries() == Seq::<(S, X)>::empty(),
{
    match r {
        LNodeTransmuteResult::L(lnode, _) => {
            lnode.lemma_len();
        },
        _ => {},
    }
}

/// Entries of one hash and entries of another, side by side, hold keys of
/// more than one hash.
proof fn lemma_side_by_side<H, S, X, M: HasherBv<H, S>>(
    oa: Seq<(S, X)>,
    ob: Seq<(S, X)>,
    out: Seq<(S, X)>,
    ha: H,
    hb: H,
)
    requires
        all_hash::<H, S, X, M>(oa, ha),
        all_hash::<H, S, X, M>(ob, hb),
        ha != hb,
        oa.len() > 0,
        ob.len() > 0,
        out == oa + ob || out == ob + oa,
    ensures
        mixed::<H, S, X, M>(out),
{
    let n = if out == oa + ob {
        oa.len() as int
    } else {
        ob.len() as int
    };
    assert(M::spec_hash(oa[0].0) == ha && M::spec_hash(ob[0].0) == hb);
    assert(out[0] == oa[0] && out[n] == ob[0] || out[0] == ob[0] && out[n] == oa[0]);
    assert(M::spec_hash(out[0].0) != M::spec_hash(out[n].0));
}

/// The join of two leaves whose keys have different hashes `left_hash` and
/// `right_hash`: each leaf is transmuted alone, the left one with `left_op`
/// and the right one with `right_op`, and what came of them stands side by
/// side in a branch of level `depth`, or alone where nothing came of the
/// other.
pub fn joint_apart<
    H: Hashword,
    F: Flagword,
    K: Key,
    V: Value,
    W: Value,
    S: Key,
    X: Value,
    M: HasherBv<H, K> + HasherBv<H, S>,
    R,
    Re: Fn(&R, &R) -> R,
    Bo: Fn(&K, &V, &K, &W) -> MapTransmuteResult<S, X, R>,
    Lo: Fn(&K, &V) -> MapTransmuteResult<S, X, R>,
    Ro: Fn(&K, &W) -> MapTransmuteResult<S, X, R>,
>(
    left: &LNodeNext<K, V>,
    left_hash: H,
    right: &LNodeNext<K, W>,
    right_hash: H,
    reduce_op: &Re,
    both_op: &Bo,
    left_op: &Lo,
    right_op: &Ro,
    depth: usize,
) -> (r: MNodeTransmuteResult<H, F, S, X, M, R>)
    requires
        left.mnode::<H, F, M>().wf(0),
        right.mnode::<H, F, M>().wf(0),
        left_hash == <M as HasherBv<H, K>>::spec_hash(left@[0].0),
        right_hash == <M as HasherBv<H, K>>::spec_hash(right@[0].0),
        left_hash != right_hash,
        joint_ok::<H, K, V, W, S, X, R, M, Bo, Lo, Ro>(both_op, left_op, right_op, left@, right@),
        combines(reduce_op),
        aligned::<H, F, K, V, W, M>(left@, right@, depth as nat),
        left@.len() + right@.len() < usize::MAX,
    ensures
        joined_node(left@, right@, depth as nat, both_op, left_op, right_op, r),
        r is C ==> mixed::<H, S, X, M>(r.node().unwrap().entries()),
        leaves_reduce::<H, K, V, W, S, X, M, R, Re, Bo, Lo, Ro>(
            left@,
            right@,
            reduce_op,
            both_op,
            left_op,
            right_op,
            r.reduction(),
        ),
{
    let ghost a = left@;
    let ghost b = right@;
    proof {
        lemma_leaf::<H, F, K, V, M>(left);
        lemma_leaf::<H, F, K, W, M>(right);
        lemma_bucket_all::<H, K, V, M>(a, left_hash);
        lemma_bucket_all::<H, K, W, M>(b, right_hash);
        let na = Seq::<(K, V)>::empty();
        let nb = Seq::<(K, W)>::empty();
        assert forall|i: int| 0 <= i < a.len() implies lookup(b, (#[trigger] a[i]).0) == lookup(
            nb,
            a[i].0,
        ) by {
            lemma_lookup_bucket::<H, K, W, M>(b, a[i].0);
        }
        assert forall|i: int| 0 <= i < b.len() implies lookup(a, (#[trigger] b[i]).0) == lookup(
            na,
            b[i].0,
        ) by {
            lemma_lookup_bucket::<H, K, V, M>(a, b[i].0);
        }
        lemma_joint_ok_part::<H, K, V, W, S, X, R, M, Bo, Lo, Ro>(
            both_op,
            left_op,
            right_op,
            a,
            b,
            a,
            nb,
        );
        lemma_joint_ok_part::<H, K, V, W, S, X, R, M, Bo, Lo, Ro>(
            both_op,
            left_op,
            right_op,
            a,
            b,
            na,
            b,
        );
        lemma_joint_ok_left::<H, K, V, W, S, X, R, M, Bo, Lo, Ro>(both_op, left_op, right_op, a);
        lemma_joint_ok_right::<H, K, V, W, S, X, R, M, Bo, Lo, Ro>(both_op, left_op, right_op, b);
    }
    let tl = transmute_leaf(left, reduce_op, left_op);
    let ghost ra = choose|rs: Seq<MapTransmuteResult<S, X, R>>| #[trigger]
        transmuted_list(reduce_op, left_op, a, rs, tl);
    let tr = transmute_leaf(right, reduce_op, right_op);
    let ghost rb = choose|rs: Seq<MapTransmuteResult<S, X, R>>| #[trigger]
        transmuted_list(reduce_op, right_op, b, rs, tr);
    proof {
        lemma_transmuted_keys::<H, F, K, V, S, X, R, M, Lo>(left_op, a, ra);
        lemma_transmuted_keys::<H, F, K, W, S, X, R, M, Ro>(right_op, b, rb);
        assert(all_hash::<H, S, X, M>(transmuted(ra), left_hash));
        assert(all_hash::<H, S, X, M>(transmuted(rb), right_hash));
        match &tl {
            LNodeTransmuteResult::L(l, _) => {
                use_type_invariant(&**l);
            },
            _ => {},
        }
        match &tr {
            LNodeTransmuteResult::L(l, _) => {
                use_type_invariant(&**l);
            },
            _ => {},
        }
        lemma_joined_left::<H, K, V, W, S, X, R, M, Bo, Lo, Ro>(both_op, left_op, right_op, a, ra);
        lemma_joined_right::<H, K, V, W, S, X, R, M, Bo, Lo, Ro>(both_op, left_op, right_op, b, rb);
    }
    let ghost gl = tl;
    let ghost gr = tr;
    let wl = tl.widen::<H, F, M>();
    let wr = tr.widen::<H, F, M>();
    proof {
        lemma_leaf_made::<H, F, S, X, M, R>(gl, wl, left_hash);
        lemma_leaf_made::<H, F, S, X, M, R>(gr, wr, right_hash);
    }
    let (nl, sl) = wl.split();
    let (nr, sr) = wr.split();
    let ghost both_came = nl.is_some() && nr.is_some();
    let share = reduce_op(&sl, &sr);
    proof {
        assert(answers(left_op, a, ra) && answers(right_op, b, rb));
        assert(folded_right(reduce_op, transmute_shares(ra), sl));
        assert(folded_right(reduce_op, transmute_shares(rb), sr));
        assert(leaves_reduce::<H, K, V, W, S, X, M, R, Re, Bo, Lo, Ro>(
            a,
            b,
            reduce_op,
            both_op,
            left_op,
            right_op,
            share,
        ));
    }
    let ghost oa = transmuted(ra);
    let ghost ob = transmuted(rb);
    let ghost none = Seq::<(S, X)>::empty();
    let node = match nl {
        Some(x) => match nr {
            Some(y) => {
                proof {
                    assert(agree(left_hash, right_hash, depth as nat * F::log_width()));
                    if !fits::<H, F>(depth as nat) {
                        lemma_agree_all(left_hash, right_hash, depth as nat * F::log_width());
                    }
                }
                let lf = Flag::new_at_depth(left_hash, depth).unwrap();
                let rf = Flag::new_at_depth(right_hash, depth).unwrap();
                let cnode = cnode::lift_to_cnode_and_insert(x, lf, y, rf);
                Some(MNode::C(cnode))
            },
            None => {
                proof {
                    assert(oa + none =~= oa);
                }
                Some(x)
            },
        },
        None => {
            proof {
                assert(none + ob =~= ob);
            }
            nr
        },
    };
    let r = MNodeTransmuteResult::join(node, share);
    proof {
        let out = match r.node() {
            Some(n) => n.entries(),
            None => none,
        };
        assert(out == oa + ob || out == ob + oa) by {
            assert(none + none =~= none);
        }
        lemma_joined_apart::<H, K, V, W, S, X, R, M, Bo, Lo, Ro>(
            both_op,
            left_op,
            right_op,
            a,
            b,
            oa,
            ob,
            out,
            left_hash,
            right_hash,
        );
        match r.node() {
            Some(n) => {
                n.lemma_count(depth as nat);
            },
            None => {},
        }
        if both_came {
            lemma_side_by_side::<H, S, X, M>(oa, ob, out, left_hash, right_hash);
        }
    }
    r
}

/// The join of two leaves that stand at level `depth`.
///
/// Where their keys have one hash, see `joint_same`. Where they have not,
/// see `joint_apart`.
pub fn joint_leaves<
    H: Hashword,
    F: Flagword,
    K: Key,
    V: Value,
    W: Value,
    S: Key,
    X: Value,
    M: HasherBv<H, K> + HasherBv<H, S>,
    R,
    Re: Fn(&R, &R) -> R,
    Bo: Fn(&K, &V, &K, &W) -> MapTransmuteResult<S, X, R>,
    Lo: Fn(&K, &V) -> MapTransmuteResult<S, X, R>,
    Ro: Fn(&K, &W) -> MapTransmuteResult<S, X, R>,
>(
    left: &LNodeNext<K, V>,
    right: &LNodeNext<K, W>,
    reduce_op: &Re,
    both_op: &Bo,
    left_op: &Lo,
    right_op: &Ro,
    depth: usize,
) -> (r: MNodeTransmuteResult<H, F, S, X, M, R>)
    requires
        left.mnode::<H, F, M>().wf(0),
        right.mnode::<H, F, M>().wf(0),
        joint_ok::<H, K, V, W, S, X, R, M, Bo, Lo, Ro>(both_op, left_op, right_op, left@, right@),
        combines(reduce_op),
        aligned::<H, F, K, V, W, M>(left@, right@, depth as nat),
        left@.len() + right@.len() < usize::MAX,
    ensures
        joined_node(left@, right@, depth as nat, both_op, left_op, right_op, r),
        <M as HasherBv<H, K>>::spec_hash(left@[0].0) == <M as HasherBv<H, K>>::spec_hash(
            right@[0].0,
        ) ==> r !is C,
        r is C ==> mixed::<H, S, X, M>(r.node().unwrap().entries()),
        leaves_reduce::<H, K, V, W, S, X, M, R, Re, Bo, Lo, Ro>(
            left@,
            right@,
            reduce_op,
            both_op,
            left_op,
            right_op,
            r.reduction(),
        ),
{
    let hasher = M::default();
    let left_hash = hasher.hash(left.key());
    let right_hash = hasher.hash(right.key());
    if left_hash.same(&right_hash) {
        let ghost a = left@;
        let ghost b = right@;
        proof {
            lemma_leaf::<H, F, K, V, M>(left);
            lemma_leaf::<H, F, K, W, M>(right);
            lemma_joint_ready(both_op, left_op, right_op, a, b);
        }
        let same = joint_same(left, right, reduce_op, both_op, left_op, right_op);
        let ghost rs = choose|rs: Seq<MapTransmuteResult<S, X, R>>| #[trigger]
            joined_same(reduce_op, both_op, left_op, right_op, a, b, rs, same);
        proof {
            lemma_joined_keys::<H, K, V, W, S, X, R, M, Bo, Lo, Ro>(
                both_op,
                left_op,
                right_op,
                a,
                b,
                rs,
                left_hash,
            );
            lemma_joined_same::<H, K, V, W, S, X, R, M, Bo, Lo, Ro>(
                both_op,
                left_op,
                right_op,
                a,
                b,
                rs,
                left_hash,
            );
            match &same {
                LNodeTransmuteResult::L(l, _) => {
                    use_type_invariant(&**l);
                },
                _ => {},
            }
        }
        let ghost gs = same;
        let r = same.widen::<H, F, M>();
        proof {
            lemma_leaf_made::<H, F, S, X, M, R>(gs, r, left_hash);
            assert(job_answers(both_op, left_op, right_op, jobs(a, b), rs) && folded_right(
                reduce_op,
                transmute_shares(rs),
                r.reduction(),
            ));
        }
        r
    } else {
        joint_apart(
            left,
            left_hash,
            right,
            right_hash,
            reduce_op,
            both_op,
            left_op,
            right_op,
            depth,
        )
    }
}

/// The join of the list `this` and the list `right`, two leaves that stand
/// at level `depth`.
///
/// Where the keys of the two have one hash, every entry of `this` is asked
/// about, with `both_op` where `right` has its key and with `left_op` where
/// it has not, and `right_op` is asked about the entries that only `right`
/// has; the entries that the answers give make a list, a singleton or
/// nothing. Where the hashes differ each list is transmuted alone and what
/// came of them stands side by side in a branch, or alone where nothing
/// came of the other.
pub fn joint_transmute_lnode<
    H: Hashword,
    F: Flagword,
    K: Key,
    V: Value,
    W: Value,
    S: Key,
    X: Value,
    M: HasherBv<H, K> + HasherBv<H, S>,
    R,
    Re: Fn(&R, &R) -> R,
    Bo: Fn(&K, &V, &K, &W) -> MapTransmuteResult<S, X, R>,
    Lo: Fn(&K, &V) -> MapTransmuteResult<S, X, R>,
    Ro: Fn(&K, &W) -> MapTransmuteResult<S, X, R>,
>(
    this: &Arc<LNode<K, V>>,
    right: &Arc<LNode<K, W>>,
    reduce_op: &Re,
    both_op: &Bo,
    left_op: &Lo,
    right_op: &Ro,
    depth: usize,
) -> (r: MNodeTransmuteResult<H, F, S, X, M, R>)
    requires
        MNode::<H, F, K, V, M>::L(*this).wf(0),
        MNode::<H, F, K, W, M>::L(*right).wf(0),
        joint_ok::<H, K, V, W, S, X, R, M, Bo, Lo, Ro>(both_op, left_op, right_op, this@, right@),
        combines(reduce_op),
        aligned::<H, F, K, V, W, M>(this@, right@, depth as nat),
        this@.len() + right@.len() < usize::MAX,
    ensures
        joined_node(this@, right@, depth as nat, both_op, left_op, right_op, r),
        <M as HasherBv<H, K>>::spec_hash(this@[0].0) == <M as HasherBv<H, K>>::spec_hash(
            right@[0].0,
        ) ==> r !is C,
        r is C ==> mixed::<H, S, X, M>(r.node().unwrap().entries()),
        leaves_reduce::<H, K, V, W, S, X, M, R, Re, Bo, Lo, Ro>(
            this@,
            right@,
            reduce_op,
            both_op,
            left_op,
            right_op,
            r.reduction(),
        ),
{
    let left = LNodeNext::L(share(this));
    let right = LNodeNext::L(share(right));
    joint_leaves(&left, &right, reduce_op, both_op, left_op, right_op, depth)
}

/// The join of the list `this` and the singleton `right`, two leaves that
/// stand at level `depth`: as `joint_transmute_lnode`, with the one entry of
/// `right` in place of a list.
pub fn joint_transmute_snode<
    H: Hashword,
    F: Flagword,
    K: Key,
    V: Value,
    W: Value,
    S: Key,
    X: Value,
    M: HasherBv<H, K> + HasherBv<H, S>,
    R,
    Re: Fn(&R, &R) -> R,
    Bo: Fn(&K, &V, &K, &W) -> MapTransmuteResult<S, X, R>,
    Lo: Fn(&K, &V) -> MapTransmuteResult<S, X, R>,
    Ro: Fn(&K, &W) -> MapTransmuteResult<S, X, R>,
>(
    this: &Arc<LNode<K, V>>,
    right: &Arc<SNode<K, W>>,
    reduce_op: &Re,
    both_op: &Bo,
    left_op: &Lo,
    right_op: &Ro,
    depth: usize,
) -> (r: MNodeTransmuteResult<H, F, S, X, M, R>)
    requires
        MNode::<H, F, K, V, M>::L(*this).wf(0),
        joint_ok::<H, K, V, W, S, X, R, M, Bo, Lo, Ro>(
            both_op,
            left_op,
            right_op,
            this@,
            seq![right@],
        ),
        combines(reduce_op),
        aligned::<H, F, K, V, W, M>(this@, seq![right@], depth as nat),
        this@.len() + 1 < usize::MAX,
    ensures
        joined_node(this@, seq![right@], depth as nat, both_op, left_op, right_op, r),
        <M as HasherBv<H, K>>::spec_hash(this@[0].0) == <M as HasherBv<H, K>>::spec_hash(right@.0)
            ==> r !is C,
        r is C ==> mixed::<H, S, X, M>(r.node().unwrap().entries()),
        leaves_reduce::<H, K, V, W, S, X, M, R, Re, Bo, Lo, Ro>(
            this@,
            seq![right@],
            reduce_op,
            both_op,
            left_op,
            right_op,
            r.reduction(),
        ),
{
    let left = LNodeNext::L(share(this));
    let right = LNodeNext::S(share(right));
    joint_leaves(&left, &right, reduce_op, both_op, left_op, right_op, depth)
}

/// The joint walk over the list `this` and the node `right`, which stand at
/// level `depth`.
pub fn joint_transmute<
    H: Hashword,
    F: Flagword,
    K: Key,
    V: Value,
    W: Value,
    S: Key,
    X: Value,
    M: HasherBv<H, K> + HasherBv<H, S>,
    R: Default,
    Re: Fn(&R, &R) -> R,
    Bo: Fn(&K, &V, &K, &W) -> MapTransmuteResult<S, X, R>,
    Lo: Fn(&K, &V) -> MapTransmuteResult<S, X, R>,
    Ro: Fn(&K, &W) -> MapTransmuteResult<S, X, R>,
>(
    this: &Arc<LNode<K, V>>,
    right: &MNode<H, F, K, W, M>,
    reduce_op: &Re,
    both_op: &Bo,
    left_op: &Lo,
    right_op: &Ro,
    depth: usize,
) -> (r: MNodeTransmuteResult<H, F, S, X, M, R>)
    requires
        MNode::<H, F, K, V, M>::L(*this).wf(0),
        right.wf(depth as nat),
        joint_ok::<H, K, V, W, S, X, R, M, Bo, Lo, Ro>(
            both_op,
            left_op,
            right_op,
            this@,
            right.entries(),
        ),
        combines(reduce_op),
        aligned::<H, F, K, V, W, M>(this@, right.entries(), depth as nat),
        this@.len() + right.entries().len() < usize::MAX,
    ensures
        joined_node(this@, right.entries(), depth as nat, both_op, left_op, right_op, r),
        right is C && depth == 0 ==> r is C || r is Removed,
        right !is C && <M as HasherBv<H, K>>::spec_hash(this@[0].0) == <M as HasherBv<
            H,
            K,
        >>::spec_hash(right.entries()[0].0) ==> r !is C,
        right !is C && r is C ==> mixed::<H, S, X, M>(r.node().unwrap().entries()),
        MNode::<H, F, K, V, M>::L(*this).joint_reduces(
            right,
            depth as nat,
            reduce_op,
            both_op,
            left_op,
            right_op,
            r.reduction(),
        ),
    decreases room::<H, F>(depth as nat), 2nat,
{
    match right {
        MNode::C(cnode) => {
            let me = MNode::<H, F, K, V, M>::L(share(this));
            let left = me.side(depth);
            let side = Side::Branch(cnode);
            assert(side.node() == *right);
            cnode::joint_transmute(&left, &side, reduce_op, both_op, left_op, right_op, depth)
        },
        MNode::L(lnode) => joint_transmute_lnode(
            this,
            lnode,
            reduce_op,
            both_op,
            left_op,
            right_op,
            depth,
        ),
        MNode::S(snode) => joint_transmute_snode(
            this,
            snode,
            reduce_op,
            both_op,
            left_op,
            right_op,
            depth,
        ),
    }
}

} // verus!
