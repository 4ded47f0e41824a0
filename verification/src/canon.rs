//! The shape of a well-formed node is settled by what it holds: two nodes of
//! one level with the same entries for each hash, in the same order, are the
//! same node.

use vstd::prelude::*;
use crate::entries::{
    all_hash, bucket, lemma_bucket_all, lemma_bucket_from, lemma_bucket_has, lemma_bucket_none,
    mixed,
};
use crate::flag::slot_of;
use crate::node::mnode::{lemma_alike_flat, lemma_flat_has, MNode};
use crate::traits::HasherBv;
use crate::word::{fan, lemma_rank_onto, lemma_slot_at_rank, rank, Hashword, Slots};

verus! {

/// Whether `a` and `b` hold, for every hash, the same entries in the same
/// order.
pub open spec fn same_buckets<H, K, V, M: HasherBv<H, K>>(a: Seq<(K, V)>, b: Seq<(K, V)>) -> bool {
    forall|h: H| #[trigger] bucket::<H, K, V, M>(a, h) == bucket::<H, K, V, M>(b, h)
}

/// A hash that has a key in `a` has a key in `b`.
proof fn lemma_hash_carried<H, K, V, M: HasherBv<H, K>>(a: Seq<(K, V)>, b: Seq<(K, V)>, i: int) -> (p:
    int)
    requires
        same_buckets::<H, K, V, M>(a, b),
        0 <= i < a.len(),
    ensures
        0 <= p < b.len(),
        M::spec_hash(b[p].0) == M::spec_hash(a[i].0),
{
    let h = M::spec_hash(a[i].0);
    let x = lemma_bucket_has::<H, K, V, M>(a, i);
    lemma_bucket_from::<H, K, V, M>(b, h);
    let e = bucket::<H, K, V, M>(b, h)[0];
    assert(b.contains(e));
    choose|p: int| 0 <= p < b.len() && b[p] == e
}

/// Sequences with the same entries for each hash hold keys of more than one
/// hash together.
pub proof fn lemma_mixed<H, K, V, M: HasherBv<H, K>>(a: Seq<(K, V)>, b: Seq<(K, V)>)
    requires
        same_buckets::<H, K, V, M>(a, b),
    ensures
        mixed::<H, K, V, M>(a) ==> mixed::<H, K, V, M>(b),
        a.len() > 0 ==> b.len() > 0,
{
    if mixed::<H, K, V, M>(a) {
        let (i, j) = choose|i: int, j: int|
            0 <= i < a.len() && 0 <= j < a.len() && M::spec_hash(#[trigger] a[i].0)
                != M::spec_hash(#[trigger] a[j].0);
        let p = lemma_hash_carried::<H, K, V, M>(a, b, i);
        let q = lemma_hash_carried::<H, K, V, M>(a, b, j);
        assert(M::spec_hash(b[p].0) != M::spec_hash(b[q].0));
    }
    if a.len() > 0 {
        let p = lemma_hash_carried::<H, K, V, M>(a, b, 0);
    }
}

impl<H: Hashword, F: Slots, K, V, M: HasherBv<H, K>> MNode<H, F, K, V, M> {
    /// A leaf holds keys of one hash. A branch below the root holds keys of
    /// more than one: where it held keys of one hash only, a leaf would
    /// stand in its place.
    pub proof fn lemma_kind(&self, depth: nat)
        requires
            self.wf(depth),
        ensures
            self !is C ==> !mixed::<H, K, V, M>(self.entries()),
            self is C && depth > 0 ==> mixed::<H, K, V, M>(self.entries()),
        decreases self,
    {
        let es = self.entries();
        match self {
            MNode::C(cnode) => {
                if depth > 0 {
                    let first = cnode.nodes@[0];
                    let i0 = lemma_rank_onto(cnode.bitmap, 0, fan::<F>());
                    if cnode.nodes@.len() == 1 {
                        first.lemma_kind(depth + 1);
                        let ce = first.entries();
                        let (i, j) = choose|i: int, j: int|
                            0 <= i < ce.len() && 0 <= j < ce.len() && M::spec_hash(
                                #[trigger] ce[i].0,
                            ) != M::spec_hash(#[trigger] ce[j].0);
                        lemma_flat_has(cnode.nodes@, 1, 0, i);
                        lemma_flat_has(cnode.nodes@, 1, 0, j);
                        let p = choose|p: int| 0 <= p < es.len() && es[p] == ce[i];
                        let q = choose|q: int| 0 <= q < es.len() && es[q] == ce[j];
                        assert(M::spec_hash(es[p].0) != M::spec_hash(es[q].0));
                    } else {
                        let second = cnode.nodes@[1];
                        let i1 = lemma_rank_onto(cnode.bitmap, 1, fan::<F>());
                        let n = cnode.nodes@.len();
                        lemma_flat_has(cnode.nodes@, n, 0, 0);
                        lemma_flat_has(cnode.nodes@, n, 1, 0);
                        let a = first.entries()[0];
                        let b = second.entries()[0];
                        let p = choose|p: int| 0 <= p < es.len() && es[p] == a;
                        let q = choose|q: int| 0 <= q < es.len() && es[q] == b;
                        assert(cnode.bitmap.has(i0) && cnode.bitmap.has(i1));
                        assert(slot_of::<H, F>(M::spec_hash(a.0), depth) == i0);
                        assert(slot_of::<H, F>(M::spec_hash(b.0), depth) == i1);
                        assert(M::spec_hash(es[p].0) != M::spec_hash(es[q].0));
                    }
                }
            },
            MNode::L(lnode) => {},
            MNode::S(snode) => {},
        }
    }

    /// Two well-formed nodes of one level that hold the same entries for
    /// each hash, in the same order, are the same node. At the root, where
    /// a branch may stand in for a leaf, they must be of one kind.
    pub proof fn lemma_canonical(&self, other: &Self, depth: nat)
        requires
            self.wf(depth),
            other.wf(depth),
            same_buckets::<H, K, V, M>(self.entries(), other.entries()),
            depth > 0 || (self is C <==> other is C),
        ensures
            self.alike(other),
        decreases self,
    {
        let ea = self.entries();
        let eb = other.entries();
        self.lemma_kind(depth);
        other.lemma_kind(depth);
        lemma_mixed::<H, K, V, M>(ea, eb);
        lemma_mixed::<H, K, V, M>(eb, ea);
        self.lemma_count(depth);
        other.lemma_count(depth);
        match (self, other) {
            (MNode::C(a), MNode::C(b)) => {
                assert forall|i: nat| a.bitmap.has(i) == b.bitmap.has(i) by {
                    if a.bitmap.has(i) {
                        Self::lemma_slot_carried(self, other, depth, i);
                    }
                    if b.bitmap.has(i) {
                        Self::lemma_slot_carried(other, self, depth, i);
                    }
                }
                F::lemma_same_slots(a.bitmap, b.bitmap);
                assert forall|j: int| 0 <= j < a.nodes@.len() implies (#[trigger] a.nodes@[j]).alike(
                    &b.nodes@[j],
                ) by {
                    let i = lemma_rank_onto(a.bitmap, j as nat, fan::<F>());
                    let ca = a.nodes@[j];
                    let cb = b.nodes@[j];
                    assert forall|h: H| #[trigger]
                        bucket::<H, K, V, M>(ca.entries(), h) == bucket::<H, K, V, M>(
                            cb.entries(),
                            h,
                        ) by {
                        a.lemma_bucket(depth, h);
                        b.lemma_bucket(depth, h);
                        if slot_of::<H, F>(h, depth) != i {
                            lemma_bucket_none::<H, K, V, M>(ca.entries(), h);
                            lemma_bucket_none::<H, K, V, M>(cb.entries(), h);
                        }
                    }
                    ca.lemma_canonical(&cb, depth + 1);
                }
                lemma_alike_flat(a.nodes@, b.nodes@, a.nodes@.len());
            },
            (MNode::L(a), MNode::L(b)) => {
                Self::lemma_leaf(ea, eb);
                a.lemma_same(&**b);
            },
            (MNode::S(a), MNode::S(b)) => {
                Self::lemma_leaf(ea, eb);
                assert(ea[0] == eb[0]);
                a.lemma_same(&**b);
            },
            (MNode::L(a), MNode::S(b)) => {
                Self::lemma_leaf(ea, eb);
            },
            (MNode::S(a), MNode::L(b)) => {
                Self::lemma_leaf(ea, eb);
            },
            _ => {},
        }
    }

    /// A slot that has a child in `a` has a child in `b`, where the two hold
    /// the same entries for each hash.
    proof fn lemma_slot_carried(a: &Self, b: &Self, depth: nat, i: nat)
        requires
            a.wf(depth),
            b.wf(depth),
            a matches MNode::C(ca) && ca.bitmap.has(i),
            b is C,
            same_buckets::<H, K, V, M>(a.entries(), b.entries()),
        ensures
            b matches MNode::C(cb) && cb.bitmap.has(i),
    {
        match (a, b) {
            (MNode::C(ca), MNode::C(cb)) => {
                lemma_slot_at_rank(ca.bitmap, i);
                let j = rank(ca.bitmap, i) as int;
                let e = ca.nodes@[j].entries()[0];
                lemma_flat_has(ca.nodes@, ca.nodes@.len(), j, 0);
                let p = choose|p: int| 0 <= p < a.entries().len() && a.entries()[p] == e;
                let h = M::spec_hash(e.0);
                let x = lemma_bucket_has::<H, K, V, M>(a.entries(), p);
                cb.lemma_bucket(depth, h);
                assert(slot_of::<H, F>(h, depth) == i);
            },
            _ => {},
        }
    }

    /// Two runs of entries, each of one hash, that hold the same entries for
    /// each hash are the same run.
    proof fn lemma_leaf(ea: Seq<(K, V)>, eb: Seq<(K, V)>)
        requires
            ea.len() > 0,
            eb.len() > 0,
            all_hash::<H, K, V, M>(ea, M::spec_hash(ea[0].0)),
            all_hash::<H, K, V, M>(eb, M::spec_hash(eb[0].0)),
            same_buckets::<H, K, V, M>(ea, eb),
        ensures
            ea == eb,
    {
        let h = M::spec_hash(ea[0].0);
        lemma_bucket_all::<H, K, V, M>(ea, h);
        lemma_bucket_all::<H, K, V, M>(eb, M::spec_hash(eb[0].0));
        assert(bucket::<H, K, V, M>(eb, h) == ea);
    }
}

} // verus!
