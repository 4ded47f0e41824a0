//! The sum of the three kinds of node.

use vstd::prelude::*;
use std::sync::Arc;
use crate::entries::{
    all_hash, bucket, distinct, lemma_bucket_add, lemma_bucket_all, lemma_bucket_from,
    lemma_single, lookup, mixed, put, ready, took, visited, within,
};
use vstd::pervasive::unreached;
use crate::flag::{fits, room, slot_of, Flag};
use crate::joint::{aligned, job_answers, jobs, joined, joint_ok};
use crate::node::cnode::{self, CNode, Side};
use crate::node::lnode::{self, LNode, LNodeNext};
use crate::node::snode::{self, SNode};
use crate::ops::{
    answers, combines, folded_right, keeps_apart, keeps_hash, lemma_transformed,
    lemma_transmuted_keys, transform_shares, transformed, transmute_shares, transmuted,
    unchanged,
};
use crate::result::{
    FindResult, InsertResult, LNodeTransformResult, LNodeTransmuteResult, MNodeTransformResult,
    MNodeTransmuteResult, MapTransformResult, MapTransmuteResult, RemoveResult,
    SNodeRemoveResult, SNodeTransformResult, SNodeTransmuteResult,
};
use crate::share::share;
use crate::traits::{HasherBv, Key, Value};
use crate::word::{fan, lemma_slot_at_rank, rank, Flagword, Hashword, Slots};

verus! {

/// A node of the trie.
#[derive(Debug)]
pub enum MNode<H, F, K, V, M> {
    C(Arc<CNode<H, F, K, V, M>>),
    L(Arc<LNode<K, V>>),
    S(Arc<SNode<K, V>>),
}

/// The entries of the first `n` nodes of `nodes`, node after node.
pub open spec fn flat<H: Hashword, F: Slots, K, V, M: HasherBv<H, K>>(
    nodes: Seq<MNode<H, F, K, V, M>>,
    n: nat,
) -> Seq<(K, V)>
    decreases nodes, n,
{
    if n == 0 || n > nodes.len() {
        Seq::empty()
    } else {
        flat(nodes, (n - 1) as nat) + nodes[n - 1].entries()
    }
}

impl<H: Hashword, F: Slots, K, V, M: HasherBv<H, K>> MNode<H, F, K, V, M> {
    /// The entries below the node, in the order in which a traversal meets
    /// them.
    pub open spec fn entries(&self) -> Seq<(K, V)>
        decreases self,
    {
        match self {
            MNode::C(cnode) => flat(cnode.nodes@, cnode.nodes@.len()),
            MNode::L(lnode) => lnode@,
            MNode::S(snode) => seq![snode@],
        }
    }

    /// Whether the node is a well-formed subtree for level `depth`:
    /// a list holds distinct keys of one hash, and a branch is as
    /// `CNode::wf` says.
    pub open spec fn wf(&self, depth: nat) -> bool
        decreases self,
    {
        match self {
            MNode::C(cnode) => cnode.wf(depth),
            MNode::L(lnode) => {
                &&& lnode.inv()
                &&& distinct(lnode@)
                &&& all_hash::<H, K, V, M>(lnode@, M::spec_hash(lnode@[0].0))
            },
            MNode::S(_) => true,
        }
    }
}

impl<H: Hashword, F: Slots, K, V, M: HasherBv<H, K>> MNode<H, F, K, V, M> {
    /// The number of entries that the node says it holds.
    pub open spec fn count(&self) -> nat {
        match self {
            MNode::C(cnode) => cnode.size as nat,
            MNode::L(lnode) => lnode@.len(),
            MNode::S(_) => 1,
        }
    }

    /// Whether the two nodes are the same: the same kind of node, with the
    /// same flag word, the same children in the same order, the same
    /// entries in the same order.
    pub open spec fn alike(&self, other: &Self) -> bool
        decreases self,
    {
        match (self, other) {
            (MNode::C(a), MNode::C(b)) => {
                &&& a.bitmap == b.bitmap
                &&& a.size == b.size
                &&& a.nodes@.len() == b.nodes@.len()
                &&& forall|j: int|
                    0 <= j < a.nodes@.len() ==> (#[trigger] a.nodes@[j]).alike(&b.nodes@[j])
            },
            (MNode::L(a), MNode::L(b)) => a == b,
            (MNode::S(a), MNode::S(b)) => a == b,
            _ => false,
        }
    }

    /// Whether `out` may come of combining the shares `shares`, one for
    /// each entry below the node, along the shape of the node: the share of
    /// a singleton is what comes of it, the shares of a list are combined
    /// from the right, and a branch combines what comes of its children,
    /// child after child, starting from the default share.
    pub open spec fn reduces<R: Default, Re: Fn(&R, &R) -> R>(
        &self,
        reduce: &Re,
        shares: Seq<R>,
        out: R,
    ) -> bool
        decreases self,
    {
        match self {
            MNode::C(cnode) => reduces_all(cnode.nodes@, cnode.nodes@.len(), reduce, shares, out),
            MNode::L(lnode) => shares.len() == lnode@.len() && folded_right(reduce, shares, out),
            MNode::S(_) => shares == seq![out],
        }
    }

    /// Whether `out` may come of the shares in the joint walk over this
    /// node and `right`, two nodes of level `depth`: see `leaves_reduce` for
    /// two leaves and `slots_reduce` where one of the two is a branch.
    pub open spec fn joint_reduces<
        W,
        S,
        X,
        R: Default,
        Re: Fn(&R, &R) -> R,
        Bo: Fn(&K, &V, &K, &W) -> MapTransmuteResult<S, X, R>,
        Lo: Fn(&K, &V) -> MapTransmuteResult<S, X, R>,
        Ro: Fn(&K, &W) -> MapTransmuteResult<S, X, R>,
    >(
        &self,
        right: &MNode<H, F, K, W, M>,
        depth: nat,
        reduce_op: &Re,
        both_op: &Bo,
        left_op: &Lo,
        right_op: &Ro,
        out: R,
    ) -> bool
        decreases *self, *right, fan::<F>() + 1,
    {
        if *self !is C && *right !is C {
            leaves_reduce::<H, K, V, W, S, X, M, R, Re, Bo, Lo, Ro>(
                self.entries(),
                right.entries(),
                reduce_op,
                both_op,
                left_op,
                right_op,
                out,
            )
        } else {
            slots_reduce(
                *self,
                *right,
                depth,
                fan::<F>(),
                reduce_op,
                both_op,
                left_op,
                right_op,
                out,
            )
        }
    }

    /// A well-formed node holds as many entries as it says, and at least one
    /// unless it is the root.
    pub proof fn lemma_count(&self, depth: nat)
        requires
            self.wf(depth),
        ensures
            self.count() == self.entries().len(),
            self !is C ==> self.entries().len() >= 1,
            self is L ==> self.entries().len() >= 2,
    {
        match self {
            MNode::L(lnode) => {
                lnode.lemma_len();
            },
            _ => {},
        }
    }

    /// Among the entries of one hash no key occurs twice.
    pub proof fn lemma_bucket_distinct(&self, depth: nat, h: H)
        requires
            self.wf(depth),
        ensures
            distinct(bucket::<H, K, V, M>(self.entries(), h)),
        decreases self,
    {
        match self {
            MNode::C(cnode) => {
                cnode.lemma_bucket(depth, h);
                let i = slot_of::<H, F>(h, depth);
                if cnode.bitmap.has(i) {
                    lemma_slot_at_rank(cnode.bitmap, i);
                    cnode.nodes@[rank(cnode.bitmap, i) as int].lemma_bucket_distinct(depth + 1, h);
                }
            },
            MNode::L(lnode) => {
                lemma_bucket_all::<H, K, V, M>(lnode@, M::spec_hash(lnode@[0].0));
            },
            MNode::S(snode) => {
                lemma_bucket_from::<H, K, V, M>(seq![snode@], h);
            },
        }
    }

    /// A node is the same as itself.
    pub proof fn lemma_alike_self(&self)
        ensures
            self.alike(self),
        decreases self,
    {
        match self {
            MNode::C(a) => {
                assert forall|j: int| 0 <= j < a.nodes@.len() implies (#[trigger] a.nodes@[j]).alike(
                    &a.nodes@[j],
                ) by {
                    a.nodes@[j].lemma_alike_self();
                }
            },
            _ => {},
        }
    }

    /// Nodes that are the same hold the same entries in the same order.
    pub proof fn lemma_alike_entries(&self, other: &Self)
        requires
            self.alike(other),
        ensures
            self.entries() == other.entries(),
        decreases self,
    {
        match (self, other) {
            (MNode::C(a), MNode::C(b)) => {
                lemma_alike_flat(a.nodes@, b.nodes@, a.nodes@.len());
            },
            _ => {},
        }
    }
}

/// Whether `found`, `prev` and `node` are what an insertion of `(key, value)`
/// into `old`, a node of level `depth`, gives.
///
/// Where the key is there and may not be replaced, the insertion is refused
/// and `found` is its entry. Otherwise `node` is a well-formed node whose
/// entries are those of `old` after `(key, value)` was put in, and `prev` is
/// the entry that was replaced. The new node is a branch if the old one was;
/// in place of a leaf it is a branch if the hash of the key is not the hash
/// of the leaf's keys.
pub open spec fn inserted<H: Hashword, F: Slots, K, V, M: HasherBv<H, K>>(
    old: MNode<H, F, K, V, M>,
    depth: nat,
    key: K,
    value: V,
    replace: bool,
    found: Option<(K, V)>,
    prev: Option<(K, V)>,
    node: Option<MNode<H, F, K, V, M>>,
) -> bool {
    let was = lookup(old.entries(), key);
    if was.is_some() && !replace {
        found == was && prev.is_none() && node.is_none()
    } else {
        &&& found.is_none()
        &&& prev == was
        &&& node.is_some()
        &&& node.unwrap().wf(depth)
        &&& put::<H, K, V, M>(old.entries(), node.unwrap().entries(), key, value)
        &&& node.unwrap().entries().len() == old.entries().len() + if was.is_some() {
            0nat
        } else {
            1nat
        }
        &&& old is C ==> node.unwrap() is C
        &&& old !is C ==> (node.unwrap() is C <==> M::spec_hash(old.entries()[0].0)
            != M::spec_hash(key))
    }
}

/// Whether `entry` and `node` are what the removal of `key` from `old`, a
/// node of level `depth`, gives.
///
/// `entry` is the entry of the key, if it has one. Where it has one, either
/// it was the last entry and no node is left, or `node` is a well-formed node
/// whose entries are those of `old` without that entry. What is left of a
/// branch at the root is a branch, and what is left of a leaf is a leaf.
pub open spec fn removed<H: Hashword, F: Slots, K, V, M: HasherBv<H, K>>(
    old: MNode<H, F, K, V, M>,
    depth: nat,
    key: K,
    entry: Option<(K, V)>,
    node: Option<MNode<H, F, K, V, M>>,
) -> bool {
    &&& entry == lookup(old.entries(), key)
    &&& entry.is_none() ==> node.is_none()
    &&& old is C && depth == 0 && node.is_some() ==> node.unwrap() is C
    &&& old !is C && node.is_some() ==> node.unwrap() !is C
    &&& entry.is_some() ==> match node {
        None => old.entries().len() == 1,
        Some(n) => {
            &&& n.wf(depth)
            &&& took::<H, K, V, M>(old.entries(), n.entries(), key)
            &&& n.entries().len() + 1 == old.entries().len()
        },
    }
}

/// Whether `out` may come of combining the shares `shares`, one for each
/// entry of the first `n` nodes, node after node: what came of the nodes
/// before with what comes of the next, starting from the default share.
pub open spec fn reduces_all<
    H: Hashword,
    F: Slots,
    K,
    V,
    M: HasherBv<H, K>,
    R: Default,
    Re: Fn(&R, &R) -> R,
>(nodes: Seq<MNode<H, F, K, V, M>>, n: nat, reduce: &Re, shares: Seq<R>, out: R) -> bool
    decreases nodes, n,
{
    if n == 0 || n > nodes.len() {
        shares.len() == 0 && R::default.ensures((), out)
    } else {
        let k = nodes[n - 1].entries().len();
        &&& k <= shares.len()
        &&& exists|before: R, last: R|
            {
                &&& reduces_all(
                    nodes,
                    (n - 1) as nat,
                    reduce,
                    shares.subrange(0, shares.len() - k),
                    before,
                )
                &&& nodes[n - 1].reduces(
                    reduce,
                    shares.subrange(shares.len() - k, shares.len() as int),
                    last,
                )
                &&& #[trigger] reduce.ensures((&before, &last), out)
            }
    }
}

/// Whether `r` is what the transformation of `old`, a node of level `depth`,
/// gives where `op` answers `rs` for its entries.
///
/// The node is unchanged where every answer is `Unchanged`. What is left is
/// a well-formed node with what is left of the entries, or nothing where no
/// entry is left. What is left of a branch at the root is a branch, and what
/// is left of a leaf is a leaf. The shares of the reduction are combined
/// along the shape of `old`.
pub open spec fn transformed_node<
    H: Hashword,
    F: Slots,
    K,
    V,
    M: HasherBv<H, K>,
    R: Default,
    Re: Fn(&R, &R) -> R,
    Op: Fn(&K, &V) -> MapTransformResult<V, R>,
>(
    old: MNode<H, F, K, V, M>,
    depth: nat,
    reduce_op: &Re,
    op: &Op,
    rs: Seq<MapTransformResult<V, R>>,
    r: MNodeTransformResult<H, F, K, V, M, R>,
) -> bool {
    &&& answers(op, old.entries(), rs)
    &&& r is Unchanged <==> unchanged(rs)
    &&& match r.node(old) {
        Some(node) => {
            &&& node.wf(depth)
            &&& node.entries() == transformed(old.entries(), rs)
            &&& depth > 0 ==> node.entries().len() > 0
            &&& old is C && depth == 0 ==> node is C
            &&& old !is C ==> node !is C
        },
        None => transformed(old.entries(), rs).len() == 0,
    }
    &&& old.reduces(reduce_op, transform_shares(rs), r.reduction())
}

/// Whether `r` is what the transmutation of `old`, a node of level `depth`,
/// gives where `op` answers `rs` for its entries.
///
/// What comes of it is a well-formed node with the entries that the answers
/// give, in their order, or nothing where they give none. What comes of a
/// branch at the root is a branch, and what comes of a leaf is a leaf. The
/// shares of the reduction are combined along the shape of `old`.
pub open spec fn transmuted_node<
    H: Hashword,
    F: Slots,
    K,
    V,
    S,
    X,
    M: HasherBv<H, K> + HasherBv<H, S>,
    R: Default,
    Re: Fn(&R, &R) -> R,
    Op: Fn(&K, &V) -> MapTransmuteResult<S, X, R>,
>(
    old: MNode<H, F, K, V, M>,
    depth: nat,
    reduce_op: &Re,
    op: &Op,
    rs: Seq<MapTransmuteResult<S, X, R>>,
    r: MNodeTransmuteResult<H, F, S, X, M, R>,
) -> bool {
    &&& answers(op, old.entries(), rs)
    &&& match r.node() {
        Some(node) => {
            &&& node.wf(depth)
            &&& node.entries() == transmuted(rs)
            &&& node.entries().len() > 0
            &&& old is C && depth == 0 ==> node is C
            &&& old !is C ==> node !is C
        },
        None => transmuted(rs).len() == 0,
    }
    &&& old.reduces(reduce_op, transmute_shares(rs), r.reduction())
}

/// Whether `r` is what the joint walk over the entries `left` and `right`,
/// which stand below two nodes of level `depth`, gives: a well-formed node
/// of that level whose entries are the join of `left` and `right`, or
/// nothing where the join is empty.
pub open spec fn joined_node<
    H: Hashword,
    F: Slots,
    K,
    V,
    W,
    S,
    X,
    M: HasherBv<H, K> + HasherBv<H, S>,
    R,
    Bo: Fn(&K, &V, &K, &W) -> MapTransmuteResult<S, X, R>,
    Lo: Fn(&K, &V) -> MapTransmuteResult<S, X, R>,
    Ro: Fn(&K, &W) -> MapTransmuteResult<S, X, R>,
>(
    left: Seq<(K, V)>,
    right: Seq<(K, W)>,
    depth: nat,
    both_op: &Bo,
    left_op: &Lo,
    right_op: &Ro,
    r: MNodeTransmuteResult<H, F, S, X, M, R>,
) -> bool {
    match r.node() {
        Some(node) => {
            &&& node.wf(depth)
            &&& node.entries().len() > 0
            &&& node.entries().len() <= left.len() + right.len()
            &&& joined::<H, K, V, W, S, X, R, M, Bo, Lo, Ro>(
                both_op,
                left_op,
                right_op,
                left,
                right,
                node.entries(),
            )
        },
        None => joined::<H, K, V, W, S, X, R, M, Bo, Lo, Ro>(
            both_op,
            left_op,
            right_op,
            left,
            right,
            Seq::empty(),
        ),
    }
}

/// The child of slot `i` of `node`, a node of level `depth`, as the joint
/// walk sees it: the child of a branch, and a leaf as the child of the slot
/// that its keys select.
pub open spec fn child_at<H: Hashword, F: Slots, K, V, M: HasherBv<H, K>>(
    node: MNode<H, F, K, V, M>,
    depth: nat,
    i: nat,
) -> Option<MNode<H, F, K, V, M>> {
    match node {
        MNode::C(cnode) => if cnode.bitmap.has(i) && rank(cnode.bitmap, i) < cnode.nodes@.len() {
            Some(cnode.nodes@[rank(cnode.bitmap, i) as int])
        } else {
            None
        },
        _ => if slot_of::<H, F>(M::spec_hash(node.entries()[0].0), depth) == i {
            Some(node)
        } else {
            None
        },
    }
}

/// Whether `out` may come of the shares in the join of two leaves with the
/// entries `la` and `lb`.
///
/// Where the keys of the two have one hash, the shares of the answers to
/// the questions about them are combined from the right. Where they have
/// not, the shares of each leaf are combined from the right, and what comes
/// of the left leaf is combined with what comes of the right one.
pub open spec fn leaves_reduce<
    H,
    K,
    V,
    W,
    S,
    X,
    M: HasherBv<H, K>,
    R,
    Re: Fn(&R, &R) -> R,
    Bo: Fn(&K, &V, &K, &W) -> MapTransmuteResult<S, X, R>,
    Lo: Fn(&K, &V) -> MapTransmuteResult<S, X, R>,
    Ro: Fn(&K, &W) -> MapTransmuteResult<S, X, R>,
>(
    la: Seq<(K, V)>,
    lb: Seq<(K, W)>,
    reduce_op: &Re,
    both_op: &Bo,
    left_op: &Lo,
    right_op: &Ro,
    out: R,
) -> bool {
    if M::spec_hash(la[0].0) == M::spec_hash(lb[0].0) {
        exists|rs: Seq<MapTransmuteResult<S, X, R>>|
            job_answers(both_op, left_op, right_op, jobs(la, lb), rs) && #[trigger] folded_right(
                reduce_op,
                transmute_shares(rs),
                out,
            )
    } else {
        exists|
            ra: Seq<MapTransmuteResult<S, X, R>>,
            rb: Seq<MapTransmuteResult<S, X, R>>,
            sa: R,
            sb: R,
        |
            #![trigger folded_right(reduce_op, transmute_shares(ra), sa), folded_right(reduce_op, transmute_shares(rb), sb)]
            {
                &&& answers(left_op, la, ra)
                &&& folded_right(reduce_op, transmute_shares(ra), sa)
                &&& answers(right_op, lb, rb)
                &&& folded_right(reduce_op, transmute_shares(rb), sb)
                &&& reduce_op.ensures((&sa, &sb), out)
            }
    }
}

/// Whether `out` may come of the shares in the joint walk over the slots
/// below `i` of `left` and `right`, two nodes of level `depth` of which one
/// is a branch.
///
/// The walk starts from the default share. For each slot that has a child
/// on one side or on both, what came of the slots before is combined with
/// what comes of that slot: of the transmutation of the one child, or of the
/// joint walk over the two.
pub open spec fn slots_reduce<
    H: Hashword,
    F: Slots,
    K,
    V,
    W,
    S,
    X,
    M: HasherBv<H, K>,
    R: Default,
    Re: Fn(&R, &R) -> R,
    Bo: Fn(&K, &V, &K, &W) -> MapTransmuteResult<S, X, R>,
    Lo: Fn(&K, &V) -> MapTransmuteResult<S, X, R>,
    Ro: Fn(&K, &W) -> MapTransmuteResult<S, X, R>,
>(
    left: MNode<H, F, K, V, M>,
    right: MNode<H, F, K, W, M>,
    depth: nat,
    i: nat,
    reduce_op: &Re,
    both_op: &Bo,
    left_op: &Lo,
    right_op: &Ro,
    out: R,
) -> bool
    decreases left, right, i,
{
    if left !is C && right !is C {
        false
    } else if i == 0 || i > fan::<F>() {
        R::default.ensures((), out)
    } else {
        let slot = (i - 1) as nat;
        match child_at(left, depth, slot) {
            Some(x) => match child_at(right, depth, slot) {
                Some(y) => exists|before: R, share: R|
                    {
                        &&& slots_reduce(
                            left,
                            right,
                            depth,
                            slot,
                            reduce_op,
                            both_op,
                            left_op,
                            right_op,
                            before,
                        )
                        &&& x.joint_reduces(
                            &y,
                            depth + 1,
                            reduce_op,
                            both_op,
                            left_op,
                            right_op,
                            share,
                        )
                        &&& #[trigger] reduce_op.ensures((&before, &share), out)
                    },
                None => exists|before: R, share: R, rs: Seq<MapTransmuteResult<S, X, R>>|
                    #![trigger reduce_op.ensures((&before, &share), out), answers(left_op, x.entries(), rs)]
                    {
                        &&& slots_reduce(
                            left,
                            right,
                            depth,
                            slot,
                            reduce_op,
                            both_op,
                            left_op,
                            right_op,
                            before,
                        )
                        &&& answers(left_op, x.entries(), rs)
                        &&& x.reduces(reduce_op, transmute_shares(rs), share)
                        &&& reduce_op.ensures((&before, &share), out)
                    },
            },
            None => match child_at(right, depth, slot) {
                Some(y) => exists|before: R, share: R, rs: Seq<MapTransmuteResult<S, X, R>>|
                    #![trigger reduce_op.ensures((&before, &share), out), answers(right_op, y.entries(), rs)]
                    {
                        &&& slots_reduce(
                            left,
                            right,
                            depth,
                            slot,
                            reduce_op,
                            both_op,
                            left_op,
                            right_op,
                            before,
                        )
                        &&& answers(right_op, y.entries(), rs)
                        &&& y.reduces(reduce_op, transmute_shares(rs), share)
                        &&& reduce_op.ensures((&before, &share), out)
                    },
                None => slots_reduce(
                    left,
                    right,
                    depth,
                    slot,
                    reduce_op,
                    both_op,
                    left_op,
                    right_op,
                    out,
                ),
            },
        }
    }
}

/// `flat` looks at the first `n` nodes only.
pub proof fn lemma_flat_ext<H: Hashword, F: Slots, K, V, M: HasherBv<H, K>>(
    a: Seq<MNode<H, F, K, V, M>>,
    b: Seq<MNode<H, F, K, V, M>>,
    n: nat,
)
    requires
        n <= a.len(),
        n <= b.len(),
        forall|j: int| 0 <= j < n ==> a[j] == b[j],
    ensures
        flat(a, n) == flat(b, n),
    decreases n,
{
    if n > 0 {
        lemma_flat_ext(a, b, (n - 1) as nat);
    }
}

/// `flat` of one node more.
pub proof fn lemma_flat_push<H: Hashword, F: Slots, K, V, M: HasherBv<H, K>>(
    a: Seq<MNode<H, F, K, V, M>>,
    x: MNode<H, F, K, V, M>,
)
    ensures
        flat(a.push(x), a.len() + 1) == flat(a, a.len()) + x.entries(),
{
    lemma_flat_ext(a, a.push(x), a.len());
}

/// `flat` of one node, and of two.
pub proof fn lemma_flat_small<H: Hashword, F: Slots, K, V, M: HasherBv<H, K>>(
    x: MNode<H, F, K, V, M>,
    y: MNode<H, F, K, V, M>,
)
    ensures
        flat(seq![x], 1) == x.entries(),
        flat(seq![x, y], 2) == x.entries() + y.entries(),
{
    let e = Seq::<MNode<H, F, K, V, M>>::empty();
    lemma_flat_push(e, x);
    assert(e.push(x) =~= seq![x]);
    assert(flat(e, 0) + x.entries() =~= x.entries());
    lemma_flat_push(seq![x], y);
    assert(seq![x].push(y) =~= seq![x, y]);
}

/// `flat` grows with the number of nodes.
pub proof fn lemma_flat_mono<H: Hashword, F: Slots, K, V, M: HasherBv<H, K>>(
    nodes: Seq<MNode<H, F, K, V, M>>,
    a: nat,
    b: nat,
)
    requires
        a <= b <= nodes.len(),
    ensures
        flat(nodes, a).len() <= flat(nodes, b).len(),
    decreases b,
{
    if a < b {
        lemma_flat_mono(nodes, a, (b - 1) as nat);
    }
}

/// The entries of a node among the first `n` are among the entries of the
/// first `n` nodes.
pub proof fn lemma_flat_has<H: Hashword, F: Slots, K, V, M: HasherBv<H, K>>(
    nodes: Seq<MNode<H, F, K, V, M>>,
    n: nat,
    j: int,
    x: int,
)
    requires
        0 <= j < n <= nodes.len(),
        0 <= x < nodes[j].entries().len(),
    ensures
        flat(nodes, n).contains(nodes[j].entries()[x]),
    decreases n,
{
    let front = flat(nodes, (n - 1) as nat);
    let last = nodes[n - 1].entries();
    if j == n - 1 {
        assert((front + last)[front.len() + x] == last[x]);
    } else {
        lemma_flat_has(nodes, (n - 1) as nat, j, x);
        let i = choose|i: int| 0 <= i < front.len() && front[i] == nodes[j].entries()[x];
        assert((front + last)[i] == front[i]);
    }
}

/// Where at most the node at place `j` holds keys of hash `h`, the bucket of
/// `h` is that node's bucket.
pub proof fn lemma_flat_bucket<H: Hashword, F: Slots, K, V, M: HasherBv<H, K>>(
    nodes: Seq<MNode<H, F, K, V, M>>,
    n: nat,
    h: H,
    j: int,
)
    requires
        n <= nodes.len(),
        forall|x: int|
            0 <= x < n && x != j ==> bucket::<H, K, V, M>(#[trigger] nodes[x].entries(), h)
                == Seq::<(K, V)>::empty(),
    ensures
        bucket::<H, K, V, M>(flat(nodes, n), h) == if 0 <= j < n {
            bucket::<H, K, V, M>(nodes[j].entries(), h)
        } else {
            Seq::<(K, V)>::empty()
        },
    decreases n,
{
    if n > 0 {
        let front = flat(nodes, (n - 1) as nat);
        let last = nodes[n - 1].entries();
        lemma_flat_bucket(nodes, (n - 1) as nat, h, j);
        lemma_bucket_add::<H, K, V, M>(front, last, h);
        let e = Seq::<(K, V)>::empty();
        let b = bucket::<H, K, V, M>(nodes[j].entries(), h);
        assert(e + e =~= e);
        assert(e + b =~= b);
        assert(b + e =~= b);
    }
}

/// The number of entries after the node at place `j` was exchanged.
pub proof fn lemma_flat_update_len<H: Hashword, F: Slots, K, V, M: HasherBv<H, K>>(
    nodes: Seq<MNode<H, F, K, V, M>>,
    j: int,
    x: MNode<H, F, K, V, M>,
    n: nat,
)
    requires
        0 <= j < nodes.len(),
        n <= nodes.len(),
    ensures
        flat(nodes.update(j, x), n).len() == flat(nodes, n).len() + if j < n {
            x.entries().len() - nodes[j].entries().len()
        } else {
            0int
        },
    decreases n,
{
    if n > 0 {
        lemma_flat_update_len(nodes, j, x, (n - 1) as nat);
    }
}

/// The number of entries after a node was put in at place `j`.
pub proof fn lemma_flat_insert_len<H: Hashword, F: Slots, K, V, M: HasherBv<H, K>>(
    nodes: Seq<MNode<H, F, K, V, M>>,
    j: int,
    x: MNode<H, F, K, V, M>,
    n: nat,
)
    requires
        0 <= j <= nodes.len(),
        n <= nodes.len() + 1,
    ensures
        flat(nodes.insert(j, x), n).len() == if n <= j {
            flat(nodes, n).len()
        } else {
            flat(nodes, (n - 1) as nat).len() + x.entries().len()
        },
    decreases n,
{
    if n > 0 {
        lemma_flat_insert_len(nodes, j, x, (n - 1) as nat);
    }
}

/// The number of entries after the node at place `j` was taken out.
pub proof fn lemma_flat_remove_len<H: Hashword, F: Slots, K, V, M: HasherBv<H, K>>(
    nodes: Seq<MNode<H, F, K, V, M>>,
    j: int,
    n: nat,
)
    requires
        0 <= j < nodes.len(),
        n < nodes.len(),
    ensures
        flat(nodes.remove(j), n).len() == if n <= j {
            flat(nodes, n).len() as int
        } else {
            flat(nodes, n + 1).len() - nodes[j].entries().len()
        },
    decreases n,
{
    if n > 0 {
        lemma_flat_remove_len(nodes, j, (n - 1) as nat);
    }
}

/// Runs of nodes that are the same, node for node, hold the same entries.
pub proof fn lemma_alike_flat<H: Hashword, F: Slots, K, V, M: HasherBv<H, K>>(
    a: Seq<MNode<H, F, K, V, M>>,
    b: Seq<MNode<H, F, K, V, M>>,
    n: nat,
)
    requires
        n <= a.len(),
        n <= b.len(),
        forall|j: int| 0 <= j < n ==> (#[trigger] a[j]).alike(&b[j]),
    ensures
        flat(a, n) == flat(b, n),
    decreases a, n,
{
    if n > 0 {
        lemma_alike_flat(a, b, (n - 1) as nat);
        a[n - 1].lemma_alike_entries(&b[n - 1]);
    }
}

impl<H, F, K, V, M> MNode<H, F, K, V, M> {
    /// A second handle to the same node.
    pub fn share(&self) -> (r: Self)
        ensures
            r == *self,
    {
        match self {
            MNode::C(cnode) => MNode::C(share(cnode)),
            MNode::L(lnode) => MNode::L(share(lnode)),
            MNode::S(snode) => MNode::S(share(snode)),
        }
    }
}

impl<H: Hashword, F: Flagword, K: Key, V: Value, M: HasherBv<H, K>> MNode<H, F, K, V, M> {
    /// The number of entries below the node.
    pub fn size(&self) -> (n: usize)
        ensures
            n == self.count(),
    {
        match self {
            MNode::C(cnode) => cnode.size,
            MNode::L(lnode) => lnode.size(),
            MNode::S(_) => 1,
        }
    }

    /// Whether the two nodes are the same.
    #[verifier::loop_isolation(false)]
    pub fn same(&self, other: &Self) -> (b: bool)
        ensures
            b == self.alike(other),
        decreases self,
    {
        match (self, other) {
            (MNode::C(a), MNode::C(b)) => {
                if !a.bitmap.same(&b.bitmap) || a.size != b.size || a.nodes.len() != b.nodes.len() {
                    return false;
                }
                let mut j: usize = 0;
                while j < a.nodes.len()
                    invariant
                        j <= a.nodes.len(),
                        a.nodes.len() == b.nodes.len(),
                        forall|x: int| 0 <= x < j ==> (#[trigger] a.nodes@[x]).alike(&b.nodes@[x]),
                    decreases a.nodes.len() - j,
                {
                    if !a.nodes[j].same(&b.nodes[j]) {
                        return false;
                    }
                    j = j + 1;
                }
                true
            },
            (MNode::L(a), MNode::L(b)) => a.same(b),
            (MNode::S(a), MNode::S(b)) => a.same(b),
            _ => false,
        }
    }

    /// Looks `key`, whose hash is `key_hash`, up below the node, which
    /// stands at level `depth`.
    pub fn find<'a>(&'a self, key: &K, key_hash: H, depth: usize) -> (r: FindResult<'a, K, V>)
        requires
            self.wf(depth as nat),
            key_hash == M::spec_hash(*key),
        ensures
            r.entry() == lookup(self.entries(), *key),
        decreases self,
    {
        match self {
            MNode::C(cnode) => {
                let flag = Flag::new_at_depth(key_hash, depth).unwrap();
                cnode::find(cnode, key, flag)
            },
            MNode::L(lnode) => lnode.find(key),
            MNode::S(snode) => {
                proof {
                    lemma_single(snode@, *key);
                }
                snode.find(key)
            },
        }
    }

    /// Inserts `(key, value)`, whose key has the hash `key_hash`, below the
    /// node, which stands at level `depth`.
    pub fn insert<'a>(
        &'a self,
        key: K,
        value: V,
        key_hash: H,
        depth: usize,
        replace: bool,
    ) -> (r: InsertResult<'a, H, F, K, V, M>)
        requires
            self.wf(depth as nat),
            key_hash == M::spec_hash(key),
            within::<H, F, K, V, M>(self.entries(), key_hash, depth as nat),
            self.entries().len() < usize::MAX,
        ensures
            inserted(*self, depth as nat, key, value, replace, r.found(), r.prev(), r.node()),
        decreases self,
    {
        match self {
            MNode::C(cnode) => {
                let flag = Flag::new_at_depth(key_hash, depth).unwrap();
                cnode::insert(cnode, key, value, flag, replace)
            },
            MNode::L(lnode) => lnode::insert(lnode, key, value, key_hash, depth, replace).widen(),
            MNode::S(snode) => snode::insert(snode, key, value, key_hash, depth, replace),
        }
    }

    /// Removes `key`, whose hash is `key_hash`, from below the node, which
    /// stands at level `depth`.
    pub fn remove<'a>(&'a self, key: &K, key_hash: H, depth: usize) -> (r: RemoveResult<
        'a,
        H,
        F,
        K,
        V,
        M,
    >)
        requires
            self.wf(depth as nat),
            key_hash == M::spec_hash(*key),
        ensures
            removed(*self, depth as nat, *key, r.entry(), r.node()),
        decreases self,
    {
        match self {
            MNode::C(cnode) => {
                let flag = Flag::new_at_depth(key_hash, depth).unwrap();
                cnode::remove(cnode, key, flag)
            },
            MNode::L(lnode) => lnode::remove(lnode, key),
            MNode::S(snode) => {
                proof {
                    lemma_single(snode@, *key);
                }
                match snode::remove(snode, key) {
                    SNodeRemoveResult::NotFound => RemoveResult::NotFound,
                    SNodeRemoveResult::RemovedZ(k, v) => RemoveResult::RemovedZ(k, v),
                }
            },
        }
    }

    /// Calls `op` on every entry below the node, in the order of
    /// `entries`.
    pub fn visit<Op: Fn(&K, &V)>(&self, op: &Op)
        requires
            ready(op, self.entries()),
        ensures
            visited(op, self.entries()),
        decreases self,
    {
        match self {
            MNode::C(cnode) => {
                assert(self.entries() == cnode.entries());
                cnode::visit(cnode, op)
            },
            MNode::L(lnode) => lnode.visit(op),
            MNode::S(snode) => {
                assert(self.entries()[0] == snode@);
                snode.visit(op)
            },
        }
    }

    /// Transforms every entry below the node, which stands at level
    /// `depth`, with `op`, and combines the shares of the reduction with
    /// `reduce_op`.
    pub fn transform<R: Default, Re: Fn(&R, &R) -> R, Op: Fn(&K, &V) -> MapTransformResult<V, R>>(
        &self,
        reduce_op: &Re,
        op: &Op,
        depth: usize,
    ) -> (r: MNodeTransformResult<H, F, K, V, M, R>)
        requires
            self.wf(depth as nat),
            ready(op, self.entries()),
            combines(reduce_op),
        ensures
            exists|rs: Seq<MapTransformResult<V, R>>| #[trigger]
                transformed_node(*self, depth as nat, reduce_op, op, rs, r),
        decreases self,
    {
        match self {
            MNode::C(cnode) => cnode::transform(cnode, reduce_op, op, depth),
            MNode::L(lnode) => {
                let r = lnode::transform(lnode, reduce_op, op);
                proof {
                    let rs = choose|rs: Seq<MapTransformResult<V, R>>| #[trigger]
                        lnode::transformed_list(reduce_op, op, lnode@, rs, r);
                    lemma_transformed(lnode@, rs);
                    let t = transformed(lnode@, rs);
                    match &r {
                        LNodeTransformResult::L(l, _) => {
                            use_type_invariant(&**l);
                            l.lemma_len();
                            assert forall|i: int| 0 <= i < t.len() implies M::spec_hash(
                                #[trigger] t[i].0,
                            ) == M::spec_hash(t[0].0) by {
                                let x = choose|x: int|
                                    0 <= x < lnode@.len() && (#[trigger] lnode@[x]).0 == t[i].0;
                                let y = choose|y: int|
                                    0 <= y < lnode@.len() && (#[trigger] lnode@[y]).0 == t[0].0;
                            }
                        },
                        _ => {},
                    }
                }
                let out = r.widen();
                proof {
                    let rs = choose|rs: Seq<MapTransformResult<V, R>>| #[trigger]
                        lnode::transformed_list(reduce_op, op, lnode@, rs, r);
                    assert(transformed_node(*self, depth as nat, reduce_op, op, rs, out));
                }
                out
            },
            MNode::S(snode) => {
                assert(self.entries()[0] == snode@);
                let r = snode::transform(snode, op);
                let ghost rs = seq![r.answer()];
                proof {
                    lnode::lemma_transformed_one(snode@, r.answer());
                    assert(transform_shares(rs) =~= seq![r.reduction()]);
                }
                let out = match r {
                    SNodeTransformResult::Unchanged(r) => MNodeTransformResult::Unchanged(r),
                    SNodeTransformResult::S(snode, r) => MNodeTransformResult::S(snode, r),
                    SNodeTransformResult::Removed(r) => MNodeTransformResult::Removed(r),
                };
                proof {
                    assert(transformed_node(*self, depth as nat, reduce_op, op, rs, out));
                }
                out
            },
        }
    }
}

impl<H: Hashword, F: Flagword, K: Key, V: Value, M: HasherBv<H, K>> MNode<H, F, K, V, M> {
    /// Transmutes every entry below the node, which stands at level
    /// `depth`, with `op`, and combines the shares of the reduction with
    /// `reduce_op`.
    pub fn transmute<
        S: Key,
        X: Value,
        R: Default,
        Re: Fn(&R, &R) -> R,
        Op: Fn(&K, &V) -> MapTransmuteResult<S, X, R>,
    >(&self, reduce_op: &Re, op: &Op, depth: usize) -> (r: MNodeTransmuteResult<H, F, S, X, M, R>)
        where M: HasherBv<H, S>
        requires
            self.wf(depth as nat),
            ready(op, self.entries()),
            combines(reduce_op),
            keeps_hash::<H, K, V, S, X, R, M, Op>(op, self.entries()),
            keeps_apart::<H, K, V, S, X, R, M, Op>(op, self.entries()),
        ensures
            exists|rs: Seq<MapTransmuteResult<S, X, R>>| #[trigger]
                transmuted_node(*self, depth as nat, reduce_op, op, rs, r),
        decreases self,
    {
        match self {
            MNode::C(cnode) => cnode::transmute(cnode, reduce_op, op, depth),
            MNode::L(lnode) => {
                let r = lnode::transmute(lnode, reduce_op, op);
                let ghost rs = choose|rs: Seq<MapTransmuteResult<S, X, R>>| #[trigger]
                    lnode::transmuted_list(reduce_op, op, lnode@, rs, r);
                proof {
                    lemma_transmuted_keys::<H, F, K, V, S, X, R, M, Op>(op, lnode@, rs);
                    let h = <M as HasherBv<H, K>>::spec_hash(lnode@[0].0);
                    assert(all_hash::<H, S, X, M>(transmuted(rs), h));
                    match &r {
                        LNodeTransmuteResult::L(l, _) => {
                            use_type_invariant(&**l);
                            l.lemma_len();
                        },
                        _ => {},
                    }
                }
                let out = r.widen();
                proof {
                    assert(transmuted_node(*self, depth as nat, reduce_op, op, rs, out));
                }
                out
            },
            MNode::S(snode) => {
                assert(self.entries()[0] == snode@);
                let r = snode::transmute(snode, op);
                let ghost rs = seq![r.answer()];
                proof {
                    lnode::lemma_transmuted_one(r.answer());
                    assert(transmute_shares(rs) =~= seq![r.reduction()]);
                }
                let out = match r {
                    SNodeTransmuteResult::S(snode, r) => MNodeTransmuteResult::S(snode, r),
                    SNodeTransmuteResult::Removed(r) => MNodeTransmuteResult::Removed(r),
                };
                proof {
                    assert(transmuted_node(*self, depth as nat, reduce_op, op, rs, out));
                }
                out
            },
        }
    }

    /// The leaf, as what follows an entry of a list.
    pub fn leaf(&self) -> (r: LNodeNext<K, V>)
        requires
            self !is C,
        ensures
            r.mnode::<H, F, M>() == *self,
            r@ == self.entries(),
    {
        match self {
            MNode::L(lnode) => LNodeNext::L(share(lnode)),
            MNode::S(snode) => LNodeNext::S(share(snode)),
            MNode::C(_) => unreached(),
        }
    }

    /// The leaf, as a side of the joint walk at level `depth`.
    pub fn side<'a>(&'a self, depth: usize) -> (r: Side<'a, H, F, K, V, M>)
        requires
            self !is C,
            self.wf(0),
            fits::<H, F>(depth as nat),
        ensures
            r.wf(depth as nat),
            r.entries() == self.entries(),
            r.node() == *self,
            r is Leaf,
    {
        let key = match self {
            MNode::L(lnode) => lnode.key(),
            MNode::S(snode) => snode.key(),
            MNode::C(_) => unreached(),
        };
        proof {
            self.lemma_count(0);
        }
        let hash = M::default().hash(key);
        let flag = Flag::<H, F>::new_at_depth(hash, depth).unwrap();
        Side::Leaf(self, flag.index())
    }

    /// The joint walk over this node and `right`, two nodes of level
    /// `depth`: the node whose entries are the join of the entries of the
    /// two.
    pub fn joint_transmute<
        W: Value,
        S: Key,
        X: Value,
        R: Default,
        Re: Fn(&R, &R) -> R,
        Bo: Fn(&K, &V, &K, &W) -> MapTransmuteResult<S, X, R>,
        Lo: Fn(&K, &V) -> MapTransmuteResult<S, X, R>,
        Ro: Fn(&K, &W) -> MapTransmuteResult<S, X, R>,
    >(
        &self,
        right: &MNode<H, F, K, W, M>,
        reduce_op: &Re,
        both_op: &Bo,
        left_op: &Lo,
        right_op: &Ro,
        depth: usize,
    ) -> (r: MNodeTransmuteResult<H, F, S, X, M, R>)
        where M: HasherBv<H, S>
        requires
            self.wf(depth as nat),
            right.wf(depth as nat),
            joint_ok::<H, K, V, W, S, X, R, M, Bo, Lo, Ro>(
                both_op,
                left_op,
                right_op,
                self.entries(),
                right.entries(),
            ),
            combines(reduce_op),
            aligned::<H, F, K, V, W, M>(self.entries(), right.entries(), depth as nat),
            self.entries().len() + right.entries().len() < usize::MAX,
        ensures
            joined_node(
                self.entries(),
                right.entries(),
                depth as nat,
                both_op,
                left_op,
                right_op,
                r,
            ),
            (self is C || right is C) && depth == 0 ==> r is C || r is Removed,
            self !is C && right !is C && <M as HasherBv<H, K>>::spec_hash(self.entries()[0].0)
                == <M as HasherBv<H, K>>::spec_hash(right.entries()[0].0) ==> r !is C,
            self !is C && right !is C && r is C ==> mixed::<H, S, X, M>(
                r.node().unwrap().entries(),
            ),
            self.joint_reduces(
                right,
                depth as nat,
                reduce_op,
                both_op,
                left_op,
                right_op,
                r.reduction(),
            ),
        decreases room::<H, F>(depth as nat), 3nat,
    {
        match self {
            MNode::C(lc) => {
                let left = Side::Branch(lc);
                assert(left.node() == *self);
                match right {
                    MNode::C(rc) => {
                        let side = Side::Branch(rc);
                        assert(side.node() == *right);
                        cnode::joint_transmute(
                            &left,
                            &side,
                            reduce_op,
                            both_op,
                            left_op,
                            right_op,
                            depth,
                        )
                    },
                    _ => cnode::joint_transmute(
                        &left,
                        &right.side(depth),
                        reduce_op,
                        both_op,
                        left_op,
                        right_op,
                        depth,
                    ),
                }
            },
            MNode::L(lnode) => lnode::joint_transmute(
                lnode,
                right,
                reduce_op,
                both_op,
                left_op,
                right_op,
                depth,
            ),
            MNode::S(snode) => snode::joint_transmute(
                snode,
                right,
                reduce_op,
                both_op,
                left_op,
                right_op,
                depth,
            ),
        }
    }
}

} // verus!
