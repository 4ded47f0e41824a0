//! What the operations of the nodes and of the trie hand back.

use vstd::prelude::*;
use std::sync::Arc;
use crate::node::cnode::CNode;
use crate::node::lnode::LNode;
use crate::node::mnode::MNode;
use crate::node::snode::SNode;
use crate::ops::moved;

verus! {

/// The one failure that a trie reports to its user.
#[derive(Clone, Copy, Debug, PartialEq, Eq, Structural)]
pub enum HashTrieError {
    /// The key is not in the trie.
    NotFound,
}

/// The result of a lookup.
pub enum FindResult<'a, K, V> {
    NotFound,
    Found(&'a K, &'a V),
}

impl<'a, K, V> FindResult<'a, K, V> {
    /// The entry that was found, if any.
    pub open spec fn entry(self) -> Option<(K, V)> {
        match self {
            FindResult::NotFound => None,
            FindResult::Found(k, v) => Some((*k, *v)),
        }
    }
}

/// What the caller's operation decides for one entry of a map that keeps
/// its key type: keep it, give it a new value, or drop it. Each carries the
/// entry's share of the reduction.
pub enum MapTransformResult<V, R> {
    Unchanged(R),
    Transformed(V, R),
    Removed(R),
}

/// What the caller's operation decides for one entry where keys and values
/// change type: the new entry, or nothing. Each carries the entry's share of
/// the reduction.
pub enum MapTransmuteResult<S, X, R> {
    Transmuted(S, X, R),
    Removed(R),
}

/// What the caller's operation decides for one element of a set.
#[derive(Clone, Copy, Debug, PartialEq, Eq, Structural)]
pub enum SetTransformResult {
    Unchanged,
    Removed,
}

impl<V, R> MapTransformResult<V, R> {
    /// The share of the reduction.
    pub open spec fn reduction(self) -> R {
        match self {
            MapTransformResult::Unchanged(r) => r,
            MapTransformResult::Transformed(_, r) => r,
            MapTransformResult::Removed(r) => r,
        }
    }
}

impl<S, X, R> MapTransmuteResult<S, X, R> {
    /// The share of the reduction.
    pub open spec fn reduction(self) -> R {
        match self {
            MapTransmuteResult::Transmuted(_, _, r) => r,
            MapTransmuteResult::Removed(r) => r,
        }
    }
}

/// The result of removing a key from a singleton.
pub enum SNodeRemoveResult<'a, K, V> {
    NotFound,
    /// The key was there, and nothing is left.
    RemovedZ(&'a K, &'a V),
}

impl<'a, K, V> SNodeRemoveResult<'a, K, V> {
    /// The entry that was removed, if any.
    pub open spec fn entry(self) -> Option<(K, V)> {
        match self {
            SNodeRemoveResult::NotFound => None,
            SNodeRemoveResult::RemovedZ(k, v) => Some((*k, *v)),
        }
    }
}

/// The result of removing a key from a collision list.
pub enum LNodeRemoveResult<'a, K, V> {
    NotFound,
    RemovedL(Arc<LNode<K, V>>, &'a K, &'a V),
    RemovedS(Arc<SNode<K, V>>, &'a K, &'a V),
}

impl<'a, K, V> LNodeRemoveResult<'a, K, V> {
    /// The entry that was removed, if any.
    pub open spec fn entry(self) -> Option<(K, V)> {
        match self {
            LNodeRemoveResult::NotFound => None,
            LNodeRemoveResult::RemovedL(_, k, v) => Some((*k, *v)),
            LNodeRemoveResult::RemovedS(_, k, v) => Some((*k, *v)),
        }
    }

    /// The entries that are left, if one was removed.
    pub open spec fn rest(self) -> Option<Seq<(K, V)>> {
        match self {
            LNodeRemoveResult::NotFound => None,
            LNodeRemoveResult::RemovedL(lnode, _, _) => Some(lnode@),
            LNodeRemoveResult::RemovedS(snode, _, _) => Some(seq![snode@]),
        }
    }
}

/// The result of removing a key from a node: the node that is left, or
/// nothing (`RemovedZ`), and the entry that was removed.
pub enum RemoveResult<'a, H, F, K, V, M> {
    NotFound,
    RemovedC(Arc<CNode<H, F, K, V, M>>, &'a K, &'a V),
    RemovedL(Arc<LNode<K, V>>, &'a K, &'a V),
    RemovedS(Arc<SNode<K, V>>, &'a K, &'a V),
    RemovedZ(&'a K, &'a V),
}

/// The result of an insertion into a leaf: the entry that was in the way, or
/// the node that holds the new entry and the entry that it replaced.
pub enum LNodeInsertResult<'a, H, F, K, V, M> {
    Found(&'a K, &'a V),
    InsertedC(Arc<CNode<H, F, K, V, M>>, Option<(&'a K, &'a V)>),
    InsertedL(Arc<LNode<K, V>>, Option<(&'a K, &'a V)>),
}

/// The result of an insertion into a node: the entry that was in the way, or
/// the node that holds the new entry and the entry that it replaced.
pub enum InsertResult<'a, H, F, K, V, M> {
    Found(&'a K, &'a V),
    InsertedC(Arc<CNode<H, F, K, V, M>>, Option<(&'a K, &'a V)>),
    InsertedL(Arc<LNode<K, V>>, Option<(&'a K, &'a V)>),
    InsertedS(Arc<SNode<K, V>>, Option<(&'a K, &'a V)>),
}

/// The entry behind a pair of references, if there is one.
pub open spec fn entry_of<K, V>(pair: Option<(&K, &V)>) -> Option<(K, V)> {
    match pair {
        Some((k, v)) => Some((*k, *v)),
        None => None,
    }
}

impl<'a, H, F, K, V, M> RemoveResult<'a, H, F, K, V, M> {
    /// The entry that was removed, if any.
    pub open spec fn entry(self) -> Option<(K, V)> {
        match self {
            RemoveResult::NotFound => None,
            RemoveResult::RemovedC(_, k, v) => Some((*k, *v)),
            RemoveResult::RemovedL(_, k, v) => Some((*k, *v)),
            RemoveResult::RemovedS(_, k, v) => Some((*k, *v)),
            RemoveResult::RemovedZ(k, v) => Some((*k, *v)),
        }
    }

    /// The node that is left, if any is.
    pub open spec fn node(self) -> Option<MNode<H, F, K, V, M>> {
        match self {
            RemoveResult::NotFound => None,
            RemoveResult::RemovedC(cnode, _, _) => Some(MNode::C(cnode)),
            RemoveResult::RemovedL(lnode, _, _) => Some(MNode::L(lnode)),
            RemoveResult::RemovedS(snode, _, _) => Some(MNode::S(snode)),
            RemoveResult::RemovedZ(_, _) => None,
        }
    }
}

impl<'a, H, F, K, V, M> LNodeInsertResult<'a, H, F, K, V, M> {
    /// The entry that was in the way, if the insertion was refused.
    pub open spec fn found(self) -> Option<(K, V)> {
        match self {
            LNodeInsertResult::Found(k, v) => Some((*k, *v)),
            _ => None,
        }
    }

    /// The entry that was replaced, if any.
    pub open spec fn prev(self) -> Option<(K, V)> {
        match self {
            LNodeInsertResult::Found(_, _) => None,
            LNodeInsertResult::InsertedC(_, prev) => entry_of(prev),
            LNodeInsertResult::InsertedL(_, prev) => entry_of(prev),
        }
    }

    /// The node that holds the new entry, if it was inserted.
    pub open spec fn node(self) -> Option<MNode<H, F, K, V, M>> {
        match self {
            LNodeInsertResult::Found(_, _) => None,
            LNodeInsertResult::InsertedC(cnode, _) => Some(MNode::C(cnode)),
            LNodeInsertResult::InsertedL(lnode, _) => Some(MNode::L(lnode)),
        }
    }

    /// The same result, as the result of an insertion into any node.
    pub fn widen(self) -> (r: InsertResult<'a, H, F, K, V, M>)
        ensures
            r.found() == self.found(),
            r.prev() == self.prev(),
            r.node() == self.node(),
    {
        match self {
            LNodeInsertResult::Found(k, v) => InsertResult::Found(k, v),
            LNodeInsertResult::InsertedC(cnode, prev) => InsertResult::InsertedC(cnode, prev),
            LNodeInsertResult::InsertedL(lnode, prev) => InsertResult::InsertedL(lnode, prev),
        }
    }
}

impl<'a, H, F, K, V, M> InsertResult<'a, H, F, K, V, M> {
    /// The entry that was in the way, if the insertion was refused.
    pub open spec fn found(self) -> Option<(K, V)> {
        match self {
            InsertResult::Found(k, v) => Some((*k, *v)),
            _ => None,
        }
    }

    /// The entry that was replaced, if any.
    pub open spec fn prev(self) -> Option<(K, V)> {
        match self {
            InsertResult::Found(_, _) => None,
            InsertResult::InsertedC(_, prev) => entry_of(prev),
            InsertResult::InsertedL(_, prev) => entry_of(prev),
            InsertResult::InsertedS(_, prev) => entry_of(prev),
        }
    }

    /// The node that holds the new entry, if it was inserted.
    pub open spec fn node(self) -> Option<MNode<H, F, K, V, M>> {
        match self {
            InsertResult::Found(_, _) => None,
            InsertResult::InsertedC(cnode, _) => Some(MNode::C(cnode)),
            InsertResult::InsertedL(lnode, _) => Some(MNode::L(lnode)),
            InsertResult::InsertedS(snode, _) => Some(MNode::S(snode)),
        }
    }
}

/// The result of transforming a singleton.
pub enum SNodeTransformResult<K, V, R> {
    Unchanged(R),
    S(Arc<SNode<K, V>>, R),
    Removed(R),
}

/// The result of transforming a collision list.
pub enum LNodeTransformResult<K, V, R> {
    Unchanged(R),
    L(Arc<LNode<K, V>>, R),
    S(Arc<SNode<K, V>>, R),
    Removed(R),
}

/// The result of transforming a node.
pub enum MNodeTransformResult<H, F, K, V, M, R> {
    Unchanged(R),
    C(Arc<CNode<H, F, K, V, M>>, R),
    L(Arc<LNode<K, V>>, R),
    S(Arc<SNode<K, V>>, R),
    Removed(R),
}

/// The result of transmuting a singleton.
pub enum SNodeTransmuteResult<S, X, R> {
    S(Arc<SNode<S, X>>, R),
    Removed(R),
}

/// The result of transmuting a collision list.
pub enum LNodeTransmuteResult<S, X, R> {
    L(Arc<LNode<S, X>>, R),
    S(Arc<SNode<S, X>>, R),
    Removed(R),
}

/// The result of transmuting a node.
pub enum MNodeTransmuteResult<H, F, S, X, M, R> {
    C(Arc<CNode<H, F, S, X, M>>, R),
    L(Arc<LNode<S, X>>, R),
    S(Arc<SNode<S, X>>, R),
    Removed(R),
}

impl<K, V, R> SNodeTransformResult<K, V, R> {
    /// The answer of the operation that this result stands for.
    pub open spec fn answer(self) -> MapTransformResult<V, R> {
        match self {
            SNodeTransformResult::Unchanged(r) => MapTransformResult::Unchanged(r),
            SNodeTransformResult::S(snode, r) => MapTransformResult::Transformed(snode@.1, r),
            SNodeTransformResult::Removed(r) => MapTransformResult::Removed(r),
        }
    }

    /// The same result, as the result for a list.
    pub fn widen(self) -> (r: LNodeTransformResult<K, V, R>)
        ensures
            forall|old: (K, V)| #[trigger] r.entries(seq![old]) == self.entries(old),
            r.reduction() == self.reduction(),
            r is Unchanged == self is Unchanged,
    {
        match self {
            SNodeTransformResult::Unchanged(r) => LNodeTransformResult::Unchanged(r),
            SNodeTransformResult::S(snode, r) => LNodeTransformResult::S(snode, r),
            SNodeTransformResult::Removed(r) => LNodeTransformResult::Removed(r),
        }
    }

    /// The entries after the transformation of the singleton of `old`.
    pub open spec fn entries(self, old: (K, V)) -> Seq<(K, V)> {
        match self {
            SNodeTransformResult::Unchanged(_) => seq![old],
            SNodeTransformResult::S(snode, _) => seq![snode@],
            SNodeTransformResult::Removed(_) => Seq::empty(),
        }
    }

    /// What came of the shares of the reduction.
    pub open spec fn reduction(self) -> R {
        match self {
            SNodeTransformResult::Unchanged(r) => r,
            SNodeTransformResult::S(_, r) => r,
            SNodeTransformResult::Removed(r) => r,
        }
    }
}

impl<K, V, R> LNodeTransformResult<K, V, R> {
    /// The same result, as the result for any node.
    pub fn widen<H, F, M>(self) -> (r: MNodeTransformResult<H, F, K, V, M, R>)
        ensures
            r.reduction() == self.reduction(),
            r is Unchanged == self is Unchanged,
            r matches MNodeTransformResult::L(lnode, _) ==> self matches LNodeTransformResult::L(
                l,
                _,
            ) && l == lnode,
            r matches MNodeTransformResult::S(snode, _) ==> self matches LNodeTransformResult::S(
                s,
                _,
            ) && s == snode,
            r is Removed == self is Removed,
            r !is C,
    {
        match self {
            LNodeTransformResult::Unchanged(r) => MNodeTransformResult::Unchanged(r),
            LNodeTransformResult::L(lnode, r) => MNodeTransformResult::L(lnode, r),
            LNodeTransformResult::S(snode, r) => MNodeTransformResult::S(snode, r),
            LNodeTransformResult::Removed(r) => MNodeTransformResult::Removed(r),
        }
    }

    /// The entries after the transformation of the list of `old`.
    pub open spec fn entries(self, old: Seq<(K, V)>) -> Seq<(K, V)> {
        match self {
            LNodeTransformResult::Unchanged(_) => old,
            LNodeTransformResult::L(lnode, _) => lnode@,
            LNodeTransformResult::S(snode, _) => seq![snode@],
            LNodeTransformResult::Removed(_) => Seq::empty(),
        }
    }

    /// What came of the shares of the reduction.
    pub open spec fn reduction(self) -> R {
        match self {
            LNodeTransformResult::Unchanged(r) => r,
            LNodeTransformResult::L(_, r) => r,
            LNodeTransformResult::S(_, r) => r,
            LNodeTransformResult::Removed(r) => r,
        }
    }
}

impl<H, F, K, V, M, R> MNodeTransformResult<H, F, K, V, M, R> {
    /// The node that is left of `old`, if any is, what came of the shares
    /// of the reduction, and whether anything changed.
    pub fn split(self, old: &MNode<H, F, K, V, M>) -> (r: (Option<MNode<H, F, K, V, M>>, R, bool))
        ensures
            r.0 == self.node(*old),
            r.1 == self.reduction(),
            r.2 == self !is Unchanged,
    {
        match self {
            MNodeTransformResult::Unchanged(r) => (Some(old.share()), r, false),
            MNodeTransformResult::C(cnode, r) => (Some(MNode::C(cnode)), r, true),
            MNodeTransformResult::L(lnode, r) => (Some(MNode::L(lnode)), r, true),
            MNodeTransformResult::S(snode, r) => (Some(MNode::S(snode)), r, true),
            MNodeTransformResult::Removed(r) => (None, r, true),
        }
    }

    /// The node after the transformation of `old`, if anything is left.
    pub open spec fn node(self, old: MNode<H, F, K, V, M>) -> Option<MNode<H, F, K, V, M>> {
        match self {
            MNodeTransformResult::Unchanged(_) => Some(old),
            MNodeTransformResult::C(cnode, _) => Some(MNode::C(cnode)),
            MNodeTransformResult::L(lnode, _) => Some(MNode::L(lnode)),
            MNodeTransformResult::S(snode, _) => Some(MNode::S(snode)),
            MNodeTransformResult::Removed(_) => None,
        }
    }

    /// What came of the shares of the reduction.
    pub open spec fn reduction(self) -> R {
        match self {
            MNodeTransformResult::Unchanged(r) => r,
            MNodeTransformResult::C(_, r) => r,
            MNodeTransformResult::L(_, r) => r,
            MNodeTransformResult::S(_, r) => r,
            MNodeTransformResult::Removed(r) => r,
        }
    }
}

impl<S, X, R> SNodeTransmuteResult<S, X, R> {
    /// The answer of the operation that this result stands for.
    pub open spec fn answer(self) -> MapTransmuteResult<S, X, R> {
        match self {
            SNodeTransmuteResult::S(snode, r) => MapTransmuteResult::Transmuted(
                snode@.0,
                snode@.1,
                r,
            ),
            SNodeTransmuteResult::Removed(r) => MapTransmuteResult::Removed(r),
        }
    }

    /// The same result, as the result for a list.
    pub fn widen(self) -> (r: LNodeTransmuteResult<S, X, R>)
        ensures
            r.entries() == self.entries(),
            r.reduction() == self.reduction(),
    {
        match self {
            SNodeTransmuteResult::S(snode, r) => LNodeTransmuteResult::S(snode, r),
            SNodeTransmuteResult::Removed(r) => LNodeTransmuteResult::Removed(r),
        }
    }

    /// The entries that came of the singleton.
    pub open spec fn entries(self) -> Seq<(S, X)> {
        match self {
            SNodeTransmuteResult::S(snode, _) => seq![snode@],
            SNodeTransmuteResult::Removed(_) => Seq::empty(),
        }
    }

    /// What came of the shares of the reduction.
    pub open spec fn reduction(self) -> R {
        match self {
            SNodeTransmuteResult::S(_, r) => r,
            SNodeTransmuteResult::Removed(r) => r,
        }
    }
}

impl<S, X, R> LNodeTransmuteResult<S, X, R> {
    /// The result that holds the entry which the answer `a` gives, if it
    /// gives one.
    pub fn single(a: MapTransmuteResult<S, X, R>) -> (r: Self)
        ensures
            r.entries() == moved(a),
            r.reduction() == a.reduction(),
    {
        match a {
            MapTransmuteResult::Transmuted(s, x, r) => LNodeTransmuteResult::S(
                Arc::new(SNode::make(s, x)),
                r,
            ),
            MapTransmuteResult::Removed(r) => LNodeTransmuteResult::Removed(r),
        }
    }

    /// The same result, as the result for any node.
    pub fn widen<H, F, M>(self) -> (r: MNodeTransmuteResult<H, F, S, X, M, R>)
        ensures
            r.reduction() == self.reduction(),
            r matches MNodeTransmuteResult::L(lnode, _) ==> self matches LNodeTransmuteResult::L(
                l,
                _,
            ) && l == lnode,
            r matches MNodeTransmuteResult::S(snode, _) ==> self matches LNodeTransmuteResult::S(
                s,
                _,
            ) && s == snode,
            r is Removed == self is Removed,
            r !is C,
    {
        match self {
            LNodeTransmuteResult::L(lnode, r) => MNodeTransmuteResult::L(lnode, r),
            LNodeTransmuteResult::S(snode, r) => MNodeTransmuteResult::S(snode, r),
            LNodeTransmuteResult::Removed(r) => MNodeTransmuteResult::Removed(r),
        }
    }

    /// The entries that came of the list.
    pub open spec fn entries(self) -> Seq<(S, X)> {
        match self {
            LNodeTransmuteResult::L(lnode, _) => lnode@,
            LNodeTransmuteResult::S(snode, _) => seq![snode@],
            LNodeTransmuteResult::Removed(_) => Seq::empty(),
        }
    }

    /// What came of the shares of the reduction.
    pub open spec fn reduction(self) -> R {
        match self {
            LNodeTransmuteResult::L(_, r) => r,
            LNodeTransmuteResult::S(_, r) => r,
            LNodeTransmuteResult::Removed(r) => r,
        }
    }
}

impl<H, F, S, X, M, R> MNodeTransmuteResult<H, F, S, X, M, R> {
    /// The node that came of the transmutation, if any did, and what came
    /// of the shares of the reduction.
    pub fn split(self) -> (r: (Option<MNode<H, F, S, X, M>>, R))
        ensures
            r.0 == self.node(),
            r.1 == self.reduction(),
    {
        match self {
            MNodeTransmuteResult::C(cnode, r) => (Some(MNode::C(cnode)), r),
            MNodeTransmuteResult::L(lnode, r) => (Some(MNode::L(lnode)), r),
            MNodeTransmuteResult::S(snode, r) => (Some(MNode::S(snode)), r),
            MNodeTransmuteResult::Removed(r) => (None, r),
        }
    }

    /// The result that holds `node` and the share `r`.
    pub fn join(node: Option<MNode<H, F, S, X, M>>, r: R) -> (out: Self)
        ensures
            out.node() == node,
            out.reduction() == r,
    {
        match node {
            Some(MNode::C(cnode)) => MNodeTransmuteResult::C(cnode, r),
            Some(MNode::L(lnode)) => MNodeTransmuteResult::L(lnode, r),
            Some(MNode::S(snode)) => MNodeTransmuteResult::S(snode, r),
            None => MNodeTransmuteResult::Removed(r),
        }
    }

    /// The node that came of the transmutation, if anything did.
    pub open spec fn node(self) -> Option<MNode<H, F, S, X, M>> {
        match self {
            MNodeTransmuteResult::C(cnode, _) => Some(MNode::C(cnode)),
            MNodeTransmuteResult::L(lnode, _) => Some(MNode::L(lnode)),
            MNodeTransmuteResult::S(snode, _) => Some(MNode::S(snode)),
            MNodeTransmuteResult::Removed(_) => None,
        }
    }

    /// What came of the shares of the reduction.
    pub open spec fn reduction(self) -> R {
        match self {
            MNodeTransmuteResult::C(_, r) => r,
            MNodeTransmuteResult::L(_, r) => r,
            MNodeTransmuteResult::S(_, r) => r,
            MNodeTransmuteResult::Removed(r) => r,
        }
    }
}

} // verus!
