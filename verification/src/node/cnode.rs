//! The compressed branch: a sparse array of children, one for each slot in
//! its flag word.

use vstd::prelude::*;
use std::marker::PhantomData;
use std::sync::Arc;
use crate::entries::{
    all_hash, bucket, lemma_bucket_add, lemma_bucket_all, lemma_bucket_none, lemma_lookup_bucket,
    lemma_put, lemma_single, lemma_took, lookup, ready, slotted, visited, within, without,
};
use crate::flag::{fits, lemma_fits, lemma_room, room, slot_of, Flag};
use crate::joint::{
    aligned, joined, joined_bucket, joint_ok, lemma_aligned_step, lemma_joined_left,
    lemma_joined_right, lemma_joined_slotted, lemma_joint_ok_left, lemma_joint_ok_part,
    lemma_joint_ok_right, lemma_nothing_joined,
};
use crate::node::mnode::{
    flat, inserted, lemma_flat_bucket, lemma_flat_has, lemma_flat_insert_len, lemma_flat_mono,
    lemma_flat_push, lemma_flat_remove_len, lemma_flat_small, lemma_flat_update_len, reduces_all,
    child_at, joined_node, removed, slots_reduce, transformed_node, transmuted_node, MNode,
};
use crate::node::snode::SNode;
use crate::ops::{
    answers, combines, keeps_apart, keeps_hash, lemma_answers_add, lemma_transformed,
    lemma_transformed_add, lemma_transmuted_add, lemma_transmuted_keys, lemma_transmuted_len,
    lemma_unchanged_add, transform_shares, transformed, transmute_shares, transmuted, unchanged,
};
use crate::result::{
    FindResult, InsertResult, MNodeTransformResult, MNodeTransmuteResult, MapTransformResult,
    MapTransmuteResult, RemoveResult,
};
use crate::share::share;
use crate::traits::{HasherBv, Key, Value};
use crate::word::{
    agree, fan, lemma_agree_all, lemma_agree_step, lemma_rank_bit, lemma_rank_cut,
    lemma_rank_empty, lemma_rank_injective, lemma_rank_mono, lemma_rank_onto, lemma_rank_strict,
    lemma_rank_with, lemma_rank_without, lemma_slot_at_rank, rank, Flagword, Hashword, Slots,
};

verus! {

/// A branch node.
#[derive(Debug)]
pub struct CNode<H, F, K, V, M> {
    pub bitmap: F,
    pub nodes: Vec<MNode<H, F, K, V, M>>,
    pub size: usize,
    pub marker: PhantomData<(H, M)>,
}

impl<H: Hashword, F: Slots, K, V, M: HasherBv<H, K>> CNode<H, F, K, V, M> {
    /// The entries below the branch, child after child.
    pub open spec fn entries(&self) -> Seq<(K, V)> {
        flat(self.nodes@, self.nodes@.len())
    }

    /// Whether the branch is well formed at level `depth`.
    ///
    /// It has one child for each slot of its flag word, in the order of the
    /// slots; the child of a slot is well formed one level down, is not
    /// empty, and holds only keys whose hash selects that slot at this level;
    /// the size is the number of entries; and below the root a branch is not
    /// empty and does not stand in for a single leaf.
    pub open spec fn wf(&self, depth: nat) -> bool
        decreases self,
    {
        &&& fits::<H, F>(depth)
        &&& self.nodes@.len() == rank(self.bitmap, fan::<F>())
        &&& self.size == self.entries().len()
        &&& forall|j: int|
            0 <= j < self.nodes@.len() ==> (#[trigger] self.nodes@[j]).wf(depth + 1)
                && self.nodes@[j].entries().len() > 0
        &&& forall|i: nat| #[trigger]
            self.bitmap.has(i) ==> slotted::<H, F, K, V, M>(
                self.nodes@[rank(self.bitmap, i) as int].entries(),
                depth,
                i,
            )
        &&& depth > 0 ==> self.nodes@.len() >= 1 && (self.nodes@.len() == 1
            ==> self.nodes@[0] is C)
    }
}

impl<H: Hashword, F: Slots, K, V, M: HasherBv<H, K>> CNode<H, F, K, V, M> {
    /// No child but the one of the slot that `h` selects holds a key of
    /// hash `h`.
    pub proof fn lemma_elsewhere(&self, depth: nat, h: H, x: int)
        requires
            self.wf(depth),
            0 <= x < self.nodes@.len(),
            !self.bitmap.has(slot_of::<H, F>(h, depth)) || x != rank(
                self.bitmap,
                slot_of::<H, F>(h, depth),
            ),
        ensures
            bucket::<H, K, V, M>(self.nodes@[x].entries(), h) == Seq::<(K, V)>::empty(),
    {
        let i = slot_of::<H, F>(h, depth);
        let i2 = lemma_rank_onto(self.bitmap, x as nat, fan::<F>());
        assert(self.bitmap.has(i2));
        let es = self.nodes@[x].entries();
        assert forall|y: int| 0 <= y < es.len() implies M::spec_hash(#[trigger] es[y].0) != h by {
        }
        lemma_bucket_none::<H, K, V, M>(es, h);
    }

    /// The entries of hash `h` are those of the child of the slot that `h`
    /// selects.
    pub proof fn lemma_bucket(&self, depth: nat, h: H)
        requires
            self.wf(depth),
        ensures
            bucket::<H, K, V, M>(self.entries(), h) == if self.bitmap.has(
                slot_of::<H, F>(h, depth),
            ) {
                bucket::<H, K, V, M>(
                    self.nodes@[rank(self.bitmap, slot_of::<H, F>(h, depth)) as int].entries(),
                    h,
                )
            } else {
                Seq::<(K, V)>::empty()
            },
    {
        let i = slot_of::<H, F>(h, depth);
        let j: int = if self.bitmap.has(i) {
            rank(self.bitmap, i) as int
        } else {
            -1
        };
        assert forall|x: int| 0 <= x < self.nodes@.len() && x != j implies bucket::<H, K, V, M>(
            #[trigger] self.nodes@[x].entries(),
            h,
        ) == Seq::<(K, V)>::empty() by {
            self.lemma_elsewhere(depth, h, x);
        }
        lemma_flat_bucket(self.nodes@, self.nodes@.len(), h, j);
        if self.bitmap.has(i) {
            lemma_slot_at_rank(self.bitmap, i);
        }
    }
}

impl<H: Hashword, F: Slots, K, V, M: HasherBv<H, K>> CNode<H, F, K, V, M> {
    /// The entries of a child are entries of the branch.
    pub proof fn lemma_child(&self, j: int)
        requires
            0 <= j < self.nodes@.len(),
        ensures
            forall|x: int|
                0 <= x < self.nodes@[j].entries().len() ==> self.entries().contains(
                    #[trigger] self.nodes@[j].entries()[x],
                ),
            self.nodes@[j].entries().len() <= self.entries().len(),
    {
        assert forall|x: int| 0 <= x < self.nodes@[j].entries().len() implies self.entries().contains(
            #[trigger] self.nodes@[j].entries()[x],
        ) by {
            lemma_flat_has(self.nodes@, self.nodes@.len(), j, x);
        }
        lemma_flat_update_len(self.nodes@, j, self.nodes@[j], self.nodes@.len());
        lemma_flat_remove_len(self.nodes@, j, (self.nodes@.len() - 1) as nat);
    }

    /// Where the keys of the branch have the bits of `h` below this level,
    /// the keys of the child of the slot of `h` have them below the next.
    pub proof fn lemma_child_within(&self, depth: nat, h: H)
        requires
            self.wf(depth),
            within::<H, F, K, V, M>(self.entries(), h, depth),
            self.bitmap.has(slot_of::<H, F>(h, depth)),
        ensures
            rank(self.bitmap, slot_of::<H, F>(h, depth)) < self.nodes@.len(),
            within::<H, F, K, V, M>(
                self.nodes@[rank(self.bitmap, slot_of::<H, F>(h, depth)) as int].entries(),
                h,
                depth + 1,
            ),
    {
        let i = slot_of::<H, F>(h, depth);
        lemma_slot_at_rank(self.bitmap, i);
        let j = rank(self.bitmap, i) as int;
        let ce = self.nodes@[j].entries();
        self.lemma_child(j);
        F::lemma_log_width();
        assert((depth + 1) * F::log_width() == depth * F::log_width() + F::log_width())
            by (nonlinear_arith);
        assert forall|x: int| 0 <= x < ce.len() implies agree(
            M::spec_hash(#[trigger] ce[x].0),
            h,
            (depth + 1) * F::log_width(),
        ) by {
            assert(self.entries().contains(ce[x]));
            let y = choose|y: int| 0 <= y < self.entries().len() && self.entries()[y] == ce[x];
            assert(agree(M::spec_hash(self.entries()[y].0), h, depth * F::log_width()));
            lemma_agree_step(M::spec_hash(ce[x].0), h, depth * F::log_width(), F::log_width());
        }
    }

    /// The branch after the child of slot `i` was exchanged for `node`.
    pub proof fn lemma_updated(&self, new: &Self, depth: nat, i: nat, node: MNode<H, F, K, V, M>)
        requires
            self.wf(depth),
            self.bitmap.has(i),
            new.bitmap == self.bitmap,
            new.nodes@ == self.nodes@.update(rank(self.bitmap, i) as int, node),
            node.wf(depth + 1),
            node.entries().len() > 0,
            slotted::<H, F, K, V, M>(node.entries(), depth, i),
            depth > 0 && self.nodes@.len() == 1 ==> node is C,
            new.size + self.nodes@[rank(self.bitmap, i) as int].entries().len() == self.size
                + node.entries().len(),
        ensures
            new.wf(depth),
            forall|h: H| #[trigger]
                bucket::<H, K, V, M>(new.entries(), h) == if slot_of::<H, F>(h, depth) == i {
                    bucket::<H, K, V, M>(node.entries(), h)
                } else {
                    bucket::<H, K, V, M>(self.entries(), h)
                },
    {
        lemma_slot_at_rank(self.bitmap, i);
        let j = rank(self.bitmap, i) as int;
        lemma_flat_update_len(self.nodes@, j, node, self.nodes@.len());
        assert forall|x: nat| #[trigger] new.bitmap.has(x) implies slotted::<H, F, K, V, M>(
            new.nodes@[rank(new.bitmap, x) as int].entries(),
            depth,
            x,
        ) by {
            lemma_slot_at_rank(self.bitmap, x);
            if x != i {
                if rank(self.bitmap, x) == rank(self.bitmap, i) {
                    lemma_rank_injective(self.bitmap, x, i);
                }
            }
        }
        assert(new.wf(depth));
        assert forall|h: H| #[trigger]
            bucket::<H, K, V, M>(new.entries(), h) == if slot_of::<H, F>(h, depth) == i {
                bucket::<H, K, V, M>(node.entries(), h)
            } else {
                bucket::<H, K, V, M>(self.entries(), h)
            } by {
            self.lemma_bucket(depth, h);
            new.lemma_bucket(depth, h);
            let x = slot_of::<H, F>(h, depth);
            if x != i && self.bitmap.has(x) {
                lemma_slot_at_rank(self.bitmap, x);
                if rank(self.bitmap, x) == rank(self.bitmap, i) {
                    lemma_rank_injective(self.bitmap, x, i);
                }
            }
        }
    }

    /// The branch after `node` became the child of the free slot `i`.
    pub proof fn lemma_added(&self, new: &Self, depth: nat, i: nat, node: MNode<H, F, K, V, M>)
        requires
            self.wf(depth),
            !self.bitmap.has(i),
            i < fan::<F>(),
            forall|x: nat| new.bitmap.has(x) <==> self.bitmap.has(x) || x == i,
            new.nodes@ == self.nodes@.insert(rank(self.bitmap, i) as int, node),
            node.wf(depth + 1),
            node.entries().len() > 0,
            slotted::<H, F, K, V, M>(node.entries(), depth, i),
            new.size == self.size + node.entries().len(),
        ensures
            new.wf(depth),
            forall|h: H| #[trigger]
                bucket::<H, K, V, M>(new.entries(), h) == if slot_of::<H, F>(h, depth) == i {
                    bucket::<H, K, V, M>(node.entries(), h)
                } else {
                    bucket::<H, K, V, M>(self.entries(), h)
                },
            forall|h: H|
                slot_of::<H, F>(h, depth) == i ==> #[trigger] bucket::<H, K, V, M>(
                    self.entries(),
                    h,
                ) == Seq::<(K, V)>::empty(),
    {
        let j = rank(self.bitmap, i) as int;
        lemma_rank_mono(self.bitmap, i, fan::<F>());
        lemma_rank_with(self.bitmap, new.bitmap, i, fan::<F>());
        lemma_flat_insert_len(self.nodes@, j, node, new.nodes@.len());
        assert forall|x: nat| #[trigger] new.bitmap.has(x) implies slotted::<H, F, K, V, M>(
            new.nodes@[rank(new.bitmap, x) as int].entries(),
            depth,
            x,
        ) && rank(new.bitmap, x) < new.nodes@.len() && (x != i ==> new.nodes@[rank(
            new.bitmap,
            x,
        ) as int] == self.nodes@[rank(self.bitmap, x) as int]) by {
            lemma_rank_with(self.bitmap, new.bitmap, i, x);
            if x != i {
                lemma_slot_at_rank(self.bitmap, x);
                if x < i {
                    lemma_rank_strict(self.bitmap, x, i);
                } else {
                    lemma_rank_mono(self.bitmap, i, x);
                }
            }
        }
        assert(new.wf(depth));
        assert forall|h: H| #[trigger]
            bucket::<H, K, V, M>(new.entries(), h) == if slot_of::<H, F>(h, depth) == i {
                bucket::<H, K, V, M>(node.entries(), h)
            } else {
                bucket::<H, K, V, M>(self.entries(), h)
            } by {
            self.lemma_bucket(depth, h);
            new.lemma_bucket(depth, h);
            let x = slot_of::<H, F>(h, depth);
            if x != i && self.bitmap.has(x) {
                assert(new.bitmap.has(x));
            }
            if x == i {
                assert(new.bitmap.has(x));
                lemma_rank_with(self.bitmap, new.bitmap, i, x);
            }
        }
        assert forall|h: H| slot_of::<H, F>(h, depth) == i implies #[trigger] bucket::<H, K, V, M>(
            self.entries(),
            h,
        ) == Seq::<(K, V)>::empty() by {
            self.lemma_bucket(depth, h);
        }
    }

    /// The branch after the child of slot `i` was taken out.
    pub proof fn lemma_dropped(&self, new: &Self, depth: nat, i: nat)
        requires
            self.wf(depth),
            self.bitmap.has(i),
            forall|x: nat| new.bitmap.has(x) <==> self.bitmap.has(x) && x != i,
            new.nodes@ == self.nodes@.remove(rank(self.bitmap, i) as int),
            new.size + self.nodes@[rank(self.bitmap, i) as int].entries().len() == self.size,
            depth > 0 ==> new.nodes@.len() >= 1 && (new.nodes@.len() == 1 ==> new.nodes@[0] is C),
        ensures
            new.wf(depth),
            forall|h: H| #[trigger]
                bucket::<H, K, V, M>(new.entries(), h) == if slot_of::<H, F>(h, depth) == i {
                    Seq::<(K, V)>::empty()
                } else {
                    bucket::<H, K, V, M>(self.entries(), h)
                },
    {
        lemma_slot_at_rank(self.bitmap, i);
        self.bitmap.lemma_has(i);
        let j = rank(self.bitmap, i) as int;
        lemma_rank_without(self.bitmap, new.bitmap, i, fan::<F>());
        lemma_flat_remove_len(self.nodes@, j, new.nodes@.len());
        assert forall|x: nat| #[trigger] new.bitmap.has(x) implies slotted::<H, F, K, V, M>(
            new.nodes@[rank(new.bitmap, x) as int].entries(),
            depth,
            x,
        ) && rank(new.bitmap, x) < new.nodes@.len() && new.nodes@[rank(new.bitmap, x) as int]
            == self.nodes@[rank(self.bitmap, x) as int] by {
            lemma_rank_without(self.bitmap, new.bitmap, i, x);
            lemma_slot_at_rank(self.bitmap, x);
            if x < i {
                lemma_rank_strict(self.bitmap, x, i);
            } else {
                lemma_rank_strict(self.bitmap, i, x);
            }
        }
        assert(new.wf(depth));
        assert forall|h: H| #[trigger]
            bucket::<H, K, V, M>(new.entries(), h) == if slot_of::<H, F>(h, depth) == i {
                Seq::<(K, V)>::empty()
            } else {
                bucket::<H, K, V, M>(self.entries(), h)
            } by {
            self.lemma_bucket(depth, h);
            new.lemma_bucket(depth, h);
            let x = slot_of::<H, F>(h, depth);
            if x != i && self.bitmap.has(x) {
                assert(new.bitmap.has(x));
            }
        }
    }
}

/// A copy of `nodes` with `node` at place `at`.
fn copy_with<H, F, K, V, M>(nodes: &Vec<MNode<H, F, K, V, M>>, at: usize, node: MNode<
    H,
    F,
    K,
    V,
    M,
>) -> (r: Vec<MNode<H, F, K, V, M>>)
    requires
        at < nodes.len(),
    ensures
        r@ == nodes@.update(at as int, node),
{
    let mut r: Vec<MNode<H, F, K, V, M>> = Vec::new();
    let mut i: usize = 0;
    while i < at
        invariant
            at < nodes.len(),
            i <= at,
            r@ == nodes@.subrange(0, i as int),
        decreases at - i,
    {
        r.push(nodes[i].share());
        i = i + 1;
        assert(r@ =~= nodes@.subrange(0, i as int));
    }
    r.push(node);
    i = i + 1;
    assert(r@ =~= nodes@.update(at as int, node).subrange(0, i as int));
    while i < nodes.len()
        invariant
            at < i <= nodes.len(),
            r@ == nodes@.update(at as int, node).subrange(0, i as int),
        decreases nodes.len() - i,
    {
        r.push(nodes[i].share());
        i = i + 1;
        assert(r@ =~= nodes@.update(at as int, node).subrange(0, i as int));
    }
    assert(r@ =~= nodes@.update(at as int, node));
    r
}

/// A copy of `nodes` with `node` put in at place `at`.
fn copy_with_more<H, F, K, V, M>(nodes: &Vec<MNode<H, F, K, V, M>>, at: usize, node: MNode<
    H,
    F,
    K,
    V,
    M,
>) -> (r: Vec<MNode<H, F, K, V, M>>)
    requires
        at <= nodes.len(),
    ensures
        r@ == nodes@.insert(at as int, node),
{
    let mut r: Vec<MNode<H, F, K, V, M>> = Vec::new();
    let mut i: usize = 0;
    while i < at
        invariant
            at <= nodes.len(),
            i <= at,
            r@ == nodes@.subrange(0, i as int),
        decreases at - i,
    {
        r.push(nodes[i].share());
        i = i + 1;
        assert(r@ =~= nodes@.subrange(0, i as int));
    }
    r.push(node);
    assert(r@ =~= nodes@.insert(at as int, node).subrange(0, i + 1));
    while i < nodes.len()
        invariant
            at <= i <= nodes.len(),
            r@ == nodes@.insert(at as int, node).subrange(0, i + 1),
        decreases nodes.len() - i,
    {
        r.push(nodes[i].share());
        i = i + 1;
        assert(r@ =~= nodes@.insert(at as int, node).subrange(0, i + 1));
    }
    assert(r@ =~= nodes@.insert(at as int, node));
    r
}

/// A copy of `nodes` without the node at place `at`.
fn copy_without<H, F, K, V, M>(nodes: &Vec<MNode<H, F, K, V, M>>, at: usize) -> (r: Vec<
    MNode<H, F, K, V, M>,
>)
    requires
        at < nodes.len(),
    ensures
        r@ == nodes@.remove(at as int),
{
    let mut r: Vec<MNode<H, F, K, V, M>> = Vec::new();
    let mut i: usize = 0;
    while i < at
        invariant
            at < nodes.len(),
            i <= at,
            r@ == nodes@.subrange(0, i as int),
        decreases at - i,
    {
        r.push(nodes[i].share());
        i = i + 1;
        assert(r@ =~= nodes@.subrange(0, i as int));
    }
    i = i + 1;
    assert(r@ =~= nodes@.remove(at as int).subrange(0, i - 1));
    while i < nodes.len()
        invariant
            at < i <= nodes.len(),
            r@ == nodes@.remove(at as int).subrange(0, i - 1),
        decreases nodes.len() - i,
    {
        r.push(nodes[i].share());
        i = i + 1;
        assert(r@ =~= nodes@.remove(at as int).subrange(0, i - 1));
    }
    assert(r@ =~= nodes@.remove(at as int));
    r
}

/// Whether `bitmap` holds the slot of `flag`, and the place that the child
/// of that slot has, or would have, in the child array: the number of slots
/// of `bitmap` below it.
pub fn place<H: Hashword, F: Flagword>(bitmap: F, flag: &Flag<H, F>) -> (r: (bool, usize))
    ensures
        r.0 == bitmap.has(slot_of::<H, F>(flag.hash_spec(), flag.depth_spec())),
        r.1 == rank(bitmap, slot_of::<H, F>(flag.hash_spec(), flag.depth_spec())),
        r.1 <= rank(bitmap, fan::<F>()),
        r.0 ==> r.1 < rank(bitmap, fan::<F>()),
        slot_of::<H, F>(flag.hash_spec(), flag.depth_spec()) < fan::<F>(),
{
    let index = flag.index();
    let mask = flag.mask();
    let lower = bitmap.intersect(F::below(index));
    let hit = bitmap.intersect(mask);
    let present = !hit.is_empty();
    proof {
        let i = index as nat;
        lemma_rank_cut(bitmap, lower, i, fan::<F>());
        lemma_rank_mono(bitmap, i, fan::<F>());
        if bitmap.has(i) {
            assert(hit.has(i));
            lemma_rank_strict(bitmap, i, fan::<F>());
        }
    }
    (present, lower.count())
}

/// The branch for level `this_flag.depth()` that holds the two leaves `this`
/// and `other`, whose hashes differ.
///
/// Where the two hashes select different slots the leaves are its two
/// children, in the order of their slots. Where they select the same slot
/// its one child is the branch that holds them one level down.
pub fn lift_to_cnode_and_insert<H: Hashword, F: Flagword, K: Key, V: Value, M: HasherBv<H, K>>(
    this: MNode<H, F, K, V, M>,
    this_flag: Flag<H, F>,
    other: MNode<H, F, K, V, M>,
    other_flag: Flag<H, F>,
) -> (cnode: Arc<CNode<H, F, K, V, M>>)
    requires
        this !is C,
        other !is C,
        this.wf(0),
        other.wf(0),
        all_hash::<H, K, V, M>(this.entries(), this_flag.hash_spec()),
        all_hash::<H, K, V, M>(other.entries(), other_flag.hash_spec()),
        this_flag.hash_spec() != other_flag.hash_spec(),
        this_flag.depth_spec() == other_flag.depth_spec(),
        agree(
            this_flag.hash_spec(),
            other_flag.hash_spec(),
            this_flag.depth_spec() * F::log_width(),
        ),
        this.entries().len() + other.entries().len() <= usize::MAX,
    ensures
        cnode.wf(this_flag.depth_spec()),
        cnode.entries() == this.entries() + other.entries() || cnode.entries() == other.entries()
            + this.entries(),
    decreases H::width() - this_flag.depth_spec() * F::log_width(),
{
    let ghost depth = this_flag.depth_spec();
    let ghost th = this_flag.hash_spec();
    let ghost oh = other_flag.hash_spec();
    let ghost te = this.entries();
    let ghost oe = other.entries();
    let ti = this_flag.index();
    let oi = other_flag.index();
    let d = this_flag.depth();
    proof {
        this.lemma_count(0);
        other.lemma_count(0);
        F::lemma_log_width();
        assert((depth + 1) * F::log_width() == depth * F::log_width() + F::log_width())
            by (nonlinear_arith);
    }
    let size = this.size() + other.size();
    let tm = this_flag.mask();
    let om = other_flag.mask();
    if ti == oi {
        proof {
            lemma_agree_step(th, oh, depth * F::log_width(), F::log_width());
            if !fits::<H, F>(depth + 1) {
                lemma_agree_all(th, oh, (depth + 1) * F::log_width());
            }
        }
        let tn = this_flag.next();
        let on = other_flag.next();
        let child = lift_to_cnode_and_insert(this, tn.unwrap(), other, on.unwrap());
        let ghost ce = child.entries();
        let node = MNode::C(child);
        let mut nodes = Vec::new();
        nodes.push(node);
        let cnode = CNode { bitmap: tm, nodes, size, marker: PhantomData };
        proof {
            assert(cnode.nodes@ =~= seq![node]);
            lemma_flat_small(node, node);
            lemma_rank_bit(tm, ti as nat, fan::<F>());
            lemma_rank_bit(tm, ti as nat, ti as nat);
            assert forall|i: nat| #[trigger] cnode.bitmap.has(i) implies slotted::<H, F, K, V, M>(
                cnode.nodes@[rank(cnode.bitmap, i) as int].entries(),
                depth,
                i,
            ) by {
                assert forall|x: int| 0 <= x < ce.len() implies slot_of::<H, F>(
                    M::spec_hash(#[trigger] ce[x].0),
                    depth,
                ) == i by {
                    if ce == te + oe {
                        if x < te.len() {
                            assert(ce[x] == te[x]);
                        } else {
                            assert(ce[x] == oe[x - te.len()]);
                        }
                    } else {
                        if x < oe.len() {
                            assert(ce[x] == oe[x]);
                        } else {
                            assert(ce[x] == te[x - oe.len()]);
                        }
                    }
                }
            }
        }
        Arc::new(cnode)
    } else {
        let bitmap = tm.union(om);
        let mut nodes = Vec::new();
        let ghost first = if ti < oi {
            this
        } else {
            other
        };
        let ghost second = if ti < oi {
            other
        } else {
            this
        };
        if ti < oi {
            nodes.push(this);
            nodes.push(other);
        } else {
            nodes.push(other);
            nodes.push(this);
        }
        let cnode = CNode { bitmap, nodes, size, marker: PhantomData };
        proof {
            assert(cnode.nodes@ =~= seq![first, second]);
            lemma_flat_small(first, second);
            lemma_rank_bit(tm, ti as nat, fan::<F>());
            lemma_rank_bit(tm, ti as nat, ti as nat);
            lemma_rank_bit(tm, ti as nat, oi as nat);
            lemma_rank_with(tm, bitmap, oi as nat, fan::<F>());
            lemma_rank_with(tm, bitmap, oi as nat, ti as nat);
            lemma_rank_with(tm, bitmap, oi as nat, oi as nat);
            assert forall|i: nat| #[trigger] cnode.bitmap.has(i) implies slotted::<H, F, K, V, M>(
                cnode.nodes@[rank(cnode.bitmap, i) as int].entries(),
                depth,
                i,
            ) by {
                assert(i == ti || i == oi);
            }
        }
        Arc::new(cnode)
    }
}

/// Looks `key` up below the branch: in the child of the slot that the
/// key's hash selects, if the branch has one.
pub fn find<'a, H: Hashword, F: Flagword, K: Key, V: Value, M: HasherBv<H, K>>(
    this: &'a Arc<CNode<H, F, K, V, M>>,
    key: &K,
    flag: Flag<H, F>,
) -> (r: FindResult<'a, K, V>)
    requires
        this.wf(flag.depth_spec()),
        flag.hash_spec() == M::spec_hash(*key),
    ensures
        r.entry() == lookup(this.entries(), *key),
    decreases this,
{
    let ghost depth = flag.depth_spec();
    proof {
        this.lemma_bucket(depth, flag.hash_spec());
        lemma_lookup_bucket::<H, K, V, M>(this.entries(), *key);
    }
    let (present, idx) = place(this.bitmap, &flag);
    if present {
        let d = flag.depth();
        let child = &this.nodes[idx];
        proof {
            lemma_lookup_bucket::<H, K, V, M>(child.entries(), *key);
        }
        child.find(key, flag.hash_value(), d + 1)
    } else {
        FindResult::NotFound
    }
}

/// Inserts `(key, value)` below the branch.
///
/// Where the slot of the key's hash is free, the new entry becomes the
/// child of that slot. Otherwise it is inserted into the child of the slot,
/// and what comes back takes the child's place.
pub fn insert<'a, H: Hashword, F: Flagword, K: Key, V: Value, M: HasherBv<H, K>>(
    this: &'a Arc<CNode<H, F, K, V, M>>,
    key: K,
    value: V,
    flag: Flag<H, F>,
    replace: bool,
) -> (r: InsertResult<'a, H, F, K, V, M>)
    requires
        this.wf(flag.depth_spec()),
        flag.hash_spec() == M::spec_hash(key),
        within::<H, F, K, V, M>(this.entries(), flag.hash_spec(), flag.depth_spec()),
        this.entries().len() < usize::MAX,
    ensures
        inserted(
            MNode::C(*this),
            flag.depth_spec(),
            key,
            value,
            replace,
            r.found(),
            r.prev(),
            r.node(),
        ),
    decreases this,
{
    let ghost depth = flag.depth_spec();
    let ghost hash = flag.hash_spec();
    let ghost slot = slot_of::<H, F>(hash, depth);
    let ghost old = this.entries();
    proof {
        this.lemma_bucket(depth, hash);
        lemma_lookup_bucket::<H, K, V, M>(old, key);
    }
    let (present, idx) = place(this.bitmap, &flag);
    if !present {
        let node = MNode::S(SNode::new(key, value));
        let ghost gnode = node;
        let nodes = copy_with_more(&this.nodes, idx, node);
        let cnode = CNode {
            bitmap: this.bitmap.union(flag.mask()),
            nodes,
            size: this.size + 1,
            marker: PhantomData,
        };
        proof {
            assert(gnode.entries() =~= seq![(key, value)]);
            this.lemma_added(&cnode, depth, slot, gnode);
            let single = seq![(key, value)];
            lemma_bucket_all::<H, K, V, M>(single, hash);
            assert(without(Seq::<(K, V)>::empty(), key) =~= Seq::<(K, V)>::empty());
            assert(single + Seq::<(K, V)>::empty() =~= single);
            assert forall|h: H| #[trigger]
                bucket::<H, K, V, M>(cnode.entries(), h) == if h == M::spec_hash(key) {
                    seq![(key, value)] + without(bucket::<H, K, V, M>(old, h), key)
                } else {
                    bucket::<H, K, V, M>(old, h)
                } by {
                if slot_of::<H, F>(h, depth) == slot {
                    assert(bucket::<H, K, V, M>(old, h) == Seq::<(K, V)>::empty());
                }
            }
        }
        InsertResult::InsertedC(Arc::new(cnode), None)
    } else {
        let d = flag.depth();
        let child = &this.nodes[idx];
        let ghost ce = child.entries();
        proof {
            this.lemma_child_within(depth, hash);
            this.lemma_child(idx as int);
            child.lemma_count(depth + 1);
            lemma_lookup_bucket::<H, K, V, M>(ce, key);
        }
        let (node, prev) = match child.insert(key, value, flag.hash_value(), d + 1, replace) {
            InsertResult::Found(k, v) => {
                return InsertResult::Found(k, v);
            },
            InsertResult::InsertedC(cnode, prev) => (MNode::C(cnode), prev),
            InsertResult::InsertedL(lnode, prev) => (MNode::L(lnode), prev),
            InsertResult::InsertedS(snode, prev) => (MNode::S(snode), prev),
        };
        let ghost gnode = node;
        let size = if prev.is_none() {
            this.size + 1
        } else {
            this.size
        };
        let nodes = copy_with(&this.nodes, idx, node);
        let cnode = CNode { bitmap: this.bitmap, nodes, size, marker: PhantomData };
        proof {
            lemma_put::<H, K, V, M>(ce, gnode.entries(), key, value);
            assert forall|x: int| 0 <= x < gnode.entries().len() implies slot_of::<H, F>(
                M::spec_hash(#[trigger] gnode.entries()[x].0),
                depth,
            ) == slot by {
                let e = gnode.entries()[x];
                if e != (key, value) {
                    assert(ce.contains(e));
                }
            }
            this.lemma_updated(&cnode, depth, slot, gnode);
            assert forall|h: H| #[trigger]
                bucket::<H, K, V, M>(cnode.entries(), h) == if h == M::spec_hash(key) {
                    seq![(key, value)] + without(bucket::<H, K, V, M>(old, h), key)
                } else {
                    bucket::<H, K, V, M>(old, h)
                } by {
                this.lemma_bucket(depth, h);
            }
        }
        InsertResult::InsertedC(Arc::new(cnode), prev)
    }
}

/// Removes `key` from below the branch.
///
/// The key is removed from the child of the slot that its hash selects. A
/// child that is left empty leaves the branch. A branch below the root that
/// is left with a single leaf gives way to that leaf, and a branch that is
/// left with nothing is gone.
pub fn remove<'a, H: Hashword, F: Flagword, K: Key, V: Value, M: HasherBv<H, K>>(
    this: &'a Arc<CNode<H, F, K, V, M>>,
    key: &K,
    flag: Flag<H, F>,
) -> (r: RemoveResult<'a, H, F, K, V, M>)
    requires
        this.wf(flag.depth_spec()),
        flag.hash_spec() == M::spec_hash(*key),
    ensures
        removed(MNode::C(*this), flag.depth_spec(), *key, r.entry(), r.node()),
    decreases this,
{
    let ghost depth = flag.depth_spec();
    let ghost hash = flag.hash_spec();
    let ghost slot = slot_of::<H, F>(hash, depth);
    let ghost old = this.entries();
    proof {
        this.lemma_bucket(depth, hash);
        lemma_lookup_bucket::<H, K, V, M>(old, *key);
    }
    let (present, idx) = place(this.bitmap, &flag);
    if !present {
        return RemoveResult::NotFound;
    }
    let d = flag.depth();
    let child = &this.nodes[idx];
    let ghost ce = child.entries();
    proof {
        this.lemma_child(idx as int);
        child.lemma_count(depth + 1);
        lemma_lookup_bucket::<H, K, V, M>(ce, *key);
    }
    let (node, k, v) = match child.remove(key, flag.hash_value(), d + 1) {
        RemoveResult::NotFound => {
            return RemoveResult::NotFound;
        },
        RemoveResult::RemovedZ(k, v) => {
            proof {
                assert(ce =~= seq![ce[0]]);
                lemma_single(ce[0], *key);
            }
            if this.nodes.len() == 1 {
                proof {
                    assert(this.nodes@ =~= seq![*child]);
                    lemma_flat_small(*child, *child);
                }
                return RemoveResult::RemovedZ(k, v);
            }
            if this.nodes.len() == 2 && d > 0 {
                let other = &this.nodes[1 - idx];
                let ghost oe = other.entries();
                proof {
                    let a = this.nodes@[0];
                    let b = this.nodes@[1];
                    assert(this.nodes@ =~= seq![a, b]);
                    lemma_flat_small(a, b);
                    assert forall|h: H| #[trigger]
                        bucket::<H, K, V, M>(oe, h) == if h == M::spec_hash(*key) {
                            without(bucket::<H, K, V, M>(old, h), *key)
                        } else {
                            bucket::<H, K, V, M>(old, h)
                        } by {
                        lemma_bucket_add::<H, K, V, M>(a.entries(), b.entries(), h);
                        lemma_bucket_all::<H, K, V, M>(ce, hash);
                        let e = Seq::<(K, V)>::empty();
                        assert(oe + e =~= oe);
                        assert(e + oe =~= oe);
                        assert(bucket::<H, K, V, M>(oe, h) + e =~= bucket::<H, K, V, M>(oe, h));
                        assert(e + bucket::<H, K, V, M>(oe, h) =~= bucket::<H, K, V, M>(oe, h));
                        if h == hash {
                            this.lemma_elsewhere(depth, h, 1 - idx);
                            assert(e + ce =~= ce);
                            assert(ce + e =~= ce);
                        }
                    }
                }
                match other {
                    MNode::L(lnode) => {
                        return RemoveResult::RemovedL(share(lnode), k, v);
                    },
                    MNode::S(snode) => {
                        return RemoveResult::RemovedS(share(snode), k, v);
                    },
                    MNode::C(_) => {},
                }
            }
            let nodes = copy_without(&this.nodes, idx);
            let cnode = CNode {
                bitmap: this.bitmap.minus(flag.mask()),
                nodes,
                size: this.size - 1,
                marker: PhantomData,
            };
            proof {
                this.lemma_dropped(&cnode, depth, slot);
                assert forall|h: H| #[trigger]
                    bucket::<H, K, V, M>(cnode.entries(), h) == if h == M::spec_hash(*key) {
                        without(bucket::<H, K, V, M>(old, h), *key)
                    } else {
                        bucket::<H, K, V, M>(old, h)
                    } by {
                    this.lemma_bucket(depth, h);
                    if slot_of::<H, F>(h, depth) == slot {
                        if h != hash {
                            lemma_bucket_none::<H, K, V, M>(ce, h);
                        } else {
                            lemma_bucket_all::<H, K, V, M>(ce, hash);
                        }
                    }
                }
            }
            return RemoveResult::RemovedC(Arc::new(cnode), k, v);
        },
        RemoveResult::RemovedC(cnode, k, v) => (MNode::C(cnode), k, v),
        RemoveResult::RemovedL(lnode, k, v) => {
            if this.nodes.len() == 1 && d > 0 {
                proof {
                    assert(this.nodes@ =~= seq![*child]);
                    lemma_flat_small(*child, *child);
                }
                return RemoveResult::RemovedL(lnode, k, v);
            }
            (MNode::L(lnode), k, v)
        },
        RemoveResult::RemovedS(snode, k, v) => {
            if this.nodes.len() == 1 && d > 0 {
                proof {
                    assert(this.nodes@ =~= seq![*child]);
                    lemma_flat_small(*child, *child);
                }
                return RemoveResult::RemovedS(snode, k, v);
            }
            (MNode::S(snode), k, v)
        },
    };
    let ghost gnode = node;
    let nodes = copy_with(&this.nodes, idx, node);
    let cnode = CNode { bitmap: this.bitmap, nodes, size: this.size - 1, marker: PhantomData };
    proof {
        gnode.lemma_count(depth + 1);
        lemma_took::<H, K, V, M>(ce, gnode.entries(), *key);
        assert forall|x: int| 0 <= x < gnode.entries().len() implies slot_of::<H, F>(
            M::spec_hash(#[trigger] gnode.entries()[x].0),
            depth,
        ) == slot by {
            assert(ce.contains(gnode.entries()[x]));
        }
        this.lemma_updated(&cnode, depth, slot, gnode);
        assert forall|h: H| #[trigger]
            bucket::<H, K, V, M>(cnode.entries(), h) == if h == M::spec_hash(*key) {
                without(bucket::<H, K, V, M>(old, h), *key)
            } else {
                bucket::<H, K, V, M>(old, h)
            } by {
            this.lemma_bucket(depth, h);
        }
    }
    RemoveResult::RemovedC(Arc::new(cnode), k, v)
}

/// Calls `op` on every entry below the branch, child after child.
pub fn visit<H: Hashword, F: Flagword, K: Key, V: Value, M: HasherBv<H, K>, Op: Fn(&K, &V)>(
    this: &Arc<CNode<H, F, K, V, M>>,
    op: &Op,
)
    requires
        ready(op, this.entries()),
    ensures
        visited(op, this.entries()),
    decreases this,
{
    let mut j: usize = 0;
    while j < this.nodes.len()
        invariant
            j <= this.nodes.len(),
            ready(op, this.entries()),
            visited(op, flat(this.nodes@, j as nat)),
        decreases this.nodes.len() - j,
    {
        let child = &this.nodes[j];
        proof {
            this.lemma_child(j as int);
            assert forall|i: int| 0 <= i < child.entries().len() implies op.requires(
                (&(#[trigger] child.entries()[i]).0, &child.entries()[i].1),
            ) by {
                assert(this.entries().contains(child.entries()[i]));
            }
        }
        child.visit(op);
        proof {
            let front = flat(this.nodes@, j as nat);
            let more = flat(this.nodes@, (j + 1) as nat);
            assert forall|i: int| 0 <= i < more.len() implies op.ensures(
                (&(#[trigger] more[i]).0, &more[i].1),
                (),
            ) by {
                if i >= front.len() {
                    assert(more[i] == child.entries()[i - front.len()]);
                } else {
                    assert(more[i] == front[i]);
                }
            }
        }
        j = j + 1;
    }
}

/// A branch under construction: the children of the slots that were
/// filled so far, in the order of the slots.
pub struct Builder<H, F, K, V, M> {
    pub bitmap: F,
    pub nodes: Vec<MNode<H, F, K, V, M>>,
    pub size: usize,
    pub marker: PhantomData<(H, M)>,
}

impl<H: Hashword, F: Flagword, K: Key, V: Value, M: HasherBv<H, K>> Builder<H, F, K, V, M> {
    /// The entries below the children that were added, child after child.
    pub open spec fn entries(&self) -> Seq<(K, V)> {
        flat(self.nodes@, self.nodes@.len())
    }

    /// Whether the builder holds children for slots below `limit` that could
    /// be the children of a branch of level `depth`.
    pub open spec fn wf(&self, depth: nat, limit: nat) -> bool {
        &&& fits::<H, F>(depth)
        &&& self.nodes@.len() == rank(self.bitmap, fan::<F>())
        &&& self.size == self.entries().len()
        &&& forall|i: nat| #[trigger] self.bitmap.has(i) ==> i < limit
        &&& forall|j: int|
            0 <= j < self.nodes@.len() ==> (#[trigger] self.nodes@[j]).wf(depth + 1)
                && self.nodes@[j].entries().len() > 0
        &&& forall|i: nat| #[trigger]
            self.bitmap.has(i) ==> slotted::<H, F, K, V, M>(
                self.nodes@[rank(self.bitmap, i) as int].entries(),
                depth,
                i,
            )
    }

    /// A builder without children.
    pub fn new(Ghost(depth): Ghost<nat>) -> (b: Self)
        requires
            fits::<H, F>(depth),
        ensures
            b.wf(depth, 0),
            b.nodes@.len() == 0,
            b.entries() == Seq::<(K, V)>::empty(),
    {
        let bitmap = F::empty();
        proof {
            lemma_rank_empty(bitmap, fan::<F>());
        }
        Builder { bitmap, nodes: Vec::new(), size: 0, marker: PhantomData }
    }

    /// Adds `node` as the child of slot `slot`, which is above the slots
    /// that were filled before.
    pub fn push(&mut self, slot: u8, node: MNode<H, F, K, V, M>, Ghost(depth): Ghost<nat>)
        requires
            old(self).wf(depth, slot as nat),
            slot < fan::<F>(),
            node.wf(depth + 1),
            node.entries().len() > 0,
            slotted::<H, F, K, V, M>(node.entries(), depth, slot as nat),
            old(self).size + node.entries().len() <= usize::MAX,
        ensures
            final(self).wf(depth, slot as nat + 1),
            final(self).nodes@ == old(self).nodes@.push(node),
            final(self).entries() == old(self).entries() + node.entries(),
    {
        let ghost before = *self;
        let ghost gnode = node;
        proof {
            node.lemma_count(depth + 1);
            lemma_flat_push(self.nodes@, node);
        }
        let mask = F::bit(slot);
        self.bitmap = self.bitmap.union(mask);
        self.size = self.size + node.size();
        self.nodes.push(node);
        proof {
            let k = slot as nat;
            lemma_rank_with(before.bitmap, self.bitmap, k, fan::<F>());
            assert forall|i: nat| #[trigger] self.bitmap.has(i) implies slotted::<H, F, K, V, M>(
                self.nodes@[rank(self.bitmap, i) as int].entries(),
                depth,
                i,
            ) by {
                lemma_rank_with(before.bitmap, self.bitmap, k, i);
                if i == k {
                    lemma_rank_cut(before.bitmap, before.bitmap, k, fan::<F>());
                } else {
                    lemma_slot_at_rank(before.bitmap, i);
                }
            }
        }
    }

    /// The node that the children make at level `depth`: nothing where
    /// there are none, the child itself where it is a single leaf below the
    /// root, and else the branch that holds them.
    pub fn finish(self, depth: usize) -> (r: Option<MNode<H, F, K, V, M>>)
        requires
            self.wf(depth as nat, fan::<F>()),
        ensures
            r.is_none() <==> self.nodes@.len() == 0,
            r matches Some(node) ==> node.wf(depth as nat) && node.entries() == self.entries()
                && node.entries().len() > 0 && (depth == 0 ==> node is C),
    {
        let mut nodes = self.nodes;
        if nodes.len() == 0 {
            return None;
        }
        proof {
            lemma_flat_mono(nodes@, 1, nodes@.len());
            assert(flat(nodes@, 1).len() >= nodes@[0].entries().len());
        }
        if nodes.len() == 1 && depth > 0 {
            let leaf = match &nodes[0] {
                MNode::C(_) => false,
                _ => true,
            };
            if leaf {
                let ghost only = nodes@[0];
                proof {
                    assert(nodes@ =~= seq![only]);
                    lemma_flat_small(only, only);
                    only.lemma_count(depth as nat + 1);
                }
                let node = nodes.pop().unwrap();
                return Some(node);
            }
        }
        Some(
            MNode::C(
                Arc::new(
                    CNode { bitmap: self.bitmap, nodes, size: self.size, marker: PhantomData },
                ),
            ),
        )
    }
}

/// Whether the builder, the answers and the share are what the
/// transformation of the first `j` children of `this` gives.
pub open spec fn transforming<
    H: Hashword,
    F: Flagword,
    K: Key,
    V: Value,
    M: HasherBv<H, K>,
    R: Default,
    Re: Fn(&R, &R) -> R,
    Op: Fn(&K, &V) -> MapTransformResult<V, R>,
>(
    this: &CNode<H, F, K, V, M>,
    depth: nat,
    reduce_op: &Re,
    op: &Op,
    j: nat,
    limit: nat,
    builder: &Builder<H, F, K, V, M>,
    rs: Seq<MapTransformResult<V, R>>,
    changed: bool,
    acc: R,
) -> bool {
    &&& j <= this.nodes@.len()
    &&& builder.wf(depth, limit)
    &&& builder.entries() == transformed(flat(this.nodes@, j), rs)
    &&& answers(op, flat(this.nodes@, j), rs)
    &&& changed <==> !unchanged(rs)
    &&& reduces_all(this.nodes@, j, reduce_op, transform_shares(rs), acc)
}

/// What one child adds to the transformation of a branch: the answers, what
/// is left of the entries, and what comes of the shares.
proof fn lemma_transform_step<
    H: Hashword,
    F: Slots,
    K,
    V,
    M: HasherBv<H, K>,
    R: Default,
    Re: Fn(&R, &R) -> R,
    Op: Fn(&K, &V) -> MapTransformResult<V, R>,
>(
    nodes: Seq<MNode<H, F, K, V, M>>,
    j: nat,
    reduce_op: &Re,
    op: &Op,
    ra: Seq<MapTransformResult<V, R>>,
    rc: Seq<MapTransformResult<V, R>>,
    before: R,
    last: R,
    out: R,
)
    requires
        j < nodes.len(),
        answers(op, flat(nodes, j), ra),
        answers(op, nodes[j as int].entries(), rc),
        reduces_all(nodes, j, reduce_op, transform_shares(ra), before),
        nodes[j as int].reduces(reduce_op, transform_shares(rc), last),
        reduce_op.ensures((&before, &last), out),
    ensures
        answers(op, flat(nodes, j + 1), ra + rc),
        transformed(flat(nodes, j + 1), ra + rc) == transformed(flat(nodes, j), ra) + transformed(
            nodes[j as int].entries(),
            rc,
        ),
        unchanged(ra + rc) <==> unchanged(ra) && unchanged(rc),
        reduces_all(nodes, j + 1, reduce_op, transform_shares(ra + rc), out),
{
    let front = flat(nodes, j);
    let ce = nodes[j as int].entries();
    lemma_answers_add(op, front, ra, ce, rc);
    lemma_transformed_add(front, ra, ce, rc);
    lemma_unchanged_add(ra, rc);
    let shares = transform_shares(ra + rc);
    assert(shares.subrange(0, shares.len() - ce.len()) =~= transform_shares(ra));
    assert(shares.subrange(shares.len() - ce.len(), shares.len() as int) =~= transform_shares(rc));
}

/// Transforms the child at place `j`, the child of slot `slot`, and adds
/// what is left of it to the builder.
fn transform_child<
    H: Hashword,
    F: Flagword,
    K: Key,
    V: Value,
    M: HasherBv<H, K>,
    R: Default,
    Re: Fn(&R, &R) -> R,
    Op: Fn(&K, &V) -> MapTransformResult<V, R>,
>(
    this: &Arc<CNode<H, F, K, V, M>>,
    reduce_op: &Re,
    op: &Op,
    depth: usize,
    j: usize,
    slot: u8,
    builder: &mut Builder<H, F, K, V, M>,
    changed: bool,
    acc: R,
    Ghost(rs): Ghost<Seq<MapTransformResult<V, R>>>,
) -> (r: (bool, R, Ghost<Seq<MapTransformResult<V, R>>>))
    requires
        this.wf(depth as nat),
        ready(op, this.entries()),
        combines(reduce_op),
        this.bitmap.has(slot as nat),
        j == rank(this.bitmap, slot as nat),
        transforming(
            &**this,
            depth as nat,
            reduce_op,
            op,
            j as nat,
            slot as nat,
            old(builder),
            rs,
            changed,
            acc,
        ),
    ensures
        j < this.nodes@.len(),
        transforming(
            &**this,
            depth as nat,
            reduce_op,
            op,
            (j + 1) as nat,
            (slot + 1) as nat,
            final(builder),
            r.2@,
            r.0,
            r.1,
        ),
    decreases this, 0nat,
{
    let ghost d = depth as nat;
    let ghost nodes = this.nodes@;
    proof {
        lemma_fits::<H, F>(d);
        lemma_slot_at_rank(this.bitmap, slot as nat);
        this.bitmap.lemma_has(slot as nat);
    }
    let child = &this.nodes[j];
    let ghost ce = child.entries();
    proof {
        this.lemma_child(j as int);
        lemma_flat_mono(nodes, (j + 1) as nat, nodes.len());
        assert forall|x: int| 0 <= x < ce.len() implies op.requires(
            (&(#[trigger] ce[x]).0, &ce[x].1),
        ) by {
            assert(this.entries().contains(ce[x]));
        }
    }
    let result = child.transform(reduce_op, op, depth + 1);
    let ghost rc = choose|rc: Seq<MapTransformResult<V, R>>| #[trigger]
        transformed_node(*child, d + 1, reduce_op, op, rc, result);
    proof {
        lemma_transformed(ce, rc);
        lemma_transformed(flat(nodes, j as nat), rs);
        let t = transformed(ce, rc);
        assert forall|x: int| 0 <= x < t.len() implies slot_of::<H, F>(
            M::spec_hash(#[trigger] t[x].0),
            d,
        ) == slot by {
            let y = choose|y: int| 0 <= y < ce.len() && (#[trigger] ce[y]).0 == t[x].0;
            assert(slot_of::<H, F>(M::spec_hash(ce[y].0), d) == slot);
        }
    }
    let (node, share, differs) = result.split(child);
    match node {
        Some(node) => {
            builder.push(slot, node, Ghost(d));
        },
        None => {
            proof {
                assert(builder.entries() + transformed(ce, rc) =~= builder.entries());
            }
        },
    }
    let out = reduce_op(&acc, &share);
    proof {
        lemma_transform_step(nodes, j as nat, reduce_op, op, rs, rc, acc, share, out);
    }
    (changed || differs, out, Ghost(rs + rc))
}

/// Transforms every entry below the branch, which stands at level `depth`,
/// with `op`, child after child, and combines what comes of the children
/// with `reduce_op`, starting from the default share.
///
/// Where no entry changed the result says so. Otherwise the children that
/// are left make the new node: nothing where none is left, the child itself
/// where it is a single leaf below the root, and else a branch.
pub fn transform<
    H: Hashword,
    F: Flagword,
    K: Key,
    V: Value,
    M: HasherBv<H, K>,
    R: Default,
    Re: Fn(&R, &R) -> R,
    Op: Fn(&K, &V) -> MapTransformResult<V, R>,
>(this: &Arc<CNode<H, F, K, V, M>>, reduce_op: &Re, op: &Op, depth: usize) -> (r:
    MNodeTransformResult<H, F, K, V, M, R>)
    requires
        this.wf(depth as nat),
        ready(op, this.entries()),
        combines(reduce_op),
    ensures
        exists|rs: Seq<MapTransformResult<V, R>>| #[trigger]
            transformed_node(MNode::C(*this), depth as nat, reduce_op, op, rs, r),
    decreases this, 1nat,
{
    let ghost d = depth as nat;
    let mut builder = Builder::<H, F, K, V, M>::new(Ghost(d));
    let mut acc = R::default();
    let mut changed = false;
    let mut j: usize = 0;
    let mut i: u8 = 0;
    let ghost mut rs: Seq<MapTransformResult<V, R>> = Seq::empty();
    let slots = F::slots();
    proof {
        assert(transform_shares(rs) =~= Seq::<R>::empty());
        assert(transformed(flat(this.nodes@, 0), rs) =~= Seq::<(K, V)>::empty());
    }
    while i < slots
        invariant
            slots == fan::<F>(),
            d == depth,
            this.wf(d),
            ready(op, this.entries()),
            combines(reduce_op),
            i <= slots,
            j == rank(this.bitmap, i as nat),
            transforming(&**this, d, reduce_op, op, j as nat, i as nat, &builder, rs, changed, acc),
        decreases slots - i,
    {
        if !this.bitmap.intersect(F::bit(i)).is_empty() {
            let step = transform_child(
                this,
                reduce_op,
                op,
                depth,
                j,
                i,
                &mut builder,
                changed,
                acc,
                Ghost(rs),
            );
            changed = step.0;
            acc = step.1;
            proof {
                rs = step.2@;
            }
            assert(j < this.nodes.len());
            j = j + 1;
        }
        i = i + 1;
    }
    proof {
        lemma_rank_mono(this.bitmap, i as nat, fan::<F>());
        assert(flat(this.nodes@, j as nat) == this.entries());
    }
    if !changed {
        let r = MNodeTransformResult::Unchanged(acc);
        proof {
            lemma_transformed(this.entries(), rs);
            assert(transformed_node(MNode::C(*this), d, reduce_op, op, rs, r));
        }
        return r;
    }
    let r = match builder.finish(depth) {
        None => MNodeTransformResult::Removed(acc),
        Some(MNode::C(cnode)) => MNodeTransformResult::C(cnode, acc),
        Some(MNode::L(lnode)) => MNodeTransformResult::L(lnode, acc),
        Some(MNode::S(snode)) => MNodeTransformResult::S(snode, acc),
    };
    proof {
        assert(transformed_node(MNode::C(*this), d, reduce_op, op, rs, r));
    }
    r
}

/// Whether the builder, the answers and the share are what the
/// transmutation of the first `j` children of `this` gives.
pub open spec fn transmuting<
    H: Hashword,
    F: Flagword,
    K: Key,
    V: Value,
    S: Key,
    X: Value,
    M: HasherBv<H, K> + HasherBv<H, S>,
    R: Default,
    Re: Fn(&R, &R) -> R,
    Op: Fn(&K, &V) -> MapTransmuteResult<S, X, R>,
>(
    this: &CNode<H, F, K, V, M>,
    depth: nat,
    reduce_op: &Re,
    op: &Op,
    j: nat,
    limit: nat,
    builder: &Builder<H, F, S, X, M>,
    rs: Seq<MapTransmuteResult<S, X, R>>,
    acc: R,
) -> bool {
    &&& j <= this.nodes@.len()
    &&& builder.wf(depth, limit)
    &&& builder.entries() == transmuted(rs)
    &&& builder.entries().len() <= flat(this.nodes@, j).len()
    &&& answers(op, flat(this.nodes@, j), rs)
    &&& reduces_all(this.nodes@, j, reduce_op, transmute_shares(rs), acc)
}

/// What one child adds to the transmutation of a branch: the answers, the
/// entries that they give, and what comes of the shares.
proof fn lemma_transmute_step<
    H: Hashword,
    F: Slots,
    K,
    V,
    S,
    X,
    M: HasherBv<H, K>,
    R: Default,
    Re: Fn(&R, &R) -> R,
    Op: Fn(&K, &V) -> MapTransmuteResult<S, X, R>,
>(
    nodes: Seq<MNode<H, F, K, V, M>>,
    j: nat,
    reduce_op: &Re,
    op: &Op,
    ra: Seq<MapTransmuteResult<S, X, R>>,
    rc: Seq<MapTransmuteResult<S, X, R>>,
    before: R,
    last: R,
    out: R,
)
    requires
        j < nodes.len(),
        answers(op, flat(nodes, j), ra),
        answers(op, nodes[j as int].entries(), rc),
        reduces_all(nodes, j, reduce_op, transmute_shares(ra), before),
        nodes[j as int].reduces(reduce_op, transmute_shares(rc), last),
        reduce_op.ensures((&before, &last), out),
    ensures
        answers(op, flat(nodes, j + 1), ra + rc),
        transmuted(ra + rc) == transmuted(ra) + transmuted(rc),
        reduces_all(nodes, j + 1, reduce_op, transmute_shares(ra + rc), out),
{
    let front = flat(nodes, j);
    let ce = nodes[j as int].entries();
    lemma_answers_add(op, front, ra, ce, rc);
    lemma_transmuted_add(ra, rc);
    let shares = transmute_shares(ra + rc);
    assert(shares.subrange(0, shares.len() - ce.len()) =~= transmute_shares(ra));
    assert(shares.subrange(shares.len() - ce.len(), shares.len() as int) =~= transmute_shares(rc));
}

/// Transmutes the child at place `j`, the child of slot `slot`, and adds
/// what comes of it to the builder.
fn transmute_child<
    H: Hashword,
    F: Flagword,
    K: Key,
    V: Value,
    S: Key,
    X: Value,
    M: HasherBv<H, K> + HasherBv<H, S>,
    R: Default,
    Re: Fn(&R, &R) -> R,
    Op: Fn(&K, &V) -> MapTransmuteResult<S, X, R>,
>(
    this: &Arc<CNode<H, F, K, V, M>>,
    reduce_op: &Re,
    op: &Op,
    depth: usize,
    j: usize,
    slot: u8,
    builder: &mut Builder<H, F, S, X, M>,
    acc: R,
    Ghost(rs): Ghost<Seq<MapTransmuteResult<S, X, R>>>,
) -> (r: (R, Ghost<Seq<MapTransmuteResult<S, X, R>>>))
    requires
        this.wf(depth as nat),
        ready(op, this.entries()),
        combines(reduce_op),
        keeps_hash::<H, K, V, S, X, R, M, Op>(op, this.entries()),
        keeps_apart::<H, K, V, S, X, R, M, Op>(op, this.entries()),
        this.bitmap.has(slot as nat),
        j == rank(this.bitmap, slot as nat),
        transmuting(
            &**this,
            depth as nat,
            reduce_op,
            op,
            j as nat,
            slot as nat,
            old(builder),
            rs,
            acc,
        ),
    ensures
        j < this.nodes@.len(),
        transmuting(
            &**this,
            depth as nat,
            reduce_op,
            op,
            (j + 1) as nat,
            (slot + 1) as nat,
            final(builder),
            r.1@,
            r.0,
        ),
    decreases this, 0nat,
{
    let ghost d = depth as nat;
    let ghost nodes = this.nodes@;
    proof {
        lemma_fits::<H, F>(d);
        lemma_slot_at_rank(this.bitmap, slot as nat);
        this.bitmap.lemma_has(slot as nat);
    }
    let child = &this.nodes[j];
    let ghost ce = child.entries();
    proof {
        this.lemma_child(j as int);
        lemma_flat_mono(nodes, (j + 1) as nat, nodes.len());
        assert forall|x: int| 0 <= x < ce.len() implies op.requires(
            (&(#[trigger] ce[x]).0, &ce[x].1),
        ) by {
            assert(this.entries().contains(ce[x]));
        }
        assert forall|e: (K, V)| ce.contains(e) implies this.entries().contains(e) by {
            let x = choose|x: int| 0 <= x < ce.len() && ce[x] == e;
            assert(this.entries().contains(ce[x]));
        }
    }
    let result = child.transmute(reduce_op, op, depth + 1);
    let ghost rc = choose|rc: Seq<MapTransmuteResult<S, X, R>>| #[trigger]
        transmuted_node(*child, d + 1, reduce_op, op, rc, result);
    proof {
        lemma_transmuted_keys::<H, F, K, V, S, X, R, M, Op>(op, ce, rc);
        assert(slotted::<H, F, S, X, M>(transmuted(rc), d, slot as nat));
    }
    let (node, share) = result.split();
    match node {
        Some(node) => {
            builder.push(slot, node, Ghost(d));
        },
        None => {
            proof {
                assert(builder.entries() + transmuted(rc) =~= builder.entries());
            }
        },
    }
    let out = reduce_op(&acc, &share);
    proof {
        lemma_transmute_step(nodes, j as nat, reduce_op, op, rs, rc, acc, share, out);
    }
    (out, Ghost(rs + rc))
}

/// Transmutes every entry below the branch, which stands at level `depth`,
/// with `op`, child after child, and combines what comes of the children
/// with `reduce_op`, starting from the default share.
///
/// What comes of the children makes the new node: nothing where nothing
/// came of them, the child itself where it is a single leaf below the root,
/// and else a branch with the flag word of the slots that are left.
pub fn transmute<
    H: Hashword,
    F: Flagword,
    K: Key,
    V: Value,
    S: Key,
    X: Value,
    M: HasherBv<H, K> + HasherBv<H, S>,
    R: Default,
    Re: Fn(&R, &R) -> R,
    Op: Fn(&K, &V) -> MapTransmuteResult<S, X, R>,
>(this: &Arc<CNode<H, F, K, V, M>>, reduce_op: &Re, op: &Op, depth: usize) -> (r:
    MNodeTransmuteResult<H, F, S, X, M, R>)
    requires
        this.wf(depth as nat),
        ready(op, this.entries()),
        combines(reduce_op),
        keeps_hash::<H, K, V, S, X, R, M, Op>(op, this.entries()),
        keeps_apart::<H, K, V, S, X, R, M, Op>(op, this.entries()),
    ensures
        exists|rs: Seq<MapTransmuteResult<S, X, R>>| #[trigger]
            transmuted_node(MNode::C(*this), depth as nat, reduce_op, op, rs, r),
    decreases this, 1nat,
{
    let ghost d = depth as nat;
    let mut builder = Builder::<H, F, S, X, M>::new(Ghost(d));
    let mut acc = R::default();
    let mut j: usize = 0;
    let mut i: u8 = 0;
    let ghost mut rs: Seq<MapTransmuteResult<S, X, R>> = Seq::empty();
    let slots = F::slots();
    proof {
        assert(transmute_shares(rs) =~= Seq::<R>::empty());
    }
    while i < slots
        invariant
            slots == fan::<F>(),
            d == depth,
            this.wf(d),
            ready(op, this.entries()),
            combines(reduce_op),
            keeps_hash::<H, K, V, S, X, R, M, Op>(op, this.entries()),
            keeps_apart::<H, K, V, S, X, R, M, Op>(op, this.entries()),
            i <= slots,
            j == rank(this.bitmap, i as nat),
            transmuting(&**this, d, reduce_op, op, j as nat, i as nat, &builder, rs, acc),
        decreases slots - i,
    {
        if !this.bitmap.intersect(F::bit(i)).is_empty() {
            let step = transmute_child(
                this,
                reduce_op,
                op,
                depth,
                j,
                i,
                &mut builder,
                acc,
                Ghost(rs),
            );
            acc = step.0;
            proof {
                rs = step.1@;
            }
            assert(j < this.nodes.len());
            j = j + 1;
        }
        i = i + 1;
    }
    proof {
        lemma_rank_mono(this.bitmap, i as nat, fan::<F>());
        assert(flat(this.nodes@, j as nat) == this.entries());
    }
    let r = MNodeTransmuteResult::join(builder.finish(depth), acc);
    proof {
        assert(transmuted_node(MNode::C(*this), d, reduce_op, op, rs, r));
    }
    r
}

/// One side of the joint walk at one level: a branch, or a leaf, which is
/// walked as the branch would be that has it as the child of the slot of its
/// keys.
pub enum Side<'a, H, F, K, V, M> {
    Branch(&'a Arc<CNode<H, F, K, V, M>>),
    Leaf(&'a MNode<H, F, K, V, M>, u8),
}

impl<'a, H: Hashword, F: Flagword, K: Key, V: Value, M: HasherBv<H, K>> Side<'a, H, F, K, V, M> {
    /// The entries of the side.
    pub open spec fn entries(&self) -> Seq<(K, V)> {
        match self {
            Side::Branch(cnode) => cnode.entries(),
            Side::Leaf(node, _) => node.entries(),
        }
    }

    /// Whether the side is well formed at level `depth`: a well-formed
    /// branch of that level, or a well-formed leaf with the slot that its
    /// keys select at that level.
    pub open spec fn wf(&self, depth: nat) -> bool {
        match self {
            Side::Branch(cnode) => cnode.wf(depth),
            Side::Leaf(node, slot) => {
                &&& **node !is C
                &&& node.wf(0)
                &&& fits::<H, F>(depth)
                &&& *slot < fan::<F>()
                &&& slotted::<H, F, K, V, M>(node.entries(), depth, *slot as nat)
            },
        }
    }

    /// The node that the side stands for.
    pub open spec fn node(&self) -> MNode<H, F, K, V, M> {
        match self {
            Side::Branch(cnode) => MNode::C(**cnode),
            Side::Leaf(node, _) => **node,
        }
    }

    /// The children of the side are the children of its node.
    pub proof fn lemma_child_at(&self, depth: nat, i: nat)
        requires
            self.wf(depth),
            i < fan::<F>(),
        ensures
            self.child(i) == child_at(self.node(), depth, i),
    {
        match self {
            Side::Branch(cnode) => {
                if cnode.bitmap.has(i) {
                    lemma_slot_at_rank(cnode.bitmap, i);
                }
            },
            Side::Leaf(node, slot) => {
                node.lemma_count(0);
            },
        }
    }

    /// The child of slot `i`, if the side has one.
    pub open spec fn child(&self, i: nat) -> Option<MNode<H, F, K, V, M>> {
        match self {
            Side::Branch(cnode) => if cnode.bitmap.has(i) {
                Some(cnode.nodes@[rank(cnode.bitmap, i) as int])
            } else {
                None
            },
            Side::Leaf(node, slot) => if i == *slot {
                Some(**node)
            } else {
                None
            },
        }
    }

    /// The number of children of slots below `i` in the child array of a
    /// branch.
    pub open spec fn below(&self, i: nat) -> nat {
        match self {
            Side::Branch(cnode) => rank(cnode.bitmap, i),
            Side::Leaf(_, _) => 0,
        }
    }

    /// The entries below the children of slots below `i`.
    pub open spec fn taken(&self, i: nat) -> Seq<(K, V)> {
        match self {
            Side::Branch(cnode) => flat(cnode.nodes@, rank(cnode.bitmap, i)),
            Side::Leaf(node, slot) => if *slot < i {
                node.entries()
            } else {
                Seq::empty()
            },
        }
    }

    /// The entries of the child of slot `i`, if the side has one.
    pub open spec fn part(&self, i: nat) -> Seq<(K, V)> {
        match self.child(i) {
            Some(node) => node.entries(),
            None => Seq::empty(),
        }
    }

    /// The child of slot `i`, if the side has one; `j` is its place in the
    /// child array of a branch.
    pub fn get(&self, i: u8, j: usize, Ghost(depth): Ghost<nat>) -> (r: Option<
        &'a MNode<H, F, K, V, M>,
    >)
        requires
            self.wf(depth),
            i < fan::<F>(),
            j == self.below(i as nat),
        ensures
            r.is_some() == self.child(i as nat).is_some(),
            r matches Some(node) ==> self.child(i as nat) == Some(*node),
    {
        match self {
            Side::Branch(cnode) => {
                let hit = cnode.bitmap.intersect(F::bit(i));
                let present = !hit.is_empty();
                proof {
                    if cnode.bitmap.has(i as nat) {
                        assert(hit.has(i as nat));
                        lemma_slot_at_rank(cnode.bitmap, i as nat);
                    }
                }
                if present {
                    Some(&cnode.nodes[j])
                } else {
                    None
                }
            },
            Side::Leaf(node, slot) => if *slot == i {
                Some(*node)
            } else {
                None
            },
        }
    }

    /// Whether a branch has a child of slot `i`.
    pub fn has(&self, i: u8, Ghost(depth): Ghost<nat>) -> (r: bool)
        requires
            self.wf(depth),
            i < fan::<F>(),
        ensures
            r == (self is Branch && self.child(i as nat).is_some()),
    {
        match self {
            Side::Branch(cnode) => {
                let hit = cnode.bitmap.intersect(F::bit(i));
                proof {
                    if cnode.bitmap.has(i as nat) {
                        assert(hit.has(i as nat));
                    }
                }
                !hit.is_empty()
            },
            Side::Leaf(_, _) => false,
        }
    }

    /// The child array of a branch is no longer than `usize` can count.
    pub proof fn lemma_bound(&self, depth: nat)
        requires
            self.wf(depth),
        ensures
            self.below(fan::<F>()) <= usize::MAX,
    {
        match self {
            Side::Branch(cnode) => {
                assert(cnode.nodes.len() <= usize::MAX);
            },
            Side::Leaf(_, _) => {},
        }
    }

    /// What is known of the child of slot `i`.
    pub proof fn lemma_part(&self, depth: nat, i: nat)
        requires
            self.wf(depth),
            i < fan::<F>(),
        ensures
            self.child(i) matches Some(node) ==> node.wf(depth + 1) && node.entries().len() > 0,
            slotted::<H, F, K, V, M>(self.part(i), depth, i),
            forall|x: int|
                0 <= x < self.part(i).len() ==> self.entries().contains(#[trigger] self.part(i)[x]),
            self.taken(i + 1) == self.taken(i) + self.part(i),
            self.taken(i + 1).len() <= self.entries().len(),
            self.below(i + 1) == self.below(i) + if self is Branch && self.child(i).is_some() {
                1nat
            } else {
                0nat
            },
            self.below(i) <= self.below(fan::<F>()),
            forall|h: H|
                slot_of::<H, F>(h, depth) == i ==> #[trigger] bucket::<H, K, V, M>(
                    self.entries(),
                    h,
                ) == bucket::<H, K, V, M>(self.part(i), h),
    {
        let none = Seq::<(K, V)>::empty();
        match self {
            Side::Branch(cnode) => {
                let j = rank(cnode.bitmap, i);
                lemma_rank_mono(cnode.bitmap, i + 1, fan::<F>());
                lemma_rank_mono(cnode.bitmap, i, fan::<F>());
                lemma_flat_mono(cnode.nodes@, rank(cnode.bitmap, i + 1), cnode.nodes@.len());
                if cnode.bitmap.has(i) {
                    lemma_slot_at_rank(cnode.bitmap, i);
                    cnode.lemma_child(j as int);
                } else {
                    assert(self.taken(i) + none =~= self.taken(i));
                }
                assert forall|h: H| slot_of::<H, F>(h, depth) == i implies #[trigger] bucket::<
                    H,
                    K,
                    V,
                    M,
                >(self.entries(), h) == bucket::<H, K, V, M>(self.part(i), h) by {
                    cnode.lemma_bucket(depth, h);
                    assert(bucket::<H, K, V, M>(none, h) =~= none);
                }
            },
            Side::Leaf(node, slot) => {
                node.lemma_count(0);
                assert(none + node.entries() =~= node.entries());
                assert(node.entries() + none =~= node.entries());
                assert(none + none =~= none);
                assert forall|h: H| slot_of::<H, F>(h, depth) == i implies #[trigger] bucket::<
                    H,
                    K,
                    V,
                    M,
                >(self.entries(), h) == bucket::<H, K, V, M>(self.part(i), h) by {
                    if i != *slot {
                        lemma_bucket_none::<H, K, V, M>(node.entries(), h);
                        assert(bucket::<H, K, V, M>(none, h) =~= none);
                    }
                }
            },
        }
    }
}

/// Whether the builder holds what the joint walk over the slots below `i`
/// of the two sides gives.
pub open spec fn joining<
    H: Hashword,
    F: Flagword,
    K: Key,
    V: Value,
    W: Value,
    S: Key,
    X: Value,
    M: HasherBv<H, K> + HasherBv<H, S>,
    R,
    Bo: Fn(&K, &V, &K, &W) -> MapTransmuteResult<S, X, R>,
    Lo: Fn(&K, &V) -> MapTransmuteResult<S, X, R>,
    Ro: Fn(&K, &W) -> MapTransmuteResult<S, X, R>,
>(
    left: &Side<H, F, K, V, M>,
    right: &Side<H, F, K, W, M>,
    depth: nat,
    both_op: &Bo,
    left_op: &Lo,
    right_op: &Ro,
    i: nat,
    builder: &Builder<H, F, S, X, M>,
) -> bool {
    &&& builder.wf(depth, i)
    &&& builder.entries().len() <= left.taken(i).len() + right.taken(i).len()
    &&& forall|h: H|
        slot_of::<H, F>(h, depth) < i ==> joined_bucket(
            both_op,
            left_op,
            right_op,
            bucket::<H, K, V, M>(left.entries(), h),
            bucket::<H, K, W, M>(right.entries(), h),
            #[trigger] bucket::<H, S, X, M>(builder.entries(), h),
        )
    &&& forall|h: H|
        slot_of::<H, F>(h, depth) >= i ==> #[trigger] bucket::<H, S, X, M>(builder.entries(), h)
            == Seq::<(S, X)>::empty()
}

/// What the join of the children of slot `i` adds to the joint walk.
proof fn lemma_join_step<
    H: Hashword,
    F: Flagword,
    K: Key,
    V: Value,
    W: Value,
    S: Key,
    X: Value,
    M: HasherBv<H, K> + HasherBv<H, S>,
    R,
    Bo: Fn(&K, &V, &K, &W) -> MapTransmuteResult<S, X, R>,
    Lo: Fn(&K, &V) -> MapTransmuteResult<S, X, R>,
    Ro: Fn(&K, &W) -> MapTransmuteResult<S, X, R>,
>(
    left: &Side<H, F, K, V, M>,
    right: &Side<H, F, K, W, M>,
    depth: nat,
    both_op: &Bo,
    left_op: &Lo,
    right_op: &Ro,
    i: nat,
    before: Seq<(S, X)>,
    out: Seq<(S, X)>,
    after: Seq<(S, X)>,
)
    requires
        left.wf(depth),
        right.wf(depth),
        i < fan::<F>(),
        joined::<H, K, V, W, S, X, R, M, Bo, Lo, Ro>(
            both_op,
            left_op,
            right_op,
            left.part(i),
            right.part(i),
            out,
        ),
        after == before + out,
        forall|h: H|
            slot_of::<H, F>(h, depth) < i ==> joined_bucket(
                both_op,
                left_op,
                right_op,
                bucket::<H, K, V, M>(left.entries(), h),
                bucket::<H, K, W, M>(right.entries(), h),
                #[trigger] bucket::<H, S, X, M>(before, h),
            ),
        forall|h: H|
            slot_of::<H, F>(h, depth) >= i ==> #[trigger] bucket::<H, S, X, M>(before, h) == Seq::<
                (S, X),
            >::empty(),
    ensures
        slotted::<H, F, S, X, M>(out, depth, i),
        forall|h: H|
            slot_of::<H, F>(h, depth) < i + 1 ==> joined_bucket(
                both_op,
                left_op,
                right_op,
                bucket::<H, K, V, M>(left.entries(), h),
                bucket::<H, K, W, M>(right.entries(), h),
                #[trigger] bucket::<H, S, X, M>(after, h),
            ),
        forall|h: H|
            slot_of::<H, F>(h, depth) >= i + 1 ==> #[trigger] bucket::<H, S, X, M>(after, h)
                == Seq::<(S, X)>::empty(),
{
    let none = Seq::<(S, X)>::empty();
    left.lemma_part(depth, i);
    right.lemma_part(depth, i);
    lemma_joined_slotted::<H, F, K, V, W, S, X, R, M, Bo, Lo, Ro>(
        both_op,
        left_op,
        right_op,
        left.part(i),
        right.part(i),
        out,
        depth,
        i,
    );
    assert forall|h: H|
        (slot_of::<H, F>(h, depth) < i + 1 ==> joined_bucket(
            both_op,
            left_op,
            right_op,
            bucket::<H, K, V, M>(left.entries(), h),
            bucket::<H, K, W, M>(right.entries(), h),
            #[trigger] bucket::<H, S, X, M>(after, h),
        )) && (slot_of::<H, F>(h, depth) >= i + 1 ==> bucket::<H, S, X, M>(after, h) == none) by {
        lemma_bucket_add::<H, S, X, M>(before, out, h);
        let x = bucket::<H, S, X, M>(before, h);
        let y = bucket::<H, S, X, M>(out, h);
        assert(x + none =~= x);
        assert(none + y =~= y);
        if slot_of::<H, F>(h, depth) != i {
            lemma_bucket_none::<H, S, X, M>(out, h);
        } else {
            assert(bucket::<H, K, V, M>(left.entries(), h) == bucket::<H, K, V, M>(
                left.part(i),
                h,
            ));
            assert(bucket::<H, K, W, M>(right.entries(), h) == bucket::<H, K, W, M>(
                right.part(i),
                h,
            ));
        }
    }
}

/// Joins the children of slot `slot` of the two sides and adds what comes
/// of them to the builder.
///
/// Where only one side has a child it is transmuted alone, with `left_op`
/// or with `right_op`. Where both have one the two are joined one level
/// down.
fn joint_child<
    H: Hashword,
    F: Flagword,
    K: Key,
    V: Value,
    W: Value,
    S: Key,
    X: Value,
    M: HasherBv<H, K> + HasherBv<H, S>,
    R: Default,
    Re: Fn(&R, &R) -> R,
    Bo: Fn(&K, &V, &K, &W) -> MapTransmuteResult<S, X, R>,
    Lo: Fn(&K, &V) -> MapTransmuteResult<S, X, R>,
    Ro: Fn(&K, &W) -> MapTransmuteResult<S, X, R>,
>(
    left: &Side<H, F, K, V, M>,
    right: &Side<H, F, K, W, M>,
    reduce_op: &Re,
    both_op: &Bo,
    left_op: &Lo,
    right_op: &Ro,
    depth: usize,
    slot: u8,
    jl: usize,
    jr: usize,
    builder: &mut Builder<H, F, S, X, M>,
    acc: R,
) -> (r: R)
    requires
        left.wf(depth as nat),
        right.wf(depth as nat),
        joint_ok::<H, K, V, W, S, X, R, M, Bo, Lo, Ro>(
            both_op,
            left_op,
            right_op,
            left.entries(),
            right.entries(),
        ),
        combines(reduce_op),
        aligned::<H, F, K, V, W, M>(left.entries(), right.entries(), depth as nat),
        left.entries().len() + right.entries().len() < usize::MAX,
        slot < fan::<F>(),
        jl == left.below(slot as nat),
        jr == right.below(slot as nat),
        joining(left, right, depth as nat, both_op, left_op, right_op, slot as nat, old(builder)),
        left is Branch || right is Branch,
        slots_reduce(
            left.node(),
            right.node(),
            depth as nat,
            slot as nat,
            reduce_op,
            both_op,
            left_op,
            right_op,
            acc,
        ),
    ensures
        joining(
            left,
            right,
            depth as nat,
            both_op,
            left_op,
            right_op,
            (slot + 1) as nat,
            final(builder),
        ),
        slots_reduce(
            left.node(),
            right.node(),
            depth as nat,
            (slot + 1) as nat,
            reduce_op,
            both_op,
            left_op,
            right_op,
            r,
        ),
    decreases room::<H, F>(depth as nat), 0nat,
{
    let ghost d = depth as nat;
    let ghost i = slot as nat;
    let ghost a = left.entries();
    let ghost b = right.entries();
    let ghost pa = left.part(i);
    let ghost pb = right.part(i);
    let ghost before = builder.entries();
    let ghost none = Seq::<(S, X)>::empty();
    proof {
        lemma_fits::<H, F>(d);
        lemma_room::<H, F>(d);
        left.lemma_part(d, i);
        right.lemma_part(d, i);
        assert forall|x: int| 0 <= x < pa.len() implies lookup(b, (#[trigger] pa[x]).0) == lookup(
            pb,
            pa[x].0,
        ) by {
            lemma_lookup_bucket::<H, K, W, M>(b, pa[x].0);
            lemma_lookup_bucket::<H, K, W, M>(pb, pa[x].0);
        }
        assert forall|x: int| 0 <= x < pb.len() implies lookup(a, (#[trigger] pb[x]).0) == lookup(
            pa,
            pb[x].0,
        ) by {
            lemma_lookup_bucket::<H, K, V, M>(a, pb[x].0);
            lemma_lookup_bucket::<H, K, V, M>(pa, pb[x].0);
        }
        lemma_joint_ok_part::<H, K, V, W, S, X, R, M, Bo, Lo, Ro>(
            both_op,
            left_op,
            right_op,
            a,
            b,
            pa,
            pb,
        );
        lemma_aligned_step::<H, F, K, V, W, M>(a, b, pa, pb, d, i);
        left.lemma_child_at(d, i);
        right.lemma_child_at(d, i);
    }
    let ghost mut rs: Seq<MapTransmuteResult<S, X, R>> = Seq::empty();
    let lc = left.get(slot, jl, Ghost(d));
    let rc = right.get(slot, jr, Ghost(d));
    let result = match lc {
        Some(l) => match rc {
            Some(r) => l.joint_transmute(r, reduce_op, both_op, left_op, right_op, depth + 1),
            None => {
                proof {
                    lemma_joint_ok_left::<H, K, V, W, S, X, R, M, Bo, Lo, Ro>(
                        both_op,
                        left_op,
                        right_op,
                        pa,
                    );
                }
                let result = l.transmute(reduce_op, left_op, depth + 1);
                proof {
                    rs = choose|rs: Seq<MapTransmuteResult<S, X, R>>| #[trigger]
                        transmuted_node(*l, d + 1, reduce_op, left_op, rs, result);
                    lemma_transmuted_len(rs);
                    lemma_joined_left::<H, K, V, W, S, X, R, M, Bo, Lo, Ro>(
                        both_op,
                        left_op,
                        right_op,
                        pa,
                        rs,
                    );
                    assert(transmuted(rs).len() == 0 ==> transmuted(rs) =~= none);
                }
                result
            },
        },
        None => match rc {
            Some(r) => {
                proof {
                    lemma_joint_ok_right::<H, K, V, W, S, X, R, M, Bo, Lo, Ro>(
                        both_op,
                        left_op,
                        right_op,
                        pb,
                    );
                }
                let result = r.transmute(reduce_op, right_op, depth + 1);
                proof {
                    rs = choose|rs: Seq<MapTransmuteResult<S, X, R>>| #[trigger]
                        transmuted_node(*r, d + 1, reduce_op, right_op, rs, result);
                    lemma_transmuted_len(rs);
                    lemma_joined_right::<H, K, V, W, S, X, R, M, Bo, Lo, Ro>(
                        both_op,
                        left_op,
                        right_op,
                        pb,
                        rs,
                    );
                    assert(transmuted(rs).len() == 0 ==> transmuted(rs) =~= none);
                }
                result
            },
            None => {
                proof {
                    lemma_nothing_joined::<H, K, V, W, S, X, R, M, Bo, Lo, Ro>(
                        both_op,
                        left_op,
                        right_op,
                    );
                    assert(before + none =~= before);
                    lemma_join_step::<H, F, K, V, W, S, X, M, R, Bo, Lo, Ro>(
                        left,
                        right,
                        d,
                        both_op,
                        left_op,
                        right_op,
                        i,
                        before,
                        none,
                        before,
                    );
                }
                return acc;
            },
        },
    };
    assert(joined_node(pa, pb, d + 1, both_op, left_op, right_op, result));
    let (node, share) = result.split();
    let ghost out = match &node {
        Some(n) => n.entries(),
        None => none,
    };
    proof {
        assert(before + none =~= before);
        lemma_join_step::<H, F, K, V, W, S, X, M, R, Bo, Lo, Ro>(
            left,
            right,
            d,
            both_op,
            left_op,
            right_op,
            i,
            before,
            out,
            before + out,
        );
    }
    match node {
        Some(node) => {
            builder.push(slot, node, Ghost(d));
        },
        None => {},
    }
    let out = reduce_op(&acc, &share);
    proof {
        match left.child(i) {
            Some(x) => match right.child(i) {
                Some(y) => {},
                None => {
                    assert(answers(left_op, x.entries(), rs));
                },
            },
            None => match right.child(i) {
                Some(y) => {
                    assert(answers(right_op, y.entries(), rs));
                },
                None => {},
            },
        }
    }
    out
}

/// The joint walk over two sides at level `depth`, of which one is a
/// branch: slot after slot, the children of the slot are joined, and what
/// comes of them makes the new node, nothing where nothing came of them, the
/// child itself where it is a single leaf below the root, and else a branch.
/// What came of the shares of the reduction is combined slot after slot,
/// starting from the default share.
pub fn joint_transmute<
    H: Hashword,
    F: Flagword,
    K: Key,
    V: Value,
    W: Value,
    S: Key,
    X: Value,
    M: HasherBv<H, K> + HasherBv<H, S>,
    R: Default,
    Re: Fn(&R, &R) -> R,
    Bo: Fn(&K, &V, &K, &W) -> MapTransmuteResult<S, X, R>,
    Lo: Fn(&K, &V) -> MapTransmuteResult<S, X, R>,
    Ro: Fn(&K, &W) -> MapTransmuteResult<S, X, R>,
>(
    left: &Side<H, F, K, V, M>,
    right: &Side<H, F, K, W, M>,
    reduce_op: &Re,
    both_op: &Bo,
    left_op: &Lo,
    right_op: &Ro,
    depth: usize,
) -> (r: MNodeTransmuteResult<H, F, S, X, M, R>)
    requires
        left.wf(depth as nat),
        right.wf(depth as nat),
        joint_ok::<H, K, V, W, S, X, R, M, Bo, Lo, Ro>(
            both_op,
            left_op,
            right_op,
            left.entries(),
            right.entries(),
        ),
        combines(reduce_op),
        aligned::<H, F, K, V, W, M>(left.entries(), right.entries(), depth as nat),
        left.entries().len() + right.entries().len() < usize::MAX,
        left is Branch || right is Branch,
    ensures
        joined_node(left.entries(), right.entries(), depth as nat, both_op, left_op, right_op, r),
        depth == 0 ==> r is C || r is Removed,
        slots_reduce(
            left.node(),
            right.node(),
            depth as nat,
            fan::<F>(),
            reduce_op,
            both_op,
            left_op,
            right_op,
            r.reduction(),
        ),
    decreases room::<H, F>(depth as nat), 1nat,
{
    let ghost d = depth as nat;
    let mut builder = Builder::<H, F, S, X, M>::new(Ghost(d));
    let mut acc = R::default();
    let mut jl: usize = 0;
    let mut jr: usize = 0;
    let mut i: u8 = 0;
    let slots = F::slots();
    proof {
        let none = Seq::<(S, X)>::empty();
        assert forall|h: H| #[trigger] bucket::<H, S, X, M>(builder.entries(), h) == none by {
            assert(bucket::<H, S, X, M>(none, h) =~= none);
        }
    }
    while i < slots
        invariant
            slots == fan::<F>(),
            d == depth,
            left.wf(d),
            right.wf(d),
            joint_ok::<H, K, V, W, S, X, R, M, Bo, Lo, Ro>(
                both_op,
                left_op,
                right_op,
                left.entries(),
                right.entries(),
            ),
            combines(reduce_op),
            aligned::<H, F, K, V, W, M>(left.entries(), right.entries(), d),
            left.entries().len() + right.entries().len() < usize::MAX,
            i <= slots,
            jl == left.below(i as nat),
            jr == right.below(i as nat),
            joining(left, right, d, both_op, left_op, right_op, i as nat, &builder),
            left is Branch || right is Branch,
            slots_reduce(
                left.node(),
                right.node(),
                d,
                i as nat,
                reduce_op,
                both_op,
                left_op,
                right_op,
                acc,
            ),
        decreases slots - i,
    {
        proof {
            left.lemma_part(d, i as nat);
            right.lemma_part(d, i as nat);
            left.lemma_bound(d);
            right.lemma_bound(d);
        }
        let lh = left.has(i, Ghost(d));
        let rh = right.has(i, Ghost(d));
        acc = joint_child(
            left,
            right,
            reduce_op,
            both_op,
            left_op,
            right_op,
            depth,
            i,
            jl,
            jr,
            &mut builder,
            acc,
        );
        if lh {
            jl = jl + 1;
        }
        if rh {
            jr = jr + 1;
        }
        i = i + 1;
    }
    proof {
        F::lemma_log_width();
        assert forall|h: H|
            joined_bucket(
                both_op,
                left_op,
                right_op,
                bucket::<H, K, V, M>(left.entries(), h),
                bucket::<H, K, W, M>(right.entries(), h),
                #[trigger] bucket::<H, S, X, M>(builder.entries(), h),
            ) by {
            h.lemma_slice_bound(d * F::log_width(), F::log_width());
        }
        if i > 0 {
            left.lemma_part(d, (i - 1) as nat);
            right.lemma_part(d, (i - 1) as nat);
        } else {
            vstd::arithmetic::power2::lemma_pow2_pos(F::log_width());
        }
    }
    MNodeTransmuteResult::join(builder.finish(depth), acc)
}

} // verus!
