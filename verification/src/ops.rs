//! The model of the caller's operations: what they answer for each entry,
//! what becomes of the entries, and how the shares of the reduction are
//! combined.

use vstd::prelude::*;
use crate::entries::{all_hash, distinct, slotted};
use crate::flag::slot_of;
use crate::result::{MapTransformResult, MapTransmuteResult};
use crate::traits::HasherBv;
use crate::word::{Hashword, Slots};

verus! {

/// Whether `rs` holds, for each entry of `es`, something that `op` may
/// answer for that entry.
pub open spec fn answers<K, V, A, Op: Fn(&K, &V) -> A>(op: &Op, es: Seq<(K, V)>, rs: Seq<A>) -> bool {
    &&& rs.len() == es.len()
    &&& forall|i: int| 0 <= i < es.len() ==> op.ensures((&(#[trigger] es[i]).0, &es[i].1), rs[i])
}

/// Whether `reduce` may be called on every two shares.
pub open spec fn combines<R, Re: Fn(&R, &R) -> R>(reduce: &Re) -> bool {
    forall|a: R, b: R| #[trigger] reduce.requires((&a, &b))
}

/// Whether `out` may come of combining the shares `s` from the right:
/// the first with what comes of the rest. One share alone is what comes of
/// it.
pub open spec fn folded_right<R, Re: Fn(&R, &R) -> R>(reduce: &Re, s: Seq<R>, out: R) -> bool
    decreases s.len(),
{
    if s.len() == 0 {
        false
    } else if s.len() == 1 {
        out == s[0]
    } else {
        exists|rest: R|
            folded_right(reduce, s.drop_first(), rest) && #[trigger] reduce.ensures(
                (&s[0], &rest),
                out,
            )
    }
}

/// Whether `out` may come of combining the shares `s` from the right onto
/// `base`: the first with what comes of the rest, and `base` where there is
/// none.
pub open spec fn folded_onto<R, Re: Fn(&R, &R) -> R>(reduce: &Re, s: Seq<R>, base: R, out: R) -> bool
    decreases s.len(),
{
    if s.len() == 0 {
        out == base
    } else {
        exists|rest: R|
            folded_onto(reduce, s.drop_first(), base, rest) && #[trigger] reduce.ensures(
                (&s[0], &rest),
                out,
            )
    }
}

/// Shares combined onto what came of other shares are all the shares
/// combined.
pub proof fn lemma_folded_onto<R, Re: Fn(&R, &R) -> R>(
    reduce: &Re,
    s: Seq<R>,
    t: Seq<R>,
    base: R,
    out: R,
)
    requires
        folded_right(reduce, t, base),
        folded_onto(reduce, s, base, out),
    ensures
        folded_right(reduce, s + t, out),
    decreases s.len(),
{
    if s.len() == 0 {
        assert(s + t =~= t);
    } else {
        let rest = choose|rest: R|
            folded_onto(reduce, s.drop_first(), base, rest) && #[trigger] reduce.ensures(
                (&s[0], &rest),
                out,
            );
        lemma_folded_onto(reduce, s.drop_first(), t, base, rest);
        assert((s + t).drop_first() =~= s.drop_first() + t);
        assert((s + t)[0] == s[0]);
        assert(t.len() >= 1);
    }
}

/// What is left of the entry `e` after the answer `r`.
pub open spec fn kept<K, V, R>(e: (K, V), r: MapTransformResult<V, R>) -> Seq<(K, V)> {
    match r {
        MapTransformResult::Unchanged(_) => seq![e],
        MapTransformResult::Transformed(v, _) => seq![(e.0, v)],
        MapTransformResult::Removed(_) => Seq::empty(),
    }
}

/// What is left of the entries `es` after the answers `rs`, one for each.
pub open spec fn transformed<K, V, R>(
    es: Seq<(K, V)>,
    rs: Seq<MapTransformResult<V, R>>,
) -> Seq<(K, V)>
    decreases es.len(),
{
    if es.len() == 0 || rs.len() == 0 {
        Seq::empty()
    } else {
        kept(es[0], rs[0]) + transformed(es.drop_first(), rs.drop_first())
    }
}

/// Whether every answer is `Unchanged`.
pub open spec fn unchanged<V, R>(rs: Seq<MapTransformResult<V, R>>) -> bool {
    forall|i: int| 0 <= i < rs.len() ==> #[trigger] rs[i] is Unchanged
}

/// The shares of the reduction that the answers carry.
pub open spec fn transform_shares<V, R>(rs: Seq<MapTransformResult<V, R>>) -> Seq<R> {
    Seq::new(rs.len(), |i: int| rs[i].reduction())
}

/// The entry that the answer `r` gives, if it gives one.
pub open spec fn moved<S, X, R>(r: MapTransmuteResult<S, X, R>) -> Seq<(S, X)> {
    match r {
        MapTransmuteResult::Transmuted(s, x, _) => seq![(s, x)],
        MapTransmuteResult::Removed(_) => Seq::empty(),
    }
}

/// The key of the entry that the answer `r` gives, if it gives one.
pub open spec fn new_key<S, X, R>(r: MapTransmuteResult<S, X, R>) -> Option<S> {
    match r {
        MapTransmuteResult::Transmuted(s, _, _) => Some(s),
        MapTransmuteResult::Removed(_) => None,
    }
}

/// Whether `op` gives every entry of `es` a key with the hash of the key
/// that the entry has: the new entry belongs where the old one stood.
pub open spec fn keeps_hash<
    H,
    K,
    V,
    S,
    X,
    R,
    M: HasherBv<H, K> + HasherBv<H, S>,
    Op: Fn(&K, &V) -> MapTransmuteResult<S, X, R>,
>(op: &Op, es: Seq<(K, V)>) -> bool {
    forall|e: (K, V), a: MapTransmuteResult<S, X, R>|
        es.contains(e) && #[trigger] op.ensures((&e.0, &e.1), a) && new_key(a).is_some() ==> <
            M as HasherBv<H, S>
        >::spec_hash(new_key(a).unwrap()) == <M as HasherBv<H, K>>::spec_hash(e.0)
}

/// Whether `op` gives entries of `es` with different keys of one hash
/// different keys.
pub open spec fn keeps_apart<
    H,
    K,
    V,
    S,
    X,
    R,
    M: HasherBv<H, K>,
    Op: Fn(&K, &V) -> MapTransmuteResult<S, X, R>,
>(op: &Op, es: Seq<(K, V)>) -> bool {
    forall|e1: (K, V), e2: (K, V), a: MapTransmuteResult<S, X, R>, b: MapTransmuteResult<S, X, R>|
        es.contains(e1) && es.contains(e2) && e1.0 != e2.0 && M::spec_hash(e1.0) == M::spec_hash(
            e2.0,
        ) && #[trigger] op.ensures((&e1.0, &e1.1), a) && #[trigger] op.ensures((&e2.0, &e2.1), b)
            && new_key(a).is_some() && new_key(b).is_some() ==> new_key(a).unwrap() != new_key(
            b,
        ).unwrap()
}

/// The entries that the answers `rs` give, in their order.
pub open spec fn transmuted<S, X, R>(rs: Seq<MapTransmuteResult<S, X, R>>) -> Seq<(S, X)>
    decreases rs.len(),
{
    if rs.len() == 0 {
        Seq::empty()
    } else {
        moved(rs[0]) + transmuted(rs.drop_first())
    }
}

/// The shares of the reduction that the answers carry.
pub open spec fn transmute_shares<S, X, R>(rs: Seq<MapTransmuteResult<S, X, R>>) -> Seq<R> {
    Seq::new(rs.len(), |i: int| rs[i].reduction())
}

/// Answers for two runs of entries are answers for the one run.
pub proof fn lemma_answers_add<K, V, A, Op: Fn(&K, &V) -> A>(
    op: &Op,
    a: Seq<(K, V)>,
    ra: Seq<A>,
    b: Seq<(K, V)>,
    rb: Seq<A>,
)
    requires
        answers(op, a, ra),
        answers(op, b, rb),
    ensures
        answers(op, a + b, ra + rb),
{
    let es = a + b;
    let rs = ra + rb;
    assert forall|i: int| 0 <= i < es.len() implies op.ensures(
        (&(#[trigger] es[i]).0, &es[i].1),
        rs[i],
    ) by {
        if i < a.len() {
            assert(es[i] == a[i] && rs[i] == ra[i]);
        } else {
            assert(es[i] == b[i - a.len()] && rs[i] == rb[i - a.len()]);
        }
    }
}

/// Two runs of answers are unchanged where each is.
pub proof fn lemma_unchanged_add<V, R>(
    ra: Seq<MapTransformResult<V, R>>,
    rb: Seq<MapTransformResult<V, R>>,
)
    ensures
        unchanged(ra + rb) <==> unchanged(ra) && unchanged(rb),
{
    let rs = ra + rb;
    if unchanged(rs) {
        assert forall|i: int| 0 <= i < ra.len() implies #[trigger] ra[i] is Unchanged by {
            assert(rs[i] == ra[i]);
        }
        assert forall|i: int| 0 <= i < rb.len() implies #[trigger] rb[i] is Unchanged by {
            assert(rs[i + ra.len()] == rb[i]);
        }
    }
    if unchanged(ra) && unchanged(rb) {
        assert forall|i: int| 0 <= i < rs.len() implies #[trigger] rs[i] is Unchanged by {
            if i < ra.len() {
                assert(rs[i] == ra[i]);
            } else {
                assert(rs[i] == rb[i - ra.len()]);
            }
        }
    }
}

/// What is left of two runs of entries is what is left of the first and
/// then what is left of the second.
pub proof fn lemma_transformed_add<K, V, R>(
    a: Seq<(K, V)>,
    ra: Seq<MapTransformResult<V, R>>,
    b: Seq<(K, V)>,
    rb: Seq<MapTransformResult<V, R>>,
)
    requires
        ra.len() == a.len(),
        rb.len() == b.len(),
    ensures
        transformed(a + b, ra + rb) == transformed(a, ra) + transformed(b, rb),
    decreases a.len(),
{
    if a.len() == 0 {
        assert(a + b =~= b);
        assert(ra + rb =~= rb);
        assert(transformed(a, ra) + transformed(b, rb) =~= transformed(b, rb));
    } else {
        lemma_transformed_add(a.drop_first(), ra.drop_first(), b, rb);
        assert((a + b).drop_first() =~= a.drop_first() + b);
        assert((ra + rb).drop_first() =~= ra.drop_first() + rb);
        assert((a + b)[0] == a[0] && (ra + rb)[0] == ra[0]);
        let x = kept(a[0], ra[0]);
        let y = transformed(a.drop_first(), ra.drop_first());
        let z = transformed(b, rb);
        assert(x + (y + z) =~= (x + y) + z);
    }
}

/// Whether `s` has an entry of key `k`.
pub open spec fn has_key<K, V>(s: Seq<(K, V)>, k: K) -> bool {
    exists|i: int| 0 <= i < s.len() && (#[trigger] s[i]).0 == k
}

/// Every key that is left was there before.
pub proof fn lemma_transformed_keys<K, V, R>(
    es: Seq<(K, V)>,
    rs: Seq<MapTransformResult<V, R>>,
    j: int,
)
    requires
        rs.len() == es.len(),
        0 <= j < transformed(es, rs).len(),
    ensures
        has_key(es, transformed(es, rs)[j].0),
        transformed(es, rs).len() <= es.len(),
    decreases es.len(),
{
    let t = transformed(es, rs);
    let et = es.drop_first();
    let rt = rs.drop_first();
    let tt = transformed(et, rt);
    let head = kept(es[0], rs[0]);
    lemma_transformed_len(et, rt);
    if j < head.len() {
        assert(es[0].0 == t[j].0);
    } else {
        assert(t[j] == tt[j - head.len()]);
        lemma_transformed_keys(et, rt, j - head.len());
        let i = choose|i: int| 0 <= i < et.len() && (#[trigger] et[i]).0 == tt[j - head.len()].0;
        assert(es[i + 1].0 == t[j].0);
    }
}

/// No more entries are left than there were.
pub proof fn lemma_transformed_len<K, V, R>(es: Seq<(K, V)>, rs: Seq<MapTransformResult<V, R>>)
    requires
        rs.len() == es.len(),
    ensures
        transformed(es, rs).len() <= es.len(),
    decreases es.len(),
{
    if es.len() > 0 {
        lemma_transformed_len(es.drop_first(), rs.drop_first());
    }
}

/// Where every answer is `Unchanged`, all entries are left as they were.
pub proof fn lemma_transformed_same<K, V, R>(es: Seq<(K, V)>, rs: Seq<MapTransformResult<V, R>>)
    requires
        rs.len() == es.len(),
        unchanged(rs),
    ensures
        transformed(es, rs) == es,
    decreases es.len(),
{
    if es.len() > 0 {
        let et = es.drop_first();
        let rt = rs.drop_first();
        assert forall|i: int| 0 <= i < rt.len() implies #[trigger] rt[i] is Unchanged by {
            assert(rt[i] == rs[i + 1]);
        }
        lemma_transformed_same(et, rt);
        assert(rs[0] is Unchanged);
        assert(seq![es[0]] + et =~= es);
    } else {
        assert(transformed(es, rs) =~= es);
    }
}

/// Of distinct keys, distinct keys are left.
pub proof fn lemma_transformed_distinct<K, V, R>(
    es: Seq<(K, V)>,
    rs: Seq<MapTransformResult<V, R>>,
)
    requires
        rs.len() == es.len(),
        distinct(es),
    ensures
        distinct(transformed(es, rs)),
    decreases es.len(),
{
    let t = transformed(es, rs);
    if es.len() > 0 {
        let et = es.drop_first();
        let rt = rs.drop_first();
        let tt = transformed(et, rt);
        let head = kept(es[0], rs[0]);
        assert forall|i: int, j: int| 0 <= i < j < et.len() implies et[i].0 != et[j].0 by {
            assert(et[i] == es[i + 1] && et[j] == es[j + 1]);
        }
        lemma_transformed_distinct(et, rt);
        assert forall|i: int, j: int| 0 <= i < j < t.len() implies t[i].0 != t[j].0 by {
            if i < head.len() {
                assert(t[j] == tt[j - head.len()]);
                lemma_transformed_keys(et, rt, j - head.len());
                let x = choose|x: int|
                    0 <= x < et.len() && (#[trigger] et[x]).0 == tt[j - head.len()].0;
                assert(et[x] == es[x + 1]);
            } else {
                assert(t[i] == tt[i - head.len()] && t[j] == tt[j - head.len()]);
            }
        }
    }
}

/// What is left of the entries has their keys, in their order, and is all of
/// them where every answer is `Unchanged`.
pub proof fn lemma_transformed<K, V, R>(es: Seq<(K, V)>, rs: Seq<MapTransformResult<V, R>>)
    requires
        rs.len() == es.len(),
    ensures
        transformed(es, rs).len() <= es.len(),
        forall|j: int|
            0 <= j < transformed(es, rs).len() ==> has_key(es, (#[trigger] transformed(es, rs)[j]).0),
        distinct(es) ==> distinct(transformed(es, rs)),
        unchanged(rs) ==> transformed(es, rs) == es,
{
    lemma_transformed_len(es, rs);
    assert forall|j: int| 0 <= j < transformed(es, rs).len() implies has_key(
        es,
        (#[trigger] transformed(es, rs)[j]).0,
    ) by {
        lemma_transformed_keys(es, rs, j);
    }
    if distinct(es) {
        lemma_transformed_distinct(es, rs);
    }
    if unchanged(rs) {
        lemma_transformed_same(es, rs);
    }
}

/// The entries that two runs of answers give are those of the first and
/// then those of the second.
pub proof fn lemma_transmuted_add<S, X, R>(
    ra: Seq<MapTransmuteResult<S, X, R>>,
    rb: Seq<MapTransmuteResult<S, X, R>>,
)
    ensures
        transmuted(ra + rb) == transmuted(ra) + transmuted(rb),
    decreases ra.len(),
{
    if ra.len() == 0 {
        assert(ra + rb =~= rb);
        assert(transmuted(ra) + transmuted(rb) =~= transmuted(rb));
    } else {
        lemma_transmuted_add(ra.drop_first(), rb);
        assert((ra + rb).drop_first() =~= ra.drop_first() + rb);
        assert((ra + rb)[0] == ra[0]);
        let x = moved(ra[0]);
        let y = transmuted(ra.drop_first());
        let z = transmuted(rb);
        assert(x + (y + z) =~= (x + y) + z);
    }
}

/// The answer that gives the entry at place `j`: the answers before it give
/// the `j` entries before.
pub proof fn lemma_transmuted_at<S, X, R>(rs: Seq<MapTransmuteResult<S, X, R>>, j: int) -> (i: int)
    requires
        0 <= j < transmuted(rs).len(),
    ensures
        0 <= i < rs.len(),
        moved(rs[i]) == seq![transmuted(rs)[j]],
        transmuted(rs.subrange(0, i)).len() == j,
    decreases rs.len(),
{
    let head = moved(rs[0]);
    let rt = rs.drop_first();
    if j < head.len() {
        assert(head =~= seq![transmuted(rs)[j]]);
        assert(rs.subrange(0, 0) =~= Seq::<MapTransmuteResult<S, X, R>>::empty());
        0
    } else {
        assert(transmuted(rs)[j] == transmuted(rt)[j - head.len()]);
        let i = lemma_transmuted_at(rt, j - head.len());
        assert(rt[i] == rs[i + 1]);
        assert(rs.subrange(0, i + 1).drop_first() =~= rt.subrange(0, i));
        assert(rs.subrange(0, i + 1)[0] == rs[0]);
        i + 1
    }
}

/// What the new entries inherit where `op` keeps hashes and keeps keys
/// apart: of distinct keys come distinct keys, of keys of one hash keys of
/// that hash, and of keys of one slot keys of that slot.
pub proof fn lemma_transmuted_keys<
    H: Hashword,
    F: Slots,
    K,
    V,
    S,
    X,
    R,
    M: HasherBv<H, K> + HasherBv<H, S>,
    Op: Fn(&K, &V) -> MapTransmuteResult<S, X, R>,
>(op: &Op, es: Seq<(K, V)>, rs: Seq<MapTransmuteResult<S, X, R>>)
    requires
        answers(op, es, rs),
        keeps_hash::<H, K, V, S, X, R, M, Op>(op, es),
        keeps_apart::<H, K, V, S, X, R, M, Op>(op, es),
    ensures
        distinct(es) ==> distinct(transmuted(rs)),
        forall|h: H|
            all_hash::<H, K, V, M>(es, h) ==> #[trigger] all_hash::<H, S, X, M>(transmuted(rs), h),
        forall|depth: nat, slot: nat|
            slotted::<H, F, K, V, M>(es, depth, slot) ==> #[trigger] slotted::<H, F, S, X, M>(
                transmuted(rs),
                depth,
                slot,
            ),
        transmuted(rs).len() <= es.len(),
{
    let t = transmuted(rs);
    lemma_transmuted_len(rs);
    if distinct(es) {
        assert forall|j1: int, j2: int| 0 <= j1 < j2 < t.len() implies t[j1].0 != t[j2].0 by {
            let i1 = lemma_transmuted_at(rs, j1);
            let i2 = lemma_transmuted_at(rs, j2);
            assert(moved(rs[i1])[0] == t[j1]);
            assert(moved(rs[i2])[0] == t[j2]);
            assert(es.contains(es[i1]) && es.contains(es[i2]));
            assert(op.ensures((&es[i1].0, &es[i1].1), rs[i1]));
            assert(op.ensures((&es[i2].0, &es[i2].1), rs[i2]));
            if i1 < i2 {
                assert(es[i1].0 != es[i2].0);
            } else if i2 < i1 {
                assert(es[i2].0 != es[i1].0);
            }
        }
    }
    assert forall|h: H| all_hash::<H, K, V, M>(es, h) implies #[trigger] all_hash::<H, S, X, M>(
        t,
        h,
    ) by {
        assert forall|j: int| 0 <= j < t.len() implies <M as HasherBv<H, S>>::spec_hash(
            #[trigger] t[j].0,
        ) == h by {
            let i = lemma_transmuted_at(rs, j);
            assert(moved(rs[i])[0] == t[j]);
            assert(es.contains(es[i]));
            assert(op.ensures((&es[i].0, &es[i].1), rs[i]));
            assert(<M as HasherBv<H, K>>::spec_hash(es[i].0) == h);
        }
    }
    assert forall|depth: nat, slot: nat|
        slotted::<H, F, K, V, M>(es, depth, slot) implies #[trigger] slotted::<H, F, S, X, M>(
        t,
        depth,
        slot,
    ) by {
        assert forall|j: int| 0 <= j < t.len() implies slot_of::<H, F>(
            <M as HasherBv<H, S>>::spec_hash(#[trigger] t[j].0),
            depth,
        ) == slot by {
            let i = lemma_transmuted_at(rs, j);
            assert(moved(rs[i])[0] == t[j]);
            assert(es.contains(es[i]));
            assert(op.ensures((&es[i].0, &es[i].1), rs[i]));
            assert(slot_of::<H, F>(<M as HasherBv<H, K>>::spec_hash(es[i].0), depth) == slot);
        }
    }
}

/// The answers give no more entries than there are answers.
pub proof fn lemma_transmuted_len<S, X, R>(rs: Seq<MapTransmuteResult<S, X, R>>)
    ensures
        transmuted(rs).len() <= rs.len(),
    decreases rs.len(),
{
    if rs.len() > 0 {
        lemma_transmuted_len(rs.drop_first());
    }
}

} // verus!
