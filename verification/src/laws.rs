//! What holds of the operations of a trie taken together.

use vstd::prelude::*;
use crate::entries::{
    bucket, distinct, lemma_absent, lemma_bucket_from, lemma_cons, lemma_lookup_bucket,
    lemma_lookup_none, lemma_lookup_some, lemma_map, lemma_without, lookup, mixed, slotted,
    without,
};
use crate::hash_trie::HashTrie;
use crate::joint::{
    job_answer, job_answers, jobs, joined, joined_bucket, left_jobs, lemma_left_jobs,
    lemma_left_jobs_len, lemma_right_jobs, right_jobs, Job,
};
use crate::node::lnode::LNode;
use crate::node::mnode::MNode;
use crate::ops::{lemma_transmuted_at, moved, transmuted, unchanged};
use crate::result::{MapTransformResult, MapTransmuteResult};
use crate::traits::{HasherBv, Key, Value};
use crate::word::{lemma_slot_at_rank, rank, Flagword, Hashword, Slots};

verus! {

/// After distinct keys were inserted one after the other into an empty trie,
/// the last trie holds each of them with its value, which is what `find`
/// hands back for it.
pub proof fn law_insert_then_find<
    H: Hashword,
    F: Flagword,
    K: Key,
    V: Value,
    M: HasherBv<H, K>,
>(tries: Seq<HashTrie<H, F, K, V, M>>, entries: Seq<(K, V)>)
    requires
        tries.len() == entries.len() + 1,
        tries[0]@ == Map::<K, V>::empty(),
        distinct(entries),
        forall|i: int|
            0 <= i < entries.len() ==> (#[trigger] tries[i]).inserts_to(
                entries[i].0,
                entries[i].1,
                tries[i + 1],
            ),
    ensures
        forall|i: int|
            0 <= i < entries.len() ==> tries.last()@.contains_key((#[trigger] entries[i]).0)
                && tries.last()@[entries[i].0] == entries[i].1,
{
    lemma_inserted_so_far(tries, entries, entries.len() as int);
}

/// What the trie after the first `n` insertions holds.
proof fn lemma_inserted_so_far<H: Hashword, F: Flagword, K: Key, V: Value, M: HasherBv<H, K>>(
    tries: Seq<HashTrie<H, F, K, V, M>>,
    entries: Seq<(K, V)>,
    n: int,
)
    requires
        tries.len() == entries.len() + 1,
        0 <= n <= entries.len(),
        distinct(entries),
        forall|i: int|
            0 <= i < entries.len() ==> (#[trigger] tries[i]).inserts_to(
                entries[i].0,
                entries[i].1,
                tries[i + 1],
            ),
    ensures
        forall|i: int|
            0 <= i < n ==> tries[n]@.contains_key((#[trigger] entries[i]).0) && tries[n]@[entries[i].0]
                == entries[i].1,
    decreases n,
{
    if n > 0 {
        lemma_inserted_so_far(tries, entries, n - 1);
        assert(tries[n - 1].inserts_to(entries[n - 1].0, entries[n - 1].1, tries[n]));
        assert forall|i: int| 0 <= i < n implies tries[n]@.contains_key((#[trigger] entries[i]).0)
            && tries[n]@[entries[i].0] == entries[i].1 by {
            if i < n - 1 {
                assert(entries[i].0 != entries[n - 1].0);
            }
        }
    }
}

/// Inserting an entry a second time, with replacement, gives the trie that
/// the first insertion gave.
pub proof fn law_insert_twice<H: Hashword, F: Flagword, K: Key, V: Value, M: HasherBv<H, K>>(
    trie: HashTrie<H, F, K, V, M>,
    key: K,
    value: V,
    once: HashTrie<H, F, K, V, M>,
    twice: HashTrie<H, F, K, V, M>,
)
    requires
        trie.inv(),
        trie.inserts_to(key, value, once),
        once.inserts_to(key, value, twice),
    ensures
        twice.alike(&once),
{
    let h = M::spec_hash(key);
    trie.lemma_entries();
    once.lemma_entries();
    let b0 = bucket::<H, K, V, M>(trie.entries(), h);
    let b1 = bucket::<H, K, V, M>(once.entries(), h);
    let b2 = bucket::<H, K, V, M>(twice.entries(), h);
    let w = without(b0, key);
    lemma_without(b0, key);
    lemma_cons((key, value), w, key);
    assert(distinct(b0));
    assert(b1 == seq![(key, value)] + w);
    assert(b2 == b1);
    assert forall|x: H| #[trigger]
        bucket::<H, K, V, M>(twice.entries(), x) == bucket::<H, K, V, M>(once.entries(), x) by {}
    twice.lemma_canonical(&once);
}

/// Removing a key that was just inserted gives the trie from before the
/// insertion.
pub proof fn law_remove_cancels_insert<
    H: Hashword,
    F: Flagword,
    K: Key,
    V: Value,
    M: HasherBv<H, K>,
>(
    trie: HashTrie<H, F, K, V, M>,
    key: K,
    value: V,
    with: HashTrie<H, F, K, V, M>,
    without_it: HashTrie<H, F, K, V, M>,
)
    requires
        trie.inv(),
        !trie@.contains_key(key),
        trie.inserts_to(key, value, with),
        with.removes_to(key, without_it),
    ensures
        without_it.alike(&trie),
{
    let h = M::spec_hash(key);
    trie.lemma_entries();
    let b0 = bucket::<H, K, V, M>(trie.entries(), h);
    trie.lemma_view();
    lemma_map(trie.entries(), key);
    lemma_lookup_bucket::<H, K, V, M>(trie.entries(), key);
    lemma_lookup_none(b0, key);
    lemma_absent(b0, key);
    lemma_cons((key, value), b0, key);
    assert forall|x: H| #[trigger]
        bucket::<H, K, V, M>(without_it.entries(), x) == bucket::<H, K, V, M>(
            trie.entries(),
            x,
        ) by {}
    without_it.lemma_canonical(&trie);
}

/// A transformation that leaves every entry unchanged gives the trie that it
/// was given.
pub proof fn law_transform_unchanged<
    H: Hashword,
    F: Flagword,
    K: Key,
    V: Value,
    M: HasherBv<H, K>,
    R: Default,
    Re: Fn(&R, &R) -> R,
    Op: Fn(&K, &V) -> MapTransformResult<V, R>,
>(
    trie: HashTrie<H, F, K, V, M>,
    reduce_op: &Re,
    op: &Op,
    rs: Seq<MapTransformResult<V, R>>,
    new: HashTrie<H, F, K, V, M>,
    out: R,
)
    requires
        trie.transformed_to(reduce_op, op, rs, new, out),
        unchanged(rs),
    ensures
        new == trie,
        new.alike(&trie),
{
    trie.lemma_alike_self();
}

/// Whether `both_op` never answers anything but the left entry that it was
/// asked about.
pub open spec fn gives_left<K, V, W, R, Bo: Fn(&K, &V, &K, &W) -> MapTransmuteResult<K, V, R>>(
    both_op: &Bo,
) -> bool {
    forall|k: K, v: V, l: K, w: W, a: MapTransmuteResult<K, V, R>| #[trigger]
        both_op.ensures((&k, &v, &l, &w), a) ==> moved(a) == seq![(k, v)]
}

/// Where no key occurs twice, every key finds its own entry.
proof fn lemma_finds_itself<K, V>(s: Seq<(K, V)>, i: int)
    requires
        distinct(s),
        0 <= i < s.len(),
    ensures
        lookup(s, s[i].0) == Some(s[i]),
    decreases s.len(),
{
    if i > 0 {
        let t = s.drop_first();
        assert forall|x: int, y: int| 0 <= x < y < t.len() implies t[x].0 != t[y].0 by {
            assert(t[x] == s[x + 1] && t[y] == s[y + 1]);
        }
        assert(t[i - 1] == s[i]);
        lemma_finds_itself(t, i - 1);
        assert(s[0].0 != s[i].0);
    }
}

/// A run of entries joined with itself has a question about each entry and
/// itself, and no other.
proof fn lemma_jobs_with_itself<K, V>(s: Seq<(K, V)>)
    requires
        distinct(s),
    ensures
        jobs(s, s) == Seq::new(s.len(), |i: int| Job::<K, V, V>::Both(s[i], s[i])),
{
    let target = Seq::new(s.len(), |i: int| Job::<K, V, V>::Both(s[i], s[i]));
    let none = Seq::<Job<K, V, V>>::empty();
    assert forall|j: int| 0 <= j < s.len() implies lookup(s, (#[trigger] s[j]).0).is_some() by {
        lemma_finds_itself(s, j);
    }
    lemma_no_right_jobs(s, s, s.len() as int);
    assert(s.subrange(0, s.len() as int) =~= s);
    lemma_left_jobs_len(s, s);
    assert forall|i: int| 0 <= i < s.len() implies left_jobs(s, s)[i] == target[i] by {
        lemma_left_jobs(s, s, i);
        lemma_finds_itself(s, i);
    }
    assert(left_jobs(s, s) =~= target);
    assert(none + left_jobs(s, s) =~= left_jobs(s, s));
}

/// The first `n` right entries ask no question where the left run has all
/// their keys.
proof fn lemma_no_right_jobs<K, V, W>(ls: Seq<(K, V)>, rs: Seq<(K, W)>, n: int)
    requires
        0 <= n <= rs.len(),
        forall|j: int| 0 <= j < n ==> lookup(ls, (#[trigger] rs[j]).0).is_some(),
    ensures
        right_jobs(ls, rs.subrange(0, n)) == Seq::<Job<K, V, W>>::empty(),
    decreases n,
{
    let part = rs.subrange(0, n);
    if n > 0 {
        assert(part.drop_first() =~= rs.subrange(1, n));
        let t = rs.drop_first();
        assert(rs.subrange(1, n) =~= t.subrange(0, n - 1));
        assert forall|j: int| 0 <= j < n - 1 implies lookup(ls, (#[trigger] t[j]).0).is_some() by {
            assert(t[j] == rs[j + 1]);
        }
        lemma_no_right_jobs(ls, t, n - 1);
        assert(part[0] == rs[0]);
        assert(Seq::<Job<K, V, W>>::empty() + Seq::<Job<K, V, W>>::empty() =~= Seq::<
            Job<K, V, W>,
        >::empty());
    }
}

/// Answers that each give the entry at their place give the entries.
proof fn lemma_all_moved<S, X, R>(rs: Seq<MapTransmuteResult<S, X, R>>, es: Seq<(S, X)>)
    requires
        rs.len() == es.len(),
        forall|i: int| 0 <= i < rs.len() ==> moved(#[trigger] rs[i]) == seq![es[i]],
    ensures
        transmuted(rs) == es,
    decreases rs.len(),
{
    if rs.len() > 0 {
        let rt = rs.drop_first();
        let et = es.drop_first();
        assert forall|i: int| 0 <= i < rt.len() implies moved(#[trigger] rt[i]) == seq![et[i]] by {
            assert(rt[i] == rs[i + 1] && et[i] == es[i + 1]);
        }
        lemma_all_moved(rt, et);
        assert(seq![es[0]] + et =~= es);
    } else {
        assert(transmuted(rs) =~= es);
    }
}

/// The join of a trie with itself, where `both_op` answers the left entry
/// that it was asked about, is the trie.
pub proof fn law_joint_identity<
    H: Hashword,
    F: Flagword,
    K: Key,
    V: Value,
    M: HasherBv<H, K>,
    R,
    Bo: Fn(&K, &V, &K, &V) -> MapTransmuteResult<K, V, R>,
    Lo: Fn(&K, &V) -> MapTransmuteResult<K, V, R>,
    Ro: Fn(&K, &V) -> MapTransmuteResult<K, V, R>,
>(
    trie: HashTrie<H, F, K, V, M>,
    both_op: &Bo,
    left_op: &Lo,
    right_op: &Ro,
    out: HashTrie<H, F, K, V, M>,
)
    requires
        trie.inv(),
        gives_left(both_op),
        trie.joins_to(&trie, both_op, left_op, right_op, out),
    ensures
        out.alike(&trie),
{
    trie.lemma_entries();
    assert forall|h: H| #[trigger]
        bucket::<H, K, V, M>(out.entries(), h) == bucket::<H, K, V, M>(trie.entries(), h) by {
        let b = bucket::<H, K, V, M>(trie.entries(), h);
        let o = bucket::<H, K, V, M>(out.entries(), h);
        assert(distinct(b));
        assert(joined_bucket(both_op, left_op, right_op, b, b, o));
        let rs = choose|rs: Seq<MapTransmuteResult<K, V, R>>| #[trigger]
            job_answers(both_op, left_op, right_op, jobs(b, b), rs) && o == transmuted(rs);
        lemma_jobs_with_itself(b);
        assert forall|i: int| 0 <= i < rs.len() implies moved(#[trigger] rs[i]) == seq![b[i]] by {
            assert(job_answer(both_op, left_op, right_op, jobs(b, b)[i], rs[i]));
        }
        lemma_all_moved(rs, b);
    }
    out.lemma_canonical(&trie);
}

/// Whether the second three operations are the first three with left and
/// right exchanged: asked about the same entries, they give the same entry
/// or both give none.
pub open spec fn exchanged<
    K,
    V,
    W,
    S,
    X,
    R,
    Bo: Fn(&K, &V, &K, &W) -> MapTransmuteResult<S, X, R>,
    Lo: Fn(&K, &V) -> MapTransmuteResult<S, X, R>,
    Ro: Fn(&K, &W) -> MapTransmuteResult<S, X, R>,
    Bx: Fn(&K, &W, &K, &V) -> MapTransmuteResult<S, X, R>,
    Lx: Fn(&K, &W) -> MapTransmuteResult<S, X, R>,
    Rx: Fn(&K, &V) -> MapTransmuteResult<S, X, R>,
>(both: &Bo, left: &Lo, right: &Ro, both_x: &Bx, left_x: &Lx, right_x: &Rx) -> bool {
    &&& forall|
        k: K,
        v: V,
        l: K,
        w: W,
        a: MapTransmuteResult<S, X, R>,
        b: MapTransmuteResult<S, X, R>,
    |
        #[trigger] both.ensures((&k, &v, &l, &w), a) && #[trigger] both_x.ensures(
            (&l, &w, &k, &v),
            b,
        ) ==> moved(a) == moved(b)
    &&& forall|k: K, v: V, a: MapTransmuteResult<S, X, R>, b: MapTransmuteResult<S, X, R>|
        #[trigger] left.ensures((&k, &v), a) && #[trigger] right_x.ensures((&k, &v), b) ==> moved(a)
            == moved(b)
    &&& forall|l: K, w: W, a: MapTransmuteResult<S, X, R>, b: MapTransmuteResult<S, X, R>|
        #[trigger] right.ensures((&l, &w), a) && #[trigger] left_x.ensures((&l, &w), b) ==> moved(a)
            == moved(b)
}

/// The question about the same entries with left and right exchanged.
pub open spec fn mirror<K, V, W>(job: Job<K, V, W>) -> Job<K, W, V> {
    match job {
        Job::Both(x, y) => Job::Both(y, x),
        Job::Left(x) => Job::Right(x),
        Job::Right(y) => Job::Left(y),
    }
}

/// A right entry whose key the left run has not asks a question.
proof fn lemma_right_job_of<K, V, W>(ls: Seq<(K, V)>, rs: Seq<(K, W)>, p: int) -> (j: int)
    requires
        0 <= p < rs.len(),
        lookup(ls, rs[p].0).is_none(),
    ensures
        0 <= j < right_jobs(ls, rs).len(),
        right_jobs(ls, rs)[j] == Job::<K, V, W>::Right(rs[p]),
    decreases rs.len(),
{
    let t = rs.drop_first();
    if p == 0 {
        0
    } else {
        assert(t[p - 1] == rs[p]);
        let j = lemma_right_job_of(ls, t, p - 1);
        if lookup(ls, rs[0].0).is_none() {
            j + 1
        } else {
            j
        }
    }
}

/// Every question about two runs has its mirror among the questions about
/// the runs exchanged.
proof fn lemma_mirrored<K, V, W>(ls: Seq<(K, V)>, rs: Seq<(K, W)>, i: int) -> (j: int)
    requires
        distinct(ls),
        distinct(rs),
        0 <= i < jobs(ls, rs).len(),
    ensures
        0 <= j < jobs(rs, ls).len(),
        jobs(rs, ls)[j] == mirror(jobs(ls, rs)[i]),
{
    let rj = right_jobs(ls, rs);
    let lj = left_jobs(ls, rs);
    let xr = right_jobs(rs, ls);
    let xl = left_jobs(rs, ls);
    lemma_left_jobs_len(ls, rs);
    lemma_left_jobs_len(rs, ls);
    if i < rj.len() {
        let p = lemma_right_jobs(ls, rs, i);
        lemma_left_jobs(rs, ls, p);
        assert(jobs(ls, rs)[i] == rj[i]);
        assert(jobs(rs, ls)[xr.len() + p] == xl[p]);
        xr.len() + p
    } else {
        let q = i - rj.len();
        lemma_left_jobs(ls, rs, q);
        assert(jobs(ls, rs)[i] == lj[q]);
        if lookup(rs, ls[q].0).is_some() {
            let p = lemma_lookup_some(rs, ls[q].0);
            lemma_left_jobs(rs, ls, p);
            lemma_finds_itself(ls, q);
            assert(jobs(rs, ls)[xr.len() + p] == xl[p]);
            xr.len() + p
        } else {
            let j = lemma_right_job_of(rs, ls, q);
            assert(jobs(rs, ls)[j] == xr[j]);
            j
        }
    }
}

/// An entry that one answer gives is among the entries that the answers
/// give.
proof fn lemma_moved_in<S, X, R>(rs: Seq<MapTransmuteResult<S, X, R>>, i: int)
    requires
        0 <= i < rs.len(),
        moved(rs[i]).len() > 0,
    ensures
        transmuted(rs).contains(moved(rs[i])[0]),
    decreases rs.len(),
{
    let head = moved(rs[0]);
    let rt = rs.drop_first();
    let tt = transmuted(rt);
    if i == 0 {
        assert((head + tt)[0] == head[0]);
    } else {
        assert(rt[i - 1] == rs[i]);
        lemma_moved_in(rt, i - 1);
        let x = choose|x: int| 0 <= x < tt.len() && tt[x] == moved(rs[i])[0];
        assert((head + tt)[head.len() + x] == tt[x]);
    }
}

/// Every entry of the join of two runs is an entry of the join of the runs
/// exchanged, with the operations exchanged.
proof fn lemma_join_covered<
    K,
    V,
    W,
    S,
    X,
    R,
    Bo: Fn(&K, &V, &K, &W) -> MapTransmuteResult<S, X, R>,
    Lo: Fn(&K, &V) -> MapTransmuteResult<S, X, R>,
    Ro: Fn(&K, &W) -> MapTransmuteResult<S, X, R>,
    Bx: Fn(&K, &W, &K, &V) -> MapTransmuteResult<S, X, R>,
    Lx: Fn(&K, &W) -> MapTransmuteResult<S, X, R>,
    Rx: Fn(&K, &V) -> MapTransmuteResult<S, X, R>,
>(
    both: &Bo,
    left: &Lo,
    right: &Ro,
    both_x: &Bx,
    left_x: &Lx,
    right_x: &Rx,
    ls: Seq<(K, V)>,
    rs: Seq<(K, W)>,
    one: Seq<MapTransmuteResult<S, X, R>>,
    other: Seq<MapTransmuteResult<S, X, R>>,
    j: int,
)
    requires
        distinct(ls),
        distinct(rs),
        exchanged(both, left, right, both_x, left_x, right_x),
        job_answers(both, left, right, jobs(ls, rs), one),
        job_answers(both_x, left_x, right_x, jobs(rs, ls), other),
        0 <= j < transmuted(one).len(),
    ensures
        transmuted(other).contains(transmuted(one)[j]),
{
    let i = lemma_transmuted_at(one, j);
    let m = lemma_mirrored(ls, rs, i);
    let job = jobs(ls, rs)[i];
    assert(job_answer(both, left, right, job, one[i]));
    assert(job_answer(both_x, left_x, right_x, jobs(rs, ls)[m], other[m]));
    assert(moved(other[m]) == moved(one[i]));
    lemma_moved_in(other, m);
}

/// Two runs of entries with distinct keys that hold the same entries give
/// every key the same entry.
proof fn lemma_same_lookup<K, V>(a: Seq<(K, V)>, b: Seq<(K, V)>, k: K)
    requires
        distinct(a),
        distinct(b),
        forall|i: int| 0 <= i < a.len() ==> b.contains(#[trigger] a[i]),
        forall|i: int| 0 <= i < b.len() ==> a.contains(#[trigger] b[i]),
    ensures
        lookup(a, k) == lookup(b, k),
{
    if lookup(a, k).is_some() {
        let i = lemma_lookup_some(a, k);
        assert(b.contains(a[i]));
        let j = choose|j: int| 0 <= j < b.len() && b[j] == a[i];
        lemma_finds_itself(b, j);
    } else if lookup(b, k).is_some() {
        let j = lemma_lookup_some(b, k);
        assert(a.contains(b[j]));
        let i = choose|i: int| 0 <= i < a.len() && a[i] == b[j];
        lemma_finds_itself(a, i);
    }
}

/// Whether no two entries of `s` have keys of the same hash.
pub open spec fn one_each<H, K, V, M: HasherBv<H, K>>(s: Seq<(K, V)>) -> bool {
    forall|i: int, j: int|
        0 <= i < j < s.len() ==> M::spec_hash(#[trigger] s[i].0) != M::spec_hash(#[trigger] s[j].0)
}

/// Where no two entries have keys of the same hash, no hash has more than
/// one entry.
proof fn lemma_one_each<H, K, V, M: HasherBv<H, K>>(s: Seq<(K, V)>, h: H)
    requires
        one_each::<H, K, V, M>(s),
        distinct(bucket::<H, K, V, M>(s, h)),
    ensures
        bucket::<H, K, V, M>(s, h).len() <= 1,
{
    let b = bucket::<H, K, V, M>(s, h);
    lemma_bucket_from::<H, K, V, M>(s, h);
    if b.len() >= 2 {
        assert(s.contains(b[0]) && s.contains(b[1]));
        let i = choose|i: int| 0 <= i < s.len() && s[i] == b[0];
        let j = choose|j: int| 0 <= j < s.len() && s[j] == b[1];
        assert(b[0].0 != b[1].0);
        assert(M::spec_hash(s[i].0) == h && M::spec_hash(s[j].0) == h);
        assert(i < j || j < i);
    }
}

/// Two runs of entries with distinct keys that hold the same entries, the
/// first of them one entry at most, are the same run.
proof fn lemma_same_run<K, V>(a: Seq<(K, V)>, b: Seq<(K, V)>)
    requires
        distinct(b),
        a.len() <= 1,
        forall|i: int| 0 <= i < a.len() ==> b.contains(#[trigger] a[i]),
        forall|i: int| 0 <= i < b.len() ==> a.contains(#[trigger] b[i]),
    ensures
        a == b,
{
    if b.len() > 0 {
        assert(a.contains(b[0]));
        if b.len() >= 2 {
            assert(a.contains(b[1]));
            assert(b[0] == a[0] && b[1] == a[0]);
        }
    } else if a.len() > 0 {
        assert(b.contains(a[0]));
    }
    assert(a =~= b);
}

/// For each hash, the join of two tries and the join of the same tries
/// exchanged, with the operations exchanged, hold the same entries.
proof fn lemma_join_mirrored<
    H: Hashword,
    F: Flagword,
    K: Key,
    V: Value,
    W: Value,
    S: Key,
    X: Value,
    M: HasherBv<H, K> + HasherBv<H, S>,
    R,
    Bo: Fn(&K, &V, &K, &W) -> MapTransmuteResult<S, X, R>,
    Lo: Fn(&K, &V) -> MapTransmuteResult<S, X, R>,
    Ro: Fn(&K, &W) -> MapTransmuteResult<S, X, R>,
    Bx: Fn(&K, &W, &K, &V) -> MapTransmuteResult<S, X, R>,
    Lx: Fn(&K, &W) -> MapTransmuteResult<S, X, R>,
    Rx: Fn(&K, &V) -> MapTransmuteResult<S, X, R>,
>(
    a: HashTrie<H, F, K, V, M>,
    b: HashTrie<H, F, K, W, M>,
    both: &Bo,
    left: &Lo,
    right: &Ro,
    both_x: &Bx,
    left_x: &Lx,
    right_x: &Rx,
    ab: HashTrie<H, F, S, X, M>,
    ba: HashTrie<H, F, S, X, M>,
    h: H,
)
    requires
        a.inv(),
        b.inv(),
        exchanged(both, left, right, both_x, left_x, right_x),
        a.joins_to(&b, both, left, right, ab),
        b.joins_to(&a, both_x, left_x, right_x, ba),
    ensures
        ({
            let oa = bucket::<H, S, X, M>(ab.entries(), h);
            let ob = bucket::<H, S, X, M>(ba.entries(), h);
            &&& distinct(oa)
            &&& distinct(ob)
            &&& forall|i: int| 0 <= i < oa.len() ==> ob.contains(#[trigger] oa[i])
            &&& forall|i: int| 0 <= i < ob.len() ==> oa.contains(#[trigger] ob[i])
        }),
{
    a.lemma_entries();
    b.lemma_entries();
    ab.lemma_entries();
    ba.lemma_entries();
    let la = bucket::<H, K, V, M>(a.entries(), h);
    let lb = bucket::<H, K, W, M>(b.entries(), h);
    let oa = bucket::<H, S, X, M>(ab.entries(), h);
    let ob = bucket::<H, S, X, M>(ba.entries(), h);
    assert(distinct(la) && distinct(lb) && distinct(oa) && distinct(ob));
    assert(joined_bucket(both, left, right, la, lb, oa));
    assert(joined_bucket(both_x, left_x, right_x, lb, la, ob));
    let one = choose|rs: Seq<MapTransmuteResult<S, X, R>>| #[trigger]
        job_answers(both, left, right, jobs(la, lb), rs) && oa == transmuted(rs);
    let other = choose|rs: Seq<MapTransmuteResult<S, X, R>>| #[trigger]
        job_answers(both_x, left_x, right_x, jobs(lb, la), rs) && ob == transmuted(rs);
    assert forall|i: int| 0 <= i < oa.len() implies ob.contains(#[trigger] oa[i]) by {
        lemma_join_covered(both, left, right, both_x, left_x, right_x, la, lb, one, other, i);
    }
    assert forall|i: int| 0 <= i < ob.len() implies oa.contains(#[trigger] ob[i]) by {
        lemma_join_covered(both_x, left_x, right_x, both, left, right, lb, la, other, one, i);
    }
}

/// The join of two tries and the join of the same tries exchanged, with the
/// operations exchanged, stand for the same map. Where no two keys of the
/// join have the same hash, the two are the same trie.
///
/// Where keys of the join do have the same hash, the two need not be the
/// same trie: each holds the colliding entries in an order of its own.
pub proof fn law_joint_symmetry<
    H: Hashword,
    F: Flagword,
    K: Key,
    V: Value,
    W: Value,
    S: Key,
    X: Value,
    M: HasherBv<H, K> + HasherBv<H, S>,
    R,
    Bo: Fn(&K, &V, &K, &W) -> MapTransmuteResult<S, X, R>,
    Lo: Fn(&K, &V) -> MapTransmuteResult<S, X, R>,
    Ro: Fn(&K, &W) -> MapTransmuteResult<S, X, R>,
    Bx: Fn(&K, &W, &K, &V) -> MapTransmuteResult<S, X, R>,
    Lx: Fn(&K, &W) -> MapTransmuteResult<S, X, R>,
    Rx: Fn(&K, &V) -> MapTransmuteResult<S, X, R>,
>(
    a: HashTrie<H, F, K, V, M>,
    b: HashTrie<H, F, K, W, M>,
    both: &Bo,
    left: &Lo,
    right: &Ro,
    both_x: &Bx,
    left_x: &Lx,
    right_x: &Rx,
    ab: HashTrie<H, F, S, X, M>,
    ba: HashTrie<H, F, S, X, M>,
)
    requires
        a.inv(),
        b.inv(),
        exchanged(both, left, right, both_x, left_x, right_x),
        a.joins_to(&b, both, left, right, ab),
        b.joins_to(&a, both_x, left_x, right_x, ba),
    ensures
        ab@ == ba@,
        one_each::<H, S, X, M>(ab.entries()) ==> ab.alike(&ba),
{
    ab.lemma_view();
    ba.lemma_view();
    assert forall|s: S| lookup(ab.entries(), s) == lookup(ba.entries(), s) by {
        let h = <M as HasherBv<H, S>>::spec_hash(s);
        lemma_lookup_bucket::<H, S, X, M>(ab.entries(), s);
        lemma_lookup_bucket::<H, S, X, M>(ba.entries(), s);
        lemma_join_mirrored(a, b, both, left, right, both_x, left_x, right_x, ab, ba, h);
        lemma_same_lookup(
            bucket::<H, S, X, M>(ab.entries(), h),
            bucket::<H, S, X, M>(ba.entries(), h),
            s,
        );
    }
    assert(ab@ =~= ba@);
    if one_each::<H, S, X, M>(ab.entries()) {
        assert forall|h: H| #[trigger]
            bucket::<H, S, X, M>(ab.entries(), h) == bucket::<H, S, X, M>(ba.entries(), h) by {
            lemma_join_mirrored(a, b, both, left, right, both_x, left_x, right_x, ab, ba, h);
            lemma_one_each::<H, S, X, M>(ab.entries(), h);
            lemma_same_run(
                bucket::<H, S, X, M>(ab.entries(), h),
                bucket::<H, S, X, M>(ba.entries(), h),
            );
        }
        ab.lemma_canonical(&ba);
    }
}

/// The shape of a well-formed branch: each child stands at the place that
/// the number of slots below its slot gives and holds only keys whose hash
/// selects that slot; no child is empty; and below the root the branch is
/// not empty, has more than a single leaf below it, and holds keys of more
/// than one hash.
pub proof fn law_branch_shape<H: Hashword, F: Slots, K, V, M: HasherBv<H, K>>(
    node: MNode<H, F, K, V, M>,
    depth: nat,
)
    requires
        node.wf(depth),
        node is C,
    ensures
        ({
            let cnode = node->C_0;
            &&& forall|i: nat| #[trigger]
                cnode.bitmap.has(i) ==> rank(cnode.bitmap, i) < cnode.nodes@.len() && slotted::<
                    H,
                    F,
                    K,
                    V,
                    M,
                >(cnode.nodes@[rank(cnode.bitmap, i) as int].entries(), depth, i)
            &&& forall|j: int|
                0 <= j < cnode.nodes@.len() ==> (#[trigger] cnode.nodes@[j]).entries().len() > 0
            &&& depth > 0 ==> cnode.nodes@.len() >= 2 || (cnode.nodes@.len() == 1
                && cnode.nodes@[0] is C)
            &&& depth > 0 ==> mixed::<H, K, V, M>(node.entries())
            &&& cnode.size == node.entries().len()
        }),
{
    let cnode = node->C_0;
    assert forall|i: nat| #[trigger] cnode.bitmap.has(i) implies rank(cnode.bitmap, i)
        < cnode.nodes@.len() by {
        lemma_slot_at_rank(cnode.bitmap, i);
    }
    node.lemma_kind(depth);
}

/// A collision list holds two entries or more.
pub proof fn law_list_shape<K, V>(lnode: LNode<K, V>)
    ensures
        lnode@.len() >= 2,
{
    lnode.lemma_len();
}

} // verus!
