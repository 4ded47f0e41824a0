//! The model of the joint walk over two tries: which operation is asked
//! about which entries, and what the answers make.

use vstd::prelude::*;
use crate::entries::{
    all_hash, bucket, distinct, lemma_bucket_add, lemma_bucket_all, lemma_bucket_from,
    lemma_bucket_has, lemma_lookup_none, lemma_lookup_some, lookup, ready, slotted,
};
use crate::flag::slot_of;
use crate::ops::{
    answers, keeps_apart, keeps_hash, lemma_transmuted_add, lemma_transmuted_at,
    lemma_transmuted_len, moved, new_key, transmuted,
};
use crate::result::MapTransmuteResult;
use crate::traits::HasherBv;
use crate::word::{agree, lemma_agree_step, Hashword, Slots};

verus! {

/// One question of the joint walk: about an entry of the left trie and the
/// entry of the same key in the right trie, about an entry that only the
/// left trie has, or about one that only the right trie has.
pub enum Job<K, V, W> {
    Both((K, V), (K, W)),
    Left((K, V)),
    Right((K, W)),
}

impl<K, V, W> Job<K, V, W> {
    /// The key that the question is about.
    pub open spec fn key(self) -> K {
        match self {
            Job::Both(a, _) => a.0,
            Job::Left(a) => a.0,
            Job::Right(b) => b.0,
        }
    }
}

/// The question about the left entry `e`, given the right entries `rs`.
pub open spec fn job_for<K, V, W>(e: (K, V), rs: Seq<(K, W)>) -> Job<K, V, W> {
    match lookup(rs, e.0) {
        Some(b) => Job::Both(e, b),
        None => Job::Left(e),
    }
}

/// The questions about the left entries `ls`, in their order.
pub open spec fn left_jobs<K, V, W>(ls: Seq<(K, V)>, rs: Seq<(K, W)>) -> Seq<Job<K, V, W>>
    decreases ls.len(),
{
    if ls.len() == 0 {
        Seq::empty()
    } else {
        seq![job_for(ls[0], rs)] + left_jobs(ls.drop_first(), rs)
    }
}

/// The questions about the right entries `rs` whose keys are not among the
/// left entries `ls`, in their order.
pub open spec fn right_jobs<K, V, W>(ls: Seq<(K, V)>, rs: Seq<(K, W)>) -> Seq<Job<K, V, W>>
    decreases rs.len(),
{
    if rs.len() == 0 {
        Seq::empty()
    } else {
        (if lookup(ls, rs[0].0).is_none() {
            seq![Job::Right(rs[0])]
        } else {
            Seq::empty()
        }) + right_jobs(ls, rs.drop_first())
    }
}

/// The questions about two runs of entries of one hash: first those about
/// the entries that only the right run has, then those about the entries of
/// the left run.
pub open spec fn jobs<K, V, W>(ls: Seq<(K, V)>, rs: Seq<(K, W)>) -> Seq<Job<K, V, W>> {
    right_jobs(ls, rs) + left_jobs(ls, rs)
}

/// Whether `a` is something that the operation for the question `job` may
/// answer.
pub open spec fn job_answer<
    K,
    V,
    W,
    S,
    X,
    R,
    Bo: Fn(&K, &V, &K, &W) -> MapTransmuteResult<S, X, R>,
    Lo: Fn(&K, &V) -> MapTransmuteResult<S, X, R>,
    Ro: Fn(&K, &W) -> MapTransmuteResult<S, X, R>,
>(both: &Bo, left: &Lo, right: &Ro, job: Job<K, V, W>, a: MapTransmuteResult<S, X, R>) -> bool {
    match job {
        Job::Both(x, y) => both.ensures((&x.0, &x.1, &y.0, &y.1), a),
        Job::Left(x) => left.ensures((&x.0, &x.1), a),
        Job::Right(y) => right.ensures((&y.0, &y.1), a),
    }
}

/// Whether `a` is something that may be answered for the question `job`
/// about a left entry.
pub open spec fn left_answer<
    K,
    V,
    W,
    S,
    X,
    R,
    Bo: Fn(&K, &V, &K, &W) -> MapTransmuteResult<S, X, R>,
    Lo: Fn(&K, &V) -> MapTransmuteResult<S, X, R>,
>(both: &Bo, left: &Lo, job: Job<K, V, W>, a: MapTransmuteResult<S, X, R>) -> bool {
    match job {
        Job::Both(x, y) => both.ensures((&x.0, &x.1, &y.0, &y.1), a),
        Job::Left(x) => left.ensures((&x.0, &x.1), a),
        Job::Right(y) => false,
    }
}

/// Whether `a` is something that may be answered for the question `job`
/// about an entry that only the right run has.
pub open spec fn right_answer<K, V, W, S, X, R, Ro: Fn(&K, &W) -> MapTransmuteResult<S, X, R>>(
    right: &Ro,
    job: Job<K, V, W>,
    a: MapTransmuteResult<S, X, R>,
) -> bool {
    match job {
        Job::Right(y) => right.ensures((&y.0, &y.1), a),
        _ => false,
    }
}

/// Whether `rs` holds an answer for each question about the left entries
/// `la`, and `out` holds the entries that these answers give.
pub open spec fn lefts_answered<
    K,
    V,
    W,
    S,
    X,
    R,
    Bo: Fn(&K, &V, &K, &W) -> MapTransmuteResult<S, X, R>,
    Lo: Fn(&K, &V) -> MapTransmuteResult<S, X, R>,
>(
    both: &Bo,
    left: &Lo,
    la: Seq<(K, V)>,
    lb: Seq<(K, W)>,
    rs: Seq<MapTransmuteResult<S, X, R>>,
    out: Seq<(S, X)>,
) -> bool {
    &&& rs.len() == la.len()
    &&& forall|i: int|
        0 <= i < la.len() ==> left_answer(both, left, job_for(#[trigger] la[i], lb), rs[i])
    &&& out == transmuted(rs)
}

/// Whether `rs` holds an answer for each question about the entries that
/// only the right run `lb` has, and `out` holds the entries that these
/// answers give, followed by `tail`.
pub open spec fn rights_answered<K, V, W, S, X, R, Ro: Fn(&K, &W) -> MapTransmuteResult<S, X, R>>(
    right: &Ro,
    la: Seq<(K, V)>,
    lb: Seq<(K, W)>,
    rs: Seq<MapTransmuteResult<S, X, R>>,
    out: Seq<(S, X)>,
    tail: Seq<(S, X)>,
) -> bool {
    &&& rs.len() == right_jobs(la, lb).len()
    &&& forall|j: int|
        0 <= j < rs.len() ==> right_answer(right, #[trigger] right_jobs(la, lb)[j], rs[j])
    &&& out == transmuted(rs) + tail
}

/// Whether `rs` holds an answer for each question of `js`.
pub open spec fn job_answers<
    K,
    V,
    W,
    S,
    X,
    R,
    Bo: Fn(&K, &V, &K, &W) -> MapTransmuteResult<S, X, R>,
    Lo: Fn(&K, &V) -> MapTransmuteResult<S, X, R>,
    Ro: Fn(&K, &W) -> MapTransmuteResult<S, X, R>,
>(
    both: &Bo,
    left: &Lo,
    right: &Ro,
    js: Seq<Job<K, V, W>>,
    rs: Seq<MapTransmuteResult<S, X, R>>,
) -> bool {
    &&& rs.len() == js.len()
    &&& forall|i: int| 0 <= i < js.len() ==> job_answer(both, left, right, #[trigger] js[i], rs[i])
}

/// Whether `out` is what the answers to the questions about the runs `la`
/// and `lb`, two runs of entries of one hash, give.
pub open spec fn joined_bucket<
    K,
    V,
    W,
    S,
    X,
    R,
    Bo: Fn(&K, &V, &K, &W) -> MapTransmuteResult<S, X, R>,
    Lo: Fn(&K, &V) -> MapTransmuteResult<S, X, R>,
    Ro: Fn(&K, &W) -> MapTransmuteResult<S, X, R>,
>(both: &Bo, left: &Lo, right: &Ro, la: Seq<(K, V)>, lb: Seq<(K, W)>, out: Seq<(S, X)>) -> bool {
    exists|rs: Seq<MapTransmuteResult<S, X, R>>| #[trigger]
        job_answers(both, left, right, jobs(la, lb), rs) && out == transmuted(rs)
}

/// Whether `out` is the join of the entries `a` and `b`: for every hash,
/// the entries of that hash in `out` are what the answers to the questions
/// about the entries of that hash in `a` and in `b` give.
pub open spec fn joined<
    H,
    K,
    V,
    W,
    S,
    X,
    R,
    M: HasherBv<H, K> + HasherBv<H, S>,
    Bo: Fn(&K, &V, &K, &W) -> MapTransmuteResult<S, X, R>,
    Lo: Fn(&K, &V) -> MapTransmuteResult<S, X, R>,
    Ro: Fn(&K, &W) -> MapTransmuteResult<S, X, R>,
>(both: &Bo, left: &Lo, right: &Ro, a: Seq<(K, V)>, b: Seq<(K, W)>, out: Seq<(S, X)>) -> bool {
    forall|h: H|
        joined_bucket(
            both,
            left,
            right,
            bucket::<H, K, V, M>(a, h),
            bucket::<H, K, W, M>(b, h),
            #[trigger] bucket::<H, S, X, M>(out, h),
        )
}

/// Whether the operation for the question `job` may be called on it.
pub open spec fn job_ready<
    K,
    V,
    W,
    A,
    Bo: Fn(&K, &V, &K, &W) -> A,
    Lo: Fn(&K, &V) -> A,
    Ro: Fn(&K, &W) -> A,
>(both: &Bo, left: &Lo, right: &Ro, job: Job<K, V, W>) -> bool {
    match job {
        Job::Both(x, y) => both.requires((&x.0, &x.1, &y.0, &y.1)),
        Job::Left(x) => left.requires((&x.0, &x.1)),
        Job::Right(y) => right.requires((&y.0, &y.1)),
    }
}

/// Whether `job` is a question that the joint walk over the entries `a` and
/// `b` asks: about an entry of `a` and the entry of its key in `b`, about
/// an entry of `a` whose key `b` has not, or about an entry of `b` whose key
/// `a` has not.
pub open spec fn possible<K, V, W>(a: Seq<(K, V)>, b: Seq<(K, W)>, job: Job<K, V, W>) -> bool {
    match job {
        Job::Both(x, y) => a.contains(x) && lookup(b, x.0) == Some(y),
        Job::Left(x) => a.contains(x) && lookup(b, x.0).is_none(),
        Job::Right(y) => b.contains(y) && lookup(a, y.0).is_none(),
    }
}

/// Whether the operations may be called for the questions about the left
/// entries `la`.
pub open spec fn lefts_ready<K, V, W, A, Bo: Fn(&K, &V, &K, &W) -> A, Lo: Fn(&K, &V) -> A>(
    both: &Bo,
    left: &Lo,
    la: Seq<(K, V)>,
    lb: Seq<(K, W)>,
) -> bool {
    forall|i: int|
        0 <= i < la.len() ==> match lookup(lb, (#[trigger] la[i]).0) {
            Some(y) => both.requires((&la[i].0, &la[i].1, &y.0, &y.1)),
            None => left.requires((&la[i].0, &la[i].1)),
        }
}

/// Whether `right` may be called on the entries that only the right run
/// `lb` has.
pub open spec fn rights_ready<K, V, W, A, Ro: Fn(&K, &W) -> A>(
    right: &Ro,
    la: Seq<(K, V)>,
    lb: Seq<(K, W)>,
) -> bool {
    forall|j: int|
        0 <= j < lb.len() && lookup(la, (#[trigger] lb[j]).0).is_none() ==> right.requires(
            (&lb[j].0, &lb[j].1),
        )
}

/// Whether every answer to a question about entries of `a` and `b` gives a
/// key with the hash of the key that the question is about.
pub open spec fn joint_keeps_hash<
    H,
    K,
    V,
    W,
    S,
    X,
    R,
    M: HasherBv<H, K> + HasherBv<H, S>,
    Bo: Fn(&K, &V, &K, &W) -> MapTransmuteResult<S, X, R>,
    Lo: Fn(&K, &V) -> MapTransmuteResult<S, X, R>,
    Ro: Fn(&K, &W) -> MapTransmuteResult<S, X, R>,
>(both: &Bo, left: &Lo, right: &Ro, a: Seq<(K, V)>, b: Seq<(K, W)>) -> bool {
    forall|job: Job<K, V, W>, ans: MapTransmuteResult<S, X, R>|
        possible(a, b, job) && #[trigger] job_answer(both, left, right, job, ans) && new_key(
            ans,
        ).is_some() ==> <M as HasherBv<H, S>>::spec_hash(new_key(ans).unwrap()) == <M as HasherBv<
            H,
            K,
        >>::spec_hash(job.key())
}

/// Whether the answers to questions about different keys of one hash give
/// different keys.
pub open spec fn joint_keeps_apart<
    H,
    K,
    V,
    W,
    S,
    X,
    R,
    M: HasherBv<H, K>,
    Bo: Fn(&K, &V, &K, &W) -> MapTransmuteResult<S, X, R>,
    Lo: Fn(&K, &V) -> MapTransmuteResult<S, X, R>,
    Ro: Fn(&K, &W) -> MapTransmuteResult<S, X, R>,
>(both: &Bo, left: &Lo, right: &Ro, a: Seq<(K, V)>, b: Seq<(K, W)>) -> bool {
    forall|
        j1: Job<K, V, W>,
        j2: Job<K, V, W>,
        a1: MapTransmuteResult<S, X, R>,
        a2: MapTransmuteResult<S, X, R>,
    |
        possible(a, b, j1) && possible(a, b, j2) && j1.key() != j2.key() && M::spec_hash(j1.key())
            == M::spec_hash(j2.key()) && #[trigger] job_answer(both, left, right, j1, a1)
            && #[trigger] job_answer(both, left, right, j2, a2) && new_key(a1).is_some() && new_key(
            a2,
        ).is_some() ==> new_key(a1).unwrap() != new_key(a2).unwrap()
}

/// Whether the hashes of the keys of `a` and of `b` have the same bits
/// below the bits that level `depth` reads.
pub open spec fn aligned<H: Hashword, F: Slots, K, V, W, M: HasherBv<H, K>>(
    a: Seq<(K, V)>,
    b: Seq<(K, W)>,
    depth: nat,
) -> bool {
    forall|i: int, j: int|
        0 <= i < a.len() && 0 <= j < b.len() ==> agree(
            M::spec_hash((#[trigger] a[i]).0),
            M::spec_hash((#[trigger] b[j]).0),
            depth * F::log_width(),
        )
}

/// What the three operations must allow and keep for the joint walk over
/// the entries `a` and `b`: each may be called for the questions that the
/// walk asks, each answer gives a key with the hash of the key that was
/// asked about, and answers for different keys give different keys.
pub open spec fn joint_ok<
    H,
    K,
    V,
    W,
    S,
    X,
    R,
    M: HasherBv<H, K> + HasherBv<H, S>,
    Bo: Fn(&K, &V, &K, &W) -> MapTransmuteResult<S, X, R>,
    Lo: Fn(&K, &V) -> MapTransmuteResult<S, X, R>,
    Ro: Fn(&K, &W) -> MapTransmuteResult<S, X, R>,
>(both: &Bo, left: &Lo, right: &Ro, a: Seq<(K, V)>, b: Seq<(K, W)>) -> bool {
    &&& forall|job: Job<K, V, W>| #[trigger]
        possible(a, b, job) ==> job_ready(both, left, right, job)
    &&& joint_keeps_hash::<H, K, V, W, S, X, R, M, Bo, Lo, Ro>(both, left, right, a, b)
    &&& joint_keeps_apart::<H, K, V, W, S, X, R, M, Bo, Lo, Ro>(both, left, right, a, b)
}

/// What holds of the operations for two runs of entries holds for parts of
/// them, where the parts hold every entry of the keys of the other part.
pub proof fn lemma_joint_ok_part<
    H,
    K,
    V,
    W,
    S,
    X,
    R,
    M: HasherBv<H, K> + HasherBv<H, S>,
    Bo: Fn(&K, &V, &K, &W) -> MapTransmuteResult<S, X, R>,
    Lo: Fn(&K, &V) -> MapTransmuteResult<S, X, R>,
    Ro: Fn(&K, &W) -> MapTransmuteResult<S, X, R>,
>(
    both: &Bo,
    left: &Lo,
    right: &Ro,
    a: Seq<(K, V)>,
    b: Seq<(K, W)>,
    pa: Seq<(K, V)>,
    pb: Seq<(K, W)>,
)
    requires
        joint_ok::<H, K, V, W, S, X, R, M, Bo, Lo, Ro>(both, left, right, a, b),
        forall|i: int| 0 <= i < pa.len() ==> a.contains(#[trigger] pa[i]),
        forall|i: int| 0 <= i < pb.len() ==> b.contains(#[trigger] pb[i]),
        forall|i: int| 0 <= i < pa.len() ==> lookup(b, (#[trigger] pa[i]).0) == lookup(pb, pa[i].0),
        forall|i: int| 0 <= i < pb.len() ==> lookup(a, (#[trigger] pb[i]).0) == lookup(pa, pb[i].0),
    ensures
        joint_ok::<H, K, V, W, S, X, R, M, Bo, Lo, Ro>(both, left, right, pa, pb),
{
    assert forall|job: Job<K, V, W>| #[trigger] possible(pa, pb, job) implies possible(
        a,
        b,
        job,
    ) by {
        match job {
            Job::Both(x, y) => {
                let i = choose|i: int| 0 <= i < pa.len() && pa[i] == x;
                assert(a.contains(pa[i]));
            },
            Job::Left(x) => {
                let i = choose|i: int| 0 <= i < pa.len() && pa[i] == x;
                assert(a.contains(pa[i]));
            },
            Job::Right(y) => {
                let j = choose|j: int| 0 <= j < pb.len() && pb[j] == y;
                assert(b.contains(pb[j]));
            },
        }
    }
}

/// What holds of the operations for a run of entries and nothing holds of
/// the left operation for the run alone.
pub proof fn lemma_joint_ok_left<
    H,
    K,
    V,
    W,
    S,
    X,
    R,
    M: HasherBv<H, K> + HasherBv<H, S>,
    Bo: Fn(&K, &V, &K, &W) -> MapTransmuteResult<S, X, R>,
    Lo: Fn(&K, &V) -> MapTransmuteResult<S, X, R>,
    Ro: Fn(&K, &W) -> MapTransmuteResult<S, X, R>,
>(both: &Bo, left: &Lo, right: &Ro, a: Seq<(K, V)>)
    requires
        joint_ok::<H, K, V, W, S, X, R, M, Bo, Lo, Ro>(
            both,
            left,
            right,
            a,
            Seq::<(K, W)>::empty(),
        ),
    ensures
        ready(left, a),
        keeps_hash::<H, K, V, S, X, R, M, Lo>(left, a),
        keeps_apart::<H, K, V, S, X, R, M, Lo>(left, a),
{
    let none = Seq::<(K, W)>::empty();
    assert forall|x: (K, V)| a.contains(x) implies #[trigger] possible(
        a,
        none,
        Job::<K, V, W>::Left(x),
    ) by {}
    assert forall|i: int| 0 <= i < a.len() implies left.requires(
        (&(#[trigger] a[i]).0, &a[i].1),
    ) by {
        assert(a.contains(a[i]));
        assert(possible(a, none, Job::<K, V, W>::Left(a[i])));
    }
    assert forall|e: (K, V), ans: MapTransmuteResult<S, X, R>|
        a.contains(e) && #[trigger] left.ensures((&e.0, &e.1), ans) && new_key(
            ans,
        ).is_some() implies <M as HasherBv<H, S>>::spec_hash(new_key(ans).unwrap()) == <
        M as HasherBv<H, K>
    >::spec_hash(e.0) by {
        assert(possible(a, none, Job::<K, V, W>::Left(e)));
        assert(job_answer(both, left, right, Job::<K, V, W>::Left(e), ans));
    }
    assert forall|
        e1: (K, V),
        e2: (K, V),
        x: MapTransmuteResult<S, X, R>,
        y: MapTransmuteResult<S, X, R>,
    |
        a.contains(e1) && a.contains(e2) && e1.0 != e2.0 && <M as HasherBv<H, K>>::spec_hash(e1.0)
            == <M as HasherBv<H, K>>::spec_hash(e2.0) && #[trigger] left.ensures(
            (&e1.0, &e1.1),
            x,
        ) && #[trigger] left.ensures((&e2.0, &e2.1), y) && new_key(x).is_some() && new_key(
            y,
        ).is_some() implies new_key(x).unwrap() != new_key(y).unwrap() by {
        assert(possible(a, none, Job::<K, V, W>::Left(e1)));
        assert(possible(a, none, Job::<K, V, W>::Left(e2)));
        assert(job_answer(both, left, right, Job::<K, V, W>::Left(e1), x));
        assert(job_answer(both, left, right, Job::<K, V, W>::Left(e2), y));
    }
}

/// What holds of the operations for nothing and a run of entries holds of
/// the right operation for the run alone.
pub proof fn lemma_joint_ok_right<
    H,
    K,
    V,
    W,
    S,
    X,
    R,
    M: HasherBv<H, K> + HasherBv<H, S>,
    Bo: Fn(&K, &V, &K, &W) -> MapTransmuteResult<S, X, R>,
    Lo: Fn(&K, &V) -> MapTransmuteResult<S, X, R>,
    Ro: Fn(&K, &W) -> MapTransmuteResult<S, X, R>,
>(both: &Bo, left: &Lo, right: &Ro, b: Seq<(K, W)>)
    requires
        joint_ok::<H, K, V, W, S, X, R, M, Bo, Lo, Ro>(
            both,
            left,
            right,
            Seq::<(K, V)>::empty(),
            b,
        ),
    ensures
        ready(right, b),
        keeps_hash::<H, K, W, S, X, R, M, Ro>(right, b),
        keeps_apart::<H, K, W, S, X, R, M, Ro>(right, b),
{
    let none = Seq::<(K, V)>::empty();
    assert forall|i: int| 0 <= i < b.len() implies right.requires(
        (&(#[trigger] b[i]).0, &b[i].1),
    ) by {
        assert(b.contains(b[i]));
        assert(possible(none, b, Job::<K, V, W>::Right(b[i])));
    }
    assert forall|e: (K, W), ans: MapTransmuteResult<S, X, R>|
        b.contains(e) && #[trigger] right.ensures((&e.0, &e.1), ans) && new_key(
            ans,
        ).is_some() implies <M as HasherBv<H, S>>::spec_hash(new_key(ans).unwrap()) == <
        M as HasherBv<H, K>
    >::spec_hash(e.0) by {
        assert(possible(none, b, Job::<K, V, W>::Right(e)));
        assert(job_answer(both, left, right, Job::<K, V, W>::Right(e), ans));
    }
    assert forall|
        e1: (K, W),
        e2: (K, W),
        x: MapTransmuteResult<S, X, R>,
        y: MapTransmuteResult<S, X, R>,
    |
        b.contains(e1) && b.contains(e2) && e1.0 != e2.0 && <M as HasherBv<H, K>>::spec_hash(e1.0)
            == <M as HasherBv<H, K>>::spec_hash(e2.0) && #[trigger] right.ensures(
            (&e1.0, &e1.1),
            x,
        ) && #[trigger] right.ensures((&e2.0, &e2.1), y) && new_key(x).is_some() && new_key(
            y,
        ).is_some() implies new_key(x).unwrap() != new_key(y).unwrap() by {
        assert(possible(none, b, Job::<K, V, W>::Right(e1)));
        assert(possible(none, b, Job::<K, V, W>::Right(e2)));
        assert(job_answer(both, left, right, Job::<K, V, W>::Right(e1), x));
        assert(job_answer(both, left, right, Job::<K, V, W>::Right(e2), y));
    }
}

/// Where the operations may be called for every question about two runs of
/// entries, they may be called along the walks over the left run and over
/// the right run.
pub proof fn lemma_joint_ready<
    K,
    V,
    W,
    A,
    Bo: Fn(&K, &V, &K, &W) -> A,
    Lo: Fn(&K, &V) -> A,
    Ro: Fn(&K, &W) -> A,
>(both: &Bo, left: &Lo, right: &Ro, a: Seq<(K, V)>, b: Seq<(K, W)>)
    requires
        forall|job: Job<K, V, W>| #[trigger]
            possible(a, b, job) ==> job_ready(both, left, right, job),
    ensures
        lefts_ready(both, left, a, b),
        rights_ready(right, a, b),
{
    assert forall|i: int| 0 <= i < a.len() implies match lookup(b, (#[trigger] a[i]).0) {
        Some(y) => both.requires((&a[i].0, &a[i].1, &y.0, &y.1)),
        None => left.requires((&a[i].0, &a[i].1)),
    } by {
        assert(a.contains(a[i]));
        match lookup(b, a[i].0) {
            Some(y) => {
                assert(possible(a, b, Job::Both(a[i], y)));
            },
            None => {
                assert(possible(a, b, Job::<K, V, W>::Left(a[i])));
            },
        }
    }
    assert forall|j: int|
        0 <= j < b.len() && lookup(a, (#[trigger] b[j]).0).is_none() implies right.requires(
        (&b[j].0, &b[j].1),
    ) by {
        assert(b.contains(b[j]));
        assert(possible(a, b, Job::<K, V, W>::Right(b[j])));
    }
}

/// The answers of `rs`, one for each entry of `es`, that are for the entries
/// of hash `h`.
pub open spec fn pick<H, K, V, A, M: HasherBv<H, K>>(es: Seq<(K, V)>, rs: Seq<A>, h: H) -> Seq<A>
    decreases es.len(),
{
    if es.len() == 0 || rs.len() == 0 {
        Seq::empty()
    } else if M::spec_hash(es[0].0) == h {
        seq![rs[0]] + pick::<H, K, V, A, M>(es.drop_first(), rs.drop_first(), h)
    } else {
        pick::<H, K, V, A, M>(es.drop_first(), rs.drop_first(), h)
    }
}

/// The picked answers are answers for the entries of the hash.
pub proof fn lemma_pick<H, K, V, A, M: HasherBv<H, K>, Op: Fn(&K, &V) -> A>(
    op: &Op,
    es: Seq<(K, V)>,
    rs: Seq<A>,
    h: H,
)
    requires
        answers(op, es, rs),
    ensures
        answers(op, bucket::<H, K, V, M>(es, h), pick::<H, K, V, A, M>(es, rs, h)),
    decreases es.len(),
{
    if es.len() > 0 {
        let et = es.drop_first();
        let rt = rs.drop_first();
        assert forall|i: int| 0 <= i < et.len() implies op.ensures(
            (&(#[trigger] et[i]).0, &et[i].1),
            rt[i],
        ) by {
            assert(et[i] == es[i + 1] && rt[i] == rs[i + 1]);
        }
        lemma_pick::<H, K, V, A, M, Op>(op, et, rt, h);
        let bt = bucket::<H, K, V, M>(et, h);
        let pt = pick::<H, K, V, A, M>(et, rt, h);
        if M::spec_hash(es[0].0) == h {
            let b = seq![es[0]] + bt;
            let p = seq![rs[0]] + pt;
            assert forall|i: int| 0 <= i < b.len() implies op.ensures(
                (&(#[trigger] b[i]).0, &b[i].1),
                p[i],
            ) by {
                if i > 0 {
                    assert(b[i] == bt[i - 1] && p[i] == pt[i - 1]);
                }
            }
        }
    }
}

/// The entries of one hash that the answers give are the entries that the
/// answers for the entries of that hash give.
pub proof fn lemma_pick_transmuted<
    H,
    K,
    V,
    S,
    X,
    R,
    M: HasherBv<H, K> + HasherBv<H, S>,
    Op: Fn(&K, &V) -> MapTransmuteResult<S, X, R>,
>(op: &Op, es: Seq<(K, V)>, rs: Seq<MapTransmuteResult<S, X, R>>, h: H)
    requires
        answers(op, es, rs),
        keeps_hash::<H, K, V, S, X, R, M, Op>(op, es),
    ensures
        bucket::<H, S, X, M>(transmuted(rs), h) == transmuted(
            pick::<H, K, V, MapTransmuteResult<S, X, R>, M>(es, rs, h),
        ),
    decreases es.len(),
{
    let e = Seq::<(S, X)>::empty();
    if es.len() > 0 {
        let et = es.drop_first();
        let rt = rs.drop_first();
        assert forall|i: int| 0 <= i < et.len() implies op.ensures(
            (&(#[trigger] et[i]).0, &et[i].1),
            rt[i],
        ) by {
            assert(et[i] == es[i + 1] && rt[i] == rs[i + 1]);
        }
        assert forall|x: (K, V)| et.contains(x) implies es.contains(x) by {
            let i = choose|i: int| 0 <= i < et.len() && et[i] == x;
            assert(es[i + 1] == x);
        }
        lemma_pick_transmuted::<H, K, V, S, X, R, M, Op>(op, et, rt, h);
        let head = moved(rs[0]);
        lemma_bucket_add::<H, S, X, M>(head, transmuted(rt), h);
        assert(es.contains(es[0]));
        assert(op.ensures((&es[0].0, &es[0].1), rs[0]));
        let bh = bucket::<H, S, X, M>(head, h);
        if head.len() > 0 {
            assert(head.drop_first() =~= e);
            assert(bucket::<H, S, X, M>(head.drop_first(), h) =~= e);
            assert(seq![head[0]] + e =~= head);
        } else {
            assert(head =~= e);
        }
        let pt = pick::<H, K, V, MapTransmuteResult<S, X, R>, M>(et, rt, h);
        if <M as HasherBv<H, K>>::spec_hash(es[0].0) == h {
            assert(bh == head);
            let p = seq![rs[0]] + pt;
            assert(p.drop_first() =~= pt);
            assert(p[0] == rs[0]);
        } else {
            assert(bh =~= e);
            assert(e + transmuted(pt) =~= transmuted(pt));
        }
    } else {
        assert(transmuted(rs) =~= e);
        assert(bucket::<H, S, X, M>(e, h) =~= e);
    }
}

/// The questions about entries that only the left run has.
pub proof fn lemma_jobs_left<K, V, W>(ls: Seq<(K, V)>)
    ensures
        jobs(ls, Seq::<(K, W)>::empty()) == Seq::new(ls.len(), |i: int| Job::<K, V, W>::Left(ls[i])),
    decreases ls.len(),
{
    let none = Seq::<(K, W)>::empty();
    let e = Seq::<Job<K, V, W>>::empty();
    assert(right_jobs(ls, none) =~= e);
    if ls.len() > 0 {
        lemma_jobs_left::<K, V, W>(ls.drop_first());
        let t = ls.drop_first();
        assert(e + left_jobs(t, none) =~= left_jobs(t, none));
        assert(e + left_jobs(ls, none) =~= left_jobs(ls, none));
        assert(left_jobs(ls, none) =~= Seq::new(ls.len(), |i: int| Job::<K, V, W>::Left(ls[i])))
            by {
            let a = left_jobs(ls, none);
            let b = Seq::new(ls.len(), |i: int| Job::<K, V, W>::Left(ls[i]));
            let at = left_jobs(t, none);
            assert(at == Seq::new(t.len(), |i: int| Job::<K, V, W>::Left(t[i])));
            assert(a.len() == b.len());
            assert forall|i: int| 0 <= i < a.len() implies a[i] == b[i] by {
                if i > 0 {
                    assert(a[i] == at[i - 1]);
                    assert(t[i - 1] == ls[i]);
                }
            }
        }
    } else {
        assert(e + left_jobs(ls, none) =~= e);
        assert(Seq::new(ls.len(), |i: int| Job::<K, V, W>::Left(ls[i])) =~= e);
    }
}

/// The questions about entries that only the right run has.
pub proof fn lemma_jobs_right<K, V, W>(rs: Seq<(K, W)>)
    ensures
        jobs(Seq::<(K, V)>::empty(), rs) == Seq::new(
            rs.len(),
            |i: int| Job::<K, V, W>::Right(rs[i]),
        ),
    decreases rs.len(),
{
    let none = Seq::<(K, V)>::empty();
    let e = Seq::<Job<K, V, W>>::empty();
    assert(left_jobs(none, rs) =~= e);
    let target = Seq::new(rs.len(), |i: int| Job::<K, V, W>::Right(rs[i]));
    if rs.len() > 0 {
        let t = rs.drop_first();
        lemma_jobs_right::<K, V, W>(t);
        let at = right_jobs(none, t);
        assert(left_jobs(none, t) =~= e);
        assert(at + e =~= at);
        assert(at == Seq::new(t.len(), |i: int| Job::<K, V, W>::Right(t[i])));
        let a = right_jobs(none, rs);
        assert(a =~= seq![Job::<K, V, W>::Right(rs[0])] + at);
        assert(a.len() == target.len());
        assert forall|i: int| 0 <= i < a.len() implies a[i] == target[i] by {
            if i > 0 {
                assert(a[i] == at[i - 1]);
                assert(t[i - 1] == rs[i]);
            }
        }
        assert(a =~= target);
        assert(a + e =~= a);
    } else {
        assert(right_jobs(none, rs) + e =~= e);
        assert(target =~= e);
    }
}

/// What comes of the entries of one trie alone is the join of these entries
/// with nothing.
pub proof fn lemma_joined_left<
    H,
    K,
    V,
    W,
    S,
    X,
    R,
    M: HasherBv<H, K> + HasherBv<H, S>,
    Bo: Fn(&K, &V, &K, &W) -> MapTransmuteResult<S, X, R>,
    Lo: Fn(&K, &V) -> MapTransmuteResult<S, X, R>,
    Ro: Fn(&K, &W) -> MapTransmuteResult<S, X, R>,
>(both: &Bo, left: &Lo, right: &Ro, a: Seq<(K, V)>, rs: Seq<MapTransmuteResult<S, X, R>>)
    requires
        answers(left, a, rs),
        keeps_hash::<H, K, V, S, X, R, M, Lo>(left, a),
    ensures
        joined::<H, K, V, W, S, X, R, M, Bo, Lo, Ro>(
            both,
            left,
            right,
            a,
            Seq::<(K, W)>::empty(),
            transmuted(rs),
        ),
{
    let none = Seq::<(K, W)>::empty();
    assert forall|h: H|
        joined_bucket(
            both,
            left,
            right,
            bucket::<H, K, V, M>(a, h),
            bucket::<H, K, W, M>(none, h),
            #[trigger] bucket::<H, S, X, M>(transmuted(rs), h),
        ) by {
        let ba = bucket::<H, K, V, M>(a, h);
        let p = pick::<H, K, V, MapTransmuteResult<S, X, R>, M>(a, rs, h);
        lemma_pick::<H, K, V, MapTransmuteResult<S, X, R>, M, Lo>(left, a, rs, h);
        lemma_pick_transmuted::<H, K, V, S, X, R, M, Lo>(left, a, rs, h);
        lemma_jobs_left::<K, V, W>(ba);
        assert(bucket::<H, K, W, M>(none, h) =~= none);
        let js = jobs(ba, none);
        assert forall|i: int| 0 <= i < js.len() implies job_answer(
            both,
            left,
            right,
            #[trigger] js[i],
            p[i],
        ) by {
            assert(left.ensures((&ba[i].0, &ba[i].1), p[i]));
        }
        assert(job_answers(both, left, right, js, p));
    }
}

/// What comes of the entries of one trie alone is the join of nothing with
/// these entries.
pub proof fn lemma_joined_right<
    H,
    K,
    V,
    W,
    S,
    X,
    R,
    M: HasherBv<H, K> + HasherBv<H, S>,
    Bo: Fn(&K, &V, &K, &W) -> MapTransmuteResult<S, X, R>,
    Lo: Fn(&K, &V) -> MapTransmuteResult<S, X, R>,
    Ro: Fn(&K, &W) -> MapTransmuteResult<S, X, R>,
>(both: &Bo, left: &Lo, right: &Ro, b: Seq<(K, W)>, rs: Seq<MapTransmuteResult<S, X, R>>)
    requires
        answers(right, b, rs),
        keeps_hash::<H, K, W, S, X, R, M, Ro>(right, b),
    ensures
        joined::<H, K, V, W, S, X, R, M, Bo, Lo, Ro>(
            both,
            left,
            right,
            Seq::<(K, V)>::empty(),
            b,
            transmuted(rs),
        ),
{
    let none = Seq::<(K, V)>::empty();
    assert forall|h: H|
        joined_bucket(
            both,
            left,
            right,
            bucket::<H, K, V, M>(none, h),
            bucket::<H, K, W, M>(b, h),
            #[trigger] bucket::<H, S, X, M>(transmuted(rs), h),
        ) by {
        let bb = bucket::<H, K, W, M>(b, h);
        let p = pick::<H, K, W, MapTransmuteResult<S, X, R>, M>(b, rs, h);
        lemma_pick::<H, K, W, MapTransmuteResult<S, X, R>, M, Ro>(right, b, rs, h);
        lemma_pick_transmuted::<H, K, W, S, X, R, M, Ro>(right, b, rs, h);
        lemma_jobs_right::<K, V, W>(bb);
        assert(bucket::<H, K, V, M>(none, h) =~= none);
        let js = jobs(none, bb);
        assert forall|i: int| 0 <= i < js.len() implies job_answer(
            both,
            left,
            right,
            #[trigger] js[i],
            p[i],
        ) by {
            assert(right.ensures((&bb[i].0, &bb[i].1), p[i]));
        }
        assert(job_answers(both, left, right, js, p));
    }
}

/// The join of two runs of entries of different hashes from what comes of
/// each alone.
pub proof fn lemma_joined_apart<
    H,
    K,
    V,
    W,
    S,
    X,
    R,
    M: HasherBv<H, K> + HasherBv<H, S>,
    Bo: Fn(&K, &V, &K, &W) -> MapTransmuteResult<S, X, R>,
    Lo: Fn(&K, &V) -> MapTransmuteResult<S, X, R>,
    Ro: Fn(&K, &W) -> MapTransmuteResult<S, X, R>,
>(
    both: &Bo,
    left: &Lo,
    right: &Ro,
    a: Seq<(K, V)>,
    b: Seq<(K, W)>,
    oa: Seq<(S, X)>,
    ob: Seq<(S, X)>,
    out: Seq<(S, X)>,
    ha: H,
    hb: H,
)
    requires
        joined::<H, K, V, W, S, X, R, M, Bo, Lo, Ro>(
            both,
            left,
            right,
            a,
            Seq::<(K, W)>::empty(),
            oa,
        ),
        joined::<H, K, V, W, S, X, R, M, Bo, Lo, Ro>(
            both,
            left,
            right,
            Seq::<(K, V)>::empty(),
            b,
            ob,
        ),
        all_hash::<H, K, V, M>(a, ha),
        all_hash::<H, K, W, M>(b, hb),
        all_hash::<H, S, X, M>(oa, ha),
        all_hash::<H, S, X, M>(ob, hb),
        ha != hb,
        out == oa + ob || out == ob + oa,
    ensures
        joined::<H, K, V, W, S, X, R, M, Bo, Lo, Ro>(both, left, right, a, b, out),
{
    let na = Seq::<(K, V)>::empty();
    let nb = Seq::<(K, W)>::empty();
    let e = Seq::<(S, X)>::empty();
    lemma_bucket_all::<H, K, V, M>(a, ha);
    lemma_bucket_all::<H, K, W, M>(b, hb);
    lemma_bucket_all::<H, S, X, M>(oa, ha);
    lemma_bucket_all::<H, S, X, M>(ob, hb);
    assert forall|h: H|
        joined_bucket(
            both,
            left,
            right,
            bucket::<H, K, V, M>(a, h),
            bucket::<H, K, W, M>(b, h),
            #[trigger] bucket::<H, S, X, M>(out, h),
        ) by {
        lemma_bucket_add::<H, S, X, M>(oa, ob, h);
        lemma_bucket_add::<H, S, X, M>(ob, oa, h);
        assert(bucket::<H, K, V, M>(na, h) =~= na);
        assert(bucket::<H, K, W, M>(nb, h) =~= nb);
        let x = bucket::<H, S, X, M>(oa, h);
        let y = bucket::<H, S, X, M>(ob, h);
        assert(e + y =~= y);
        assert(y + e =~= y);
        assert(e + x =~= x);
        assert(x + e =~= x);
        if h == ha {
            assert(bucket::<H, K, W, M>(b, h) == nb);
            assert(bucket::<H, S, X, M>(out, h) == x);
        } else {
            assert(bucket::<H, K, V, M>(a, h) == na);
            assert(bucket::<H, S, X, M>(out, h) == y);
        }
    }
}

/// The join of two runs of entries of one hash is what the answers to the
/// questions about them give.
pub proof fn lemma_joined_same<
    H,
    K,
    V,
    W,
    S,
    X,
    R,
    M: HasherBv<H, K> + HasherBv<H, S>,
    Bo: Fn(&K, &V, &K, &W) -> MapTransmuteResult<S, X, R>,
    Lo: Fn(&K, &V) -> MapTransmuteResult<S, X, R>,
    Ro: Fn(&K, &W) -> MapTransmuteResult<S, X, R>,
>(
    both: &Bo,
    left: &Lo,
    right: &Ro,
    a: Seq<(K, V)>,
    b: Seq<(K, W)>,
    rs: Seq<MapTransmuteResult<S, X, R>>,
    h0: H,
)
    requires
        all_hash::<H, K, V, M>(a, h0),
        all_hash::<H, K, W, M>(b, h0),
        all_hash::<H, S, X, M>(transmuted(rs), h0),
        job_answers(both, left, right, jobs(a, b), rs),
    ensures
        joined::<H, K, V, W, S, X, R, M, Bo, Lo, Ro>(both, left, right, a, b, transmuted(rs)),
{
    let out = transmuted(rs);
    lemma_bucket_all::<H, K, V, M>(a, h0);
    lemma_bucket_all::<H, K, W, M>(b, h0);
    lemma_bucket_all::<H, S, X, M>(out, h0);
    assert forall|h: H|
        joined_bucket(
            both,
            left,
            right,
            bucket::<H, K, V, M>(a, h),
            bucket::<H, K, W, M>(b, h),
            #[trigger] bucket::<H, S, X, M>(out, h),
        ) by {
        if h != h0 {
            let na = Seq::<(K, V)>::empty();
            let nb = Seq::<(K, W)>::empty();
            let none = Seq::<MapTransmuteResult<S, X, R>>::empty();
            assert(jobs(na, nb) =~= Seq::<Job<K, V, W>>::empty());
            assert(job_answers(both, left, right, jobs(na, nb), none));
            assert(transmuted(none) =~= Seq::<(S, X)>::empty());
        }
    }
}

/// The question at place `i` of the left questions is the one about the
/// entry at place `i`.
pub proof fn lemma_left_jobs<K, V, W>(ls: Seq<(K, V)>, rs: Seq<(K, W)>, i: int)
    requires
        0 <= i < ls.len(),
    ensures
        left_jobs(ls, rs).len() == ls.len(),
        left_jobs(ls, rs)[i] == job_for(ls[i], rs),
        left_jobs(ls, rs)[i].key() == ls[i].0,
        possible(ls, rs, left_jobs(ls, rs)[i]),
    decreases ls.len(),
{
    lemma_left_jobs_len(ls, rs);
    let t = ls.drop_first();
    if i > 0 {
        lemma_left_jobs(t, rs, i - 1);
        assert(t[i - 1] == ls[i]);
        assert(left_jobs(ls, rs)[i] == left_jobs(t, rs)[i - 1]);
    }
    if lookup(rs, ls[i].0).is_some() {
        let p = lemma_lookup_some(rs, ls[i].0);
    }
}

/// There is one left question for each left entry.
pub proof fn lemma_left_jobs_len<K, V, W>(ls: Seq<(K, V)>, rs: Seq<(K, W)>)
    ensures
        left_jobs(ls, rs).len() == ls.len(),
    decreases ls.len(),
{
    if ls.len() > 0 {
        lemma_left_jobs_len(ls.drop_first(), rs);
    }
}

/// The right question at place `j` is about a right entry whose key is not
/// among the left entries; the right entries before it give the `j`
/// questions before.
pub proof fn lemma_right_jobs<K, V, W>(ls: Seq<(K, V)>, rs: Seq<(K, W)>, j: int) -> (p: int)
    requires
        0 <= j < right_jobs(ls, rs).len(),
    ensures
        0 <= p < rs.len(),
        right_jobs(ls, rs)[j] == Job::<K, V, W>::Right(rs[p]),
        lookup(ls, rs[p].0).is_none(),
        right_jobs(ls, rs.subrange(0, p)).len() == j,
        right_jobs(ls, rs).len() <= rs.len(),
    decreases rs.len(),
{
    let t = rs.drop_first();
    lemma_right_jobs_len(ls, rs);
    let head = if lookup(ls, rs[0].0).is_none() {
        seq![Job::<K, V, W>::Right(rs[0])]
    } else {
        Seq::empty()
    };
    if j < head.len() {
        assert(rs.subrange(0, 0) =~= Seq::<(K, W)>::empty());
        0
    } else {
        assert(right_jobs(ls, rs)[j] == right_jobs(ls, t)[j - head.len()]);
        let p = lemma_right_jobs(ls, t, j - head.len());
        assert(t[p] == rs[p + 1]);
        assert(rs.subrange(0, p + 1).drop_first() =~= t.subrange(0, p));
        assert(rs.subrange(0, p + 1)[0] == rs[0]);
        p + 1
    }
}

/// There are no more right questions than right entries.
pub proof fn lemma_right_jobs_len<K, V, W>(ls: Seq<(K, V)>, rs: Seq<(K, W)>)
    ensures
        right_jobs(ls, rs).len() <= rs.len(),
    decreases rs.len(),
{
    if rs.len() > 0 {
        lemma_right_jobs_len(ls, rs.drop_first());
    }
}

/// The questions about two runs of entries, in each of which no key occurs
/// twice, are about entries of the runs and about different keys.
pub proof fn lemma_jobs<K, V, W>(ls: Seq<(K, V)>, rs: Seq<(K, W)>)
    requires
        distinct(ls),
        distinct(rs),
    ensures
        jobs(ls, rs).len() <= ls.len() + rs.len(),
        forall|i: int| 0 <= i < jobs(ls, rs).len() ==> possible(ls, rs, #[trigger] jobs(ls, rs)[i]),
        forall|i: int, j: int|
            0 <= i < j < jobs(ls, rs).len() ==> (#[trigger] jobs(ls, rs)[i]).key() != (
            #[trigger] jobs(ls, rs)[j]).key(),
{
    let rj = right_jobs(ls, rs);
    let lj = left_jobs(ls, rs);
    let js = jobs(ls, rs);
    lemma_right_jobs_len(ls, rs);
    lemma_left_jobs_len(ls, rs);
    assert forall|i: int| 0 <= i < js.len() implies possible(ls, rs, #[trigger] js[i]) by {
        if i < rj.len() {
            let p = lemma_right_jobs(ls, rs, i);
            assert(js[i] == rj[i]);
            assert(rs.contains(rs[p]));
        } else {
            lemma_left_jobs(ls, rs, i - rj.len());
            assert(js[i] == lj[i - rj.len()]);
        }
    }
    assert forall|i: int, j: int| 0 <= i < j < js.len() implies (#[trigger] js[i]).key() != (
    #[trigger] js[j]).key() by {
        if j < rj.len() {
            let p = lemma_right_jobs(ls, rs, i);
            let q = lemma_right_jobs(ls, rs, j);
            assert(js[i] == rj[i] && js[j] == rj[j]);
            if p < q {
                assert(rs[p].0 != rs[q].0);
            } else if q < p {
                assert(rs[q].0 != rs[p].0);
            }
        } else if i < rj.len() {
            let p = lemma_right_jobs(ls, rs, i);
            lemma_left_jobs(ls, rs, j - rj.len());
            assert(js[i] == rj[i] && js[j] == lj[j - rj.len()]);
            lemma_lookup_none(ls, rs[p].0);
        } else {
            lemma_left_jobs(ls, rs, i - rj.len());
            lemma_left_jobs(ls, rs, j - rj.len());
            assert(js[i] == lj[i - rj.len()] && js[j] == lj[j - rj.len()]);
        }
    }
}

/// What the answers to the questions about two runs of entries of one hash
/// give: distinct keys of that hash.
pub proof fn lemma_joined_keys<
    H,
    K,
    V,
    W,
    S,
    X,
    R,
    M: HasherBv<H, K> + HasherBv<H, S>,
    Bo: Fn(&K, &V, &K, &W) -> MapTransmuteResult<S, X, R>,
    Lo: Fn(&K, &V) -> MapTransmuteResult<S, X, R>,
    Ro: Fn(&K, &W) -> MapTransmuteResult<S, X, R>,
>(
    both: &Bo,
    left: &Lo,
    right: &Ro,
    a: Seq<(K, V)>,
    b: Seq<(K, W)>,
    rs: Seq<MapTransmuteResult<S, X, R>>,
    h0: H,
)
    requires
        distinct(a),
        distinct(b),
        all_hash::<H, K, V, M>(a, h0),
        all_hash::<H, K, W, M>(b, h0),
        joint_ok::<H, K, V, W, S, X, R, M, Bo, Lo, Ro>(both, left, right, a, b),
        job_answers(both, left, right, jobs(a, b), rs),
    ensures
        distinct(transmuted(rs)),
        all_hash::<H, S, X, M>(transmuted(rs), h0),
        transmuted(rs).len() <= a.len() + b.len(),
{
    let t = transmuted(rs);
    let js = jobs(a, b);
    lemma_jobs(a, b);
    lemma_transmuted_len(rs);
    assert forall|j: int| 0 <= j < t.len() implies <M as HasherBv<H, S>>::spec_hash(
        #[trigger] t[j].0,
    ) == h0 by {
        let i = lemma_transmuted_at(rs, j);
        assert(moved(rs[i])[0] == t[j]);
        assert(possible(a, b, js[i]));
        assert(job_answer(both, left, right, js[i], rs[i]));
        match js[i] {
            Job::Both(x, y) => {
                let p = choose|p: int| 0 <= p < a.len() && a[p] == x;
            },
            Job::Left(x) => {
                let p = choose|p: int| 0 <= p < a.len() && a[p] == x;
            },
            Job::Right(y) => {
                let p = choose|p: int| 0 <= p < b.len() && b[p] == y;
            },
        }
    }
    assert forall|j1: int, j2: int| 0 <= j1 < j2 < t.len() implies t[j1].0 != t[j2].0 by {
        let i1 = lemma_transmuted_at(rs, j1);
        let i2 = lemma_transmuted_at(rs, j2);
        assert(moved(rs[i1])[0] == t[j1]);
        assert(moved(rs[i2])[0] == t[j2]);
        assert(possible(a, b, js[i1]) && possible(a, b, js[i2]));
        assert(job_answer(both, left, right, js[i1], rs[i1]));
        assert(job_answer(both, left, right, js[i2], rs[i2]));
        if i1 < i2 {
            assert(js[i1].key() != js[i2].key());
        } else if i2 < i1 {
            assert(js[i2].key() != js[i1].key());
        }
    }
}

/// Where every key of two runs of entries selects one slot, so does every
/// key of their join: each entry of the join comes of one of theirs.
pub proof fn lemma_joined_slotted<
    H: Hashword,
    F: Slots,
    K,
    V,
    W,
    S,
    X,
    R,
    M: HasherBv<H, K> + HasherBv<H, S>,
    Bo: Fn(&K, &V, &K, &W) -> MapTransmuteResult<S, X, R>,
    Lo: Fn(&K, &V) -> MapTransmuteResult<S, X, R>,
    Ro: Fn(&K, &W) -> MapTransmuteResult<S, X, R>,
>(
    both: &Bo,
    left: &Lo,
    right: &Ro,
    a: Seq<(K, V)>,
    b: Seq<(K, W)>,
    out: Seq<(S, X)>,
    depth: nat,
    slot: nat,
)
    requires
        joined::<H, K, V, W, S, X, R, M, Bo, Lo, Ro>(both, left, right, a, b, out),
        slotted::<H, F, K, V, M>(a, depth, slot),
        slotted::<H, F, K, W, M>(b, depth, slot),
    ensures
        slotted::<H, F, S, X, M>(out, depth, slot),
        out.len() > 0 ==> a.len() + b.len() > 0,
{
    assert forall|x: int| 0 <= x < out.len() implies slot_of::<H, F>(
        <M as HasherBv<H, S>>::spec_hash(#[trigger] out[x].0),
        depth,
    ) == slot by {
        let h = <M as HasherBv<H, S>>::spec_hash(out[x].0);
        let p = lemma_bucket_has::<H, S, X, M>(out, x);
        let ba = bucket::<H, K, V, M>(a, h);
        let bb = bucket::<H, K, W, M>(b, h);
        let bo = bucket::<H, S, X, M>(out, h);
        assert(joined_bucket(both, left, right, ba, bb, bo));
        let rs = choose|rs: Seq<MapTransmuteResult<S, X, R>>| #[trigger]
            job_answers(both, left, right, jobs(ba, bb), rs) && bo == transmuted(rs);
        lemma_transmuted_len(rs);
        lemma_right_jobs_len(ba, bb);
        lemma_left_jobs_len(ba, bb);
        lemma_bucket_from::<H, K, V, M>(a, h);
        lemma_bucket_from::<H, K, W, M>(b, h);
        if ba.len() > 0 {
            assert(a.contains(ba[0]));
            let i = choose|i: int| 0 <= i < a.len() && a[i] == ba[0];
            assert(<M as HasherBv<H, K>>::spec_hash(a[i].0) == h);
        } else {
            assert(b.contains(bb[0]));
            let i = choose|i: int| 0 <= i < b.len() && b[i] == bb[0];
            assert(<M as HasherBv<H, K>>::spec_hash(b[i].0) == h);
        }
    }
    if out.len() > 0 {
        let h = <M as HasherBv<H, S>>::spec_hash(out[0].0);
        let p = lemma_bucket_has::<H, S, X, M>(out, 0);
        let ba = bucket::<H, K, V, M>(a, h);
        let bb = bucket::<H, K, W, M>(b, h);
        let bo = bucket::<H, S, X, M>(out, h);
        assert(joined_bucket(both, left, right, ba, bb, bo));
        let rs = choose|rs: Seq<MapTransmuteResult<S, X, R>>| #[trigger]
            job_answers(both, left, right, jobs(ba, bb), rs) && bo == transmuted(rs);
        lemma_transmuted_len(rs);
        lemma_right_jobs_len(ba, bb);
        lemma_left_jobs_len(ba, bb);
        lemma_bucket_from::<H, K, V, M>(a, h);
        lemma_bucket_from::<H, K, W, M>(b, h);
    }
}

/// Where the keys of two runs of entries agree below one level and select
/// one slot at that level, they agree below the next level.
pub proof fn lemma_aligned_step<H: Hashword, F: Slots, K, V, W, M: HasherBv<H, K>>(
    a: Seq<(K, V)>,
    b: Seq<(K, W)>,
    pa: Seq<(K, V)>,
    pb: Seq<(K, W)>,
    depth: nat,
    slot: nat,
)
    requires
        aligned::<H, F, K, V, W, M>(a, b, depth),
        forall|i: int| 0 <= i < pa.len() ==> a.contains(#[trigger] pa[i]),
        forall|i: int| 0 <= i < pb.len() ==> b.contains(#[trigger] pb[i]),
        slotted::<H, F, K, V, M>(pa, depth, slot),
        slotted::<H, F, K, W, M>(pb, depth, slot),
    ensures
        aligned::<H, F, K, V, W, M>(pa, pb, depth + 1),
{
    F::lemma_log_width();
    assert((depth + 1) * F::log_width() == depth * F::log_width() + F::log_width())
        by (nonlinear_arith);
    assert forall|i: int, j: int| 0 <= i < pa.len() && 0 <= j < pb.len() implies agree(
        M::spec_hash((#[trigger] pa[i]).0),
        M::spec_hash((#[trigger] pb[j]).0),
        (depth + 1) * F::log_width(),
    ) by {
        assert(a.contains(pa[i]));
        assert(b.contains(pb[j]));
        let x = choose|x: int| 0 <= x < a.len() && a[x] == pa[i];
        let y = choose|y: int| 0 <= y < b.len() && b[y] == pb[j];
        assert(agree(M::spec_hash(a[x].0), M::spec_hash(b[y].0), depth * F::log_width()));
        lemma_agree_step(
            M::spec_hash(pa[i].0),
            M::spec_hash(pb[j].0),
            depth * F::log_width(),
            F::log_width(),
        );
    }
}

/// The join of nothing with nothing is nothing.
pub proof fn lemma_nothing_joined<
    H,
    K,
    V,
    W,
    S,
    X,
    R,
    M: HasherBv<H, K> + HasherBv<H, S>,
    Bo: Fn(&K, &V, &K, &W) -> MapTransmuteResult<S, X, R>,
    Lo: Fn(&K, &V) -> MapTransmuteResult<S, X, R>,
    Ro: Fn(&K, &W) -> MapTransmuteResult<S, X, R>,
>(both: &Bo, left: &Lo, right: &Ro)
    ensures
        joined::<H, K, V, W, S, X, R, M, Bo, Lo, Ro>(
            both,
            left,
            right,
            Seq::<(K, V)>::empty(),
            Seq::<(K, W)>::empty(),
            Seq::<(S, X)>::empty(),
        ),
{
    let na = Seq::<(K, V)>::empty();
    let nb = Seq::<(K, W)>::empty();
    let no = Seq::<(S, X)>::empty();
    let none = Seq::<MapTransmuteResult<S, X, R>>::empty();
    assert forall|h: H|
        joined_bucket(
            both,
            left,
            right,
            bucket::<H, K, V, M>(na, h),
            bucket::<H, K, W, M>(nb, h),
            #[trigger] bucket::<H, S, X, M>(no, h),
        ) by {
        assert(bucket::<H, K, V, M>(na, h) =~= na);
        assert(bucket::<H, K, W, M>(nb, h) =~= nb);
        assert(bucket::<H, S, X, M>(no, h) =~= no);
        assert(jobs(na, nb) =~= Seq::<Job<K, V, W>>::empty());
        assert(job_answers(both, left, right, jobs(na, nb), none));
        assert(transmuted(none) =~= no);
    }
}

/// The answers for the right questions and the answers for the left
/// questions are the answers for all questions.
pub proof fn lemma_all_answered<
    K,
    V,
    W,
    S,
    X,
    R,
    Bo: Fn(&K, &V, &K, &W) -> MapTransmuteResult<S, X, R>,
    Lo: Fn(&K, &V) -> MapTransmuteResult<S, X, R>,
    Ro: Fn(&K, &W) -> MapTransmuteResult<S, X, R>,
>(
    both: &Bo,
    left: &Lo,
    right: &Ro,
    la: Seq<(K, V)>,
    lb: Seq<(K, W)>,
    ra: Seq<MapTransmuteResult<S, X, R>>,
    rb: Seq<MapTransmuteResult<S, X, R>>,
    mid: Seq<(S, X)>,
    out: Seq<(S, X)>,
)
    requires
        lefts_answered(both, left, la, lb, ra, mid),
        rights_answered(right, la, lb, rb, out, mid),
    ensures
        job_answers(both, left, right, jobs(la, lb), rb + ra),
        out == transmuted(rb + ra),
{
    let js = jobs(la, lb);
    let rj = right_jobs(la, lb);
    let lj = left_jobs(la, lb);
    let rs = rb + ra;
    lemma_left_jobs_len(la, lb);
    lemma_transmuted_add(rb, ra);
    assert forall|i: int| 0 <= i < js.len() implies job_answer(
        both,
        left,
        right,
        #[trigger] js[i],
        rs[i],
    ) by {
        if i < rj.len() {
            assert(js[i] == rj[i] && rs[i] == rb[i]);
            assert(right_answer(right, rj[i], rb[i]));
        } else {
            let x = i - rj.len();
            lemma_left_jobs(la, lb, x);
            assert(js[i] == lj[x] && rs[i] == ra[x]);
            assert(left_answer(both, left, job_for(la[x], lb), ra[x]));
        }
    }
}

} // verus!
