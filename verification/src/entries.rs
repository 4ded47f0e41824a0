//! Sequences of entries: the model that the contracts of the nodes speak of.

use vstd::prelude::*;
use crate::flag::slot_of;
use crate::traits::HasherBv;
use crate::word::{agree, Hashword, Slots};

verus! {

/// The first entry of `s` whose key is `k`.
pub open spec fn lookup<K, V>(s: Seq<(K, V)>, k: K) -> Option<(K, V)>
    decreases s.len(),
{
    if s.len() == 0 {
        None
    } else if s[0].0 == k {
        Some(s[0])
    } else {
        lookup(s.drop_first(), k)
    }
}

/// `s` without its first entry of key `k`.
pub open spec fn without<K, V>(s: Seq<(K, V)>, k: K) -> Seq<(K, V)>
    decreases s.len(),
{
    if s.len() == 0 {
        s
    } else if s[0].0 == k {
        s.drop_first()
    } else {
        seq![s[0]] + without(s.drop_first(), k)
    }
}

/// The entries of `s` whose keys have the hash `h`, in their order.
pub open spec fn bucket<H, K, V, M: HasherBv<H, K>>(s: Seq<(K, V)>, h: H) -> Seq<(K, V)>
    decreases s.len(),
{
    if s.len() == 0 {
        s
    } else if M::spec_hash(s[0].0) == h {
        seq![s[0]] + bucket::<H, K, V, M>(s.drop_first(), h)
    } else {
        bucket::<H, K, V, M>(s.drop_first(), h)
    }
}

/// The keys of `s`, in their order.
pub open spec fn keys<K, V>(s: Seq<(K, V)>) -> Seq<K> {
    Seq::new(s.len(), |i: int| s[i].0)
}

/// Whether no key occurs twice in `s`.
pub open spec fn distinct<K, V>(s: Seq<(K, V)>) -> bool {
    forall|i: int, j: int| 0 <= i < j < s.len() ==> s[i].0 != s[j].0
}

/// Whether every key of `s` has the hash `h`.
pub open spec fn all_hash<H, K, V, M: HasherBv<H, K>>(s: Seq<(K, V)>, h: H) -> bool {
    forall|i: int| 0 <= i < s.len() ==> M::spec_hash(#[trigger] s[i].0) == h
}

/// Whether `s` holds keys of more than one hash.
pub open spec fn mixed<H, K, V, M: HasherBv<H, K>>(s: Seq<(K, V)>) -> bool {
    exists|i: int, j: int|
        0 <= i < s.len() && 0 <= j < s.len() && M::spec_hash(#[trigger] s[i].0) != M::spec_hash(
            #[trigger] s[j].0,
        )
}

/// The map that `s` stands for: each key with the value of its first entry.
pub open spec fn to_map<K, V>(s: Seq<(K, V)>) -> Map<K, V> {
    Map::new(|k: K| lookup(s, k).is_some(), |k: K| lookup(s, k).unwrap().1)
}

/// `lookup` and `without` on a single entry.
pub proof fn lemma_single<K, V>(e: (K, V), k: K)
    ensures
        lookup(seq![e], k) == if e.0 == k {
            Some(e)
        } else {
            None
        },
        without(seq![e], k) == if e.0 == k {
            Seq::<(K, V)>::empty()
        } else {
            seq![e]
        },
{
    let s = seq![e];
    assert(s.drop_first() =~= Seq::<(K, V)>::empty());
    assert(lookup(s.drop_first(), k).is_none());
    assert(without(s.drop_first(), k) =~= Seq::<(K, V)>::empty());
    assert(seq![s[0]] + Seq::<(K, V)>::empty() =~= s);
}

/// `lookup` and `without` on a sequence that starts with `e`.
pub proof fn lemma_cons<K, V>(e: (K, V), t: Seq<(K, V)>, k: K)
    ensures
        lookup(seq![e] + t, k) == if e.0 == k {
            Some(e)
        } else {
            lookup(t, k)
        },
        without(seq![e] + t, k) == if e.0 == k {
            t
        } else {
            seq![e] + without(t, k)
        },
{
    let s = seq![e] + t;
    assert(s.drop_first() =~= t);
    assert(s[0] == e);
}

/// An entry that `lookup` finds is in the sequence and has the key.
pub proof fn lemma_lookup_some<K, V>(s: Seq<(K, V)>, k: K) -> (i: int)
    requires
        lookup(s, k).is_some(),
    ensures
        0 <= i < s.len(),
        s[i] == lookup(s, k).unwrap(),
        s[i].0 == k,
        forall|j: int| 0 <= j < i ==> s[j].0 != k,
    decreases s.len(),
{
    if s[0].0 == k {
        0
    } else {
        let i = lemma_lookup_some(s.drop_first(), k);
        assert forall|j: int| 0 <= j < i + 1 implies s[j].0 != k by {
            if j > 0 {
                assert(s.drop_first()[j - 1] == s[j]);
            }
        }
        i + 1
    }
}

/// `lookup` finds nothing only where no entry has the key.
pub proof fn lemma_lookup_none<K, V>(s: Seq<(K, V)>, k: K)
    requires
        lookup(s, k).is_none(),
    ensures
        forall|j: int| 0 <= j < s.len() ==> s[j].0 != k,
    decreases s.len(),
{
    if s.len() > 0 {
        lemma_lookup_none(s.drop_first(), k);
        assert forall|j: int| 0 <= j < s.len() implies s[j].0 != k by {
            if j > 0 {
                assert(s.drop_first()[j - 1] == s[j]);
            }
        }
    }
}

/// Where no entry has the key, `lookup` finds nothing and `without` changes
/// nothing.
pub proof fn lemma_absent<K, V>(s: Seq<(K, V)>, k: K)
    requires
        forall|j: int| 0 <= j < s.len() ==> s[j].0 != k,
    ensures
        lookup(s, k).is_none(),
        without(s, k) == s,
    decreases s.len(),
{
    if s.len() > 0 {
        assert forall|j: int| 0 <= j < s.drop_first().len() implies s.drop_first()[j].0 != k by {
            assert(s.drop_first()[j] == s[j + 1]);
        }
        lemma_absent(s.drop_first(), k);
        assert(seq![s[0]] + s.drop_first() =~= s);
    }
}

/// Taking out an entry shortens the sequence by one; every entry that is left
/// was there before.
pub proof fn lemma_without<K, V>(s: Seq<(K, V)>, k: K)
    ensures
        without(s, k).len() == if lookup(s, k).is_some() {
            s.len() - 1
        } else {
            s.len() as int
        },
        forall|j: int| 0 <= j < without(s, k).len() ==> s.contains(#[trigger] without(s, k)[j]),
        distinct(s) ==> distinct(without(s, k)) && lookup(without(s, k), k).is_none(),
        forall|k2: K| k2 != k ==> lookup(without(s, k), k2) == lookup(s, k2),
    decreases s.len(),
{
    let w = without(s, k);
    if s.len() == 0 {
    } else if s[0].0 == k {
        assert forall|j: int| 0 <= j < w.len() implies s.contains(#[trigger] w[j]) by {
            assert(s[j + 1] == w[j]);
        }
        if distinct(s) {
            assert forall|j: int| 0 <= j < w.len() implies w[j].0 != k by {
                assert(w[j] == s[j + 1]);
            }
            lemma_absent(w, k);
            assert forall|i: int, j: int| 0 <= i < j < w.len() implies w[i].0 != w[j].0 by {
                assert(w[i] == s[i + 1] && w[j] == s[j + 1]);
            }
        }
    } else {
        let t = s.drop_first();
        let wt = without(t, k);
        lemma_without(t, k);
        assert(w =~= seq![s[0]] + wt);
        assert(w.len() == wt.len() + 1 && w[0] == s[0]);
        assert(w.drop_first() =~= wt);
        assert forall|j: int| 0 <= j < w.len() implies s.contains(#[trigger] w[j]) by {
            if j == 0 {
                assert(s[0] == w[0]);
            } else {
                assert(w[j] == wt[j - 1]);
                assert(t.contains(wt[j - 1]));
                let i = choose|i: int| 0 <= i < t.len() && t[i] == wt[j - 1];
                assert(s[i + 1] == w[j]);
            }
        }
        if distinct(s) {
            assert forall|i: int, j: int| 0 <= i < j < t.len() implies t[i].0 != t[j].0 by {
                assert(t[i] == s[i + 1] && t[j] == s[j + 1]);
            }
            assert forall|i: int, j: int| 0 <= i < j < w.len() implies w[i].0 != w[j].0 by {
                if i == 0 {
                    assert(t.contains(wt[j - 1]));
                    let x = choose|x: int| 0 <= x < t.len() && t[x] == wt[j - 1];
                    assert(w[j] == wt[j - 1]);
                    assert(t[x] == s[x + 1]);
                } else {
                    assert(w[i] == wt[i - 1] && w[j] == wt[j - 1]);
                }
            }
        }
        assert forall|k2: K| k2 != k implies lookup(w, k2) == lookup(s, k2) by {
            if s[0].0 != k2 {
                assert(lookup(w, k2) == lookup(w.drop_first(), k2));
                assert(lookup(wt, k2) == lookup(t, k2));
                assert(lookup(s, k2) == lookup(t, k2));
            } else {
                assert(lookup(w, k2) == Some(w[0]));
                assert(lookup(s, k2) == Some(s[0]));
            }
        }
    }
}

/// Whether `op` may be called on every entry of `s`.
pub open spec fn ready<K, V, A, Op: Fn(&K, &V) -> A>(op: &Op, s: Seq<(K, V)>) -> bool {
    forall|i: int| 0 <= i < s.len() ==> op.requires((&(#[trigger] s[i]).0, &s[i].1))
}

/// Whether `op` may have been called on every entry of `s` and have come
/// back from each call.
pub open spec fn visited<K, V, Op: Fn(&K, &V)>(op: &Op, s: Seq<(K, V)>) -> bool {
    forall|i: int| 0 <= i < s.len() ==> op.ensures((&(#[trigger] s[i]).0, &s[i].1), ())
}

/// Whether `new` is `old` after `(k, v)` was put in: among the entries with
/// the hash of `k` it comes first and the old entry of key `k` is gone, and
/// the entries of every other hash are as they were.
pub open spec fn put<H, K, V, M: HasherBv<H, K>>(
    old: Seq<(K, V)>,
    new: Seq<(K, V)>,
    k: K,
    v: V,
) -> bool {
    forall|h: H| #[trigger]
        bucket::<H, K, V, M>(new, h) == if h == M::spec_hash(k) {
            seq![(k, v)] + without(bucket::<H, K, V, M>(old, h), k)
        } else {
            bucket::<H, K, V, M>(old, h)
        }
}

/// Whether `new` is `old` after the entry of key `k` was taken out: it is
/// gone from the entries with the hash of `k`, which keep their order, and
/// the entries of every other hash are as they were.
pub open spec fn took<H, K, V, M: HasherBv<H, K>>(
    old: Seq<(K, V)>,
    new: Seq<(K, V)>,
    k: K,
) -> bool {
    forall|h: H| #[trigger]
        bucket::<H, K, V, M>(new, h) == if h == M::spec_hash(k) {
            without(bucket::<H, K, V, M>(old, h), k)
        } else {
            bucket::<H, K, V, M>(old, h)
        }
}

/// Whether every key of `s` has a hash that selects slot `slot` at `depth`.
pub open spec fn slotted<H: Hashword, F: Slots, K, V, M: HasherBv<H, K>>(
    s: Seq<(K, V)>,
    depth: nat,
    slot: nat,
) -> bool {
    forall|x: int| 0 <= x < s.len() ==> slot_of::<H, F>(M::spec_hash(#[trigger] s[x].0), depth) == slot
}

/// Whether the hash of every key of `s` has the bits of `h` below the bits
/// that level `depth` reads.
pub open spec fn within<H: Hashword, F: Slots, K, V, M: HasherBv<H, K>>(
    s: Seq<(K, V)>,
    h: H,
    depth: nat,
) -> bool {
    forall|x: int|
        0 <= x < s.len() ==> agree(M::spec_hash(#[trigger] s[x].0), h, depth * F::log_width())
}

pub proof fn lemma_bucket_add<H, K, V, M: HasherBv<H, K>>(a: Seq<(K, V)>, b: Seq<(K, V)>, h: H)
    ensures
        bucket::<H, K, V, M>(a + b, h) == bucket::<H, K, V, M>(a, h) + bucket::<H, K, V, M>(b, h),
    decreases a.len(),
{
    if a.len() == 0 {
        assert(a + b =~= b);
        assert(bucket::<H, K, V, M>(a, h) + bucket::<H, K, V, M>(b, h) =~= bucket::<H, K, V, M>(
            b,
            h,
        ));
    } else {
        assert((a + b).drop_first() =~= a.drop_first() + b);
        lemma_bucket_add::<H, K, V, M>(a.drop_first(), b, h);
        assert((a + b)[0] == a[0]);
        let x = bucket::<H, K, V, M>(a.drop_first(), h);
        let y = bucket::<H, K, V, M>(b, h);
        assert(seq![a[0]] + (x + y) =~= (seq![a[0]] + x) + y);
    }
}

/// Every entry of a bucket is an entry of the sequence, with the bucket's
/// hash; the bucket is no longer than the sequence.
pub proof fn lemma_bucket_from<H, K, V, M: HasherBv<H, K>>(s: Seq<(K, V)>, h: H)
    ensures
        bucket::<H, K, V, M>(s, h).len() <= s.len(),
        all_hash::<H, K, V, M>(bucket::<H, K, V, M>(s, h), h),
        forall|j: int|
            0 <= j < bucket::<H, K, V, M>(s, h).len() ==> s.contains(
                #[trigger] bucket::<H, K, V, M>(s, h)[j],
            ),
    decreases s.len(),
{
    let b = bucket::<H, K, V, M>(s, h);
    if s.len() > 0 {
        let t = s.drop_first();
        let bt = bucket::<H, K, V, M>(t, h);
        lemma_bucket_from::<H, K, V, M>(t, h);
        assert forall|j: int| 0 <= j < b.len() implies s.contains(#[trigger] b[j])
            && M::spec_hash(b[j].0) == h by {
            if M::spec_hash(s[0].0) == h {
                if j == 0 {
                    assert(s[0] == b[0]);
                } else {
                    assert(b[j] == bt[j - 1]);
                    assert(t.contains(bt[j - 1]));
                    let i = choose|i: int| 0 <= i < t.len() && t[i] == bt[j - 1];
                    assert(s[i + 1] == b[j]);
                }
            } else {
                assert(t.contains(bt[j]));
                let i = choose|i: int| 0 <= i < t.len() && t[i] == bt[j];
                assert(s[i + 1] == b[j]);
            }
        }
    }
}

/// A sequence with no key of hash `h` has an empty bucket for `h`.
pub proof fn lemma_bucket_none<H, K, V, M: HasherBv<H, K>>(s: Seq<(K, V)>, h: H)
    requires
        forall|i: int| 0 <= i < s.len() ==> M::spec_hash(#[trigger] s[i].0) != h,
    ensures
        bucket::<H, K, V, M>(s, h) == Seq::<(K, V)>::empty(),
    decreases s.len(),
{
    if s.len() > 0 {
        let t = s.drop_first();
        assert forall|i: int| 0 <= i < t.len() implies M::spec_hash(#[trigger] t[i].0) != h by {
            assert(t[i] == s[i + 1]);
        }
        lemma_bucket_none::<H, K, V, M>(t, h);
        assert(M::spec_hash(s[0].0) != h);
    } else {
        assert(s =~= Seq::<(K, V)>::empty());
    }
}

/// A sequence whose keys all have the hash `h` is its own bucket for `h`.
pub proof fn lemma_bucket_all<H, K, V, M: HasherBv<H, K>>(s: Seq<(K, V)>, h: H)
    requires
        all_hash::<H, K, V, M>(s, h),
    ensures
        bucket::<H, K, V, M>(s, h) == s,
        forall|h2: H| h2 != h ==> #[trigger] bucket::<H, K, V, M>(s, h2) == Seq::<(K, V)>::empty(),
    decreases s.len(),
{
    if s.len() > 0 {
        let t = s.drop_first();
        assert forall|i: int| 0 <= i < t.len() implies M::spec_hash(#[trigger] t[i].0) == h by {
            assert(t[i] == s[i + 1]);
        }
        lemma_bucket_all::<H, K, V, M>(t, h);
        assert(M::spec_hash(s[0].0) == h);
        assert(seq![s[0]] + t =~= s);
    }
    assert forall|h2: H| h2 != h implies #[trigger] bucket::<H, K, V, M>(s, h2) == Seq::<
        (K, V),
    >::empty() by {
        lemma_bucket_none::<H, K, V, M>(s, h2);
    }
}

/// An entry of the sequence is an entry of the bucket of its hash.
pub proof fn lemma_bucket_has<H, K, V, M: HasherBv<H, K>>(s: Seq<(K, V)>, i: int) -> (j: int)
    requires
        0 <= i < s.len(),
    ensures
        0 <= j < bucket::<H, K, V, M>(s, M::spec_hash(s[i].0)).len(),
        bucket::<H, K, V, M>(s, M::spec_hash(s[i].0))[j] == s[i],
    decreases s.len(),
{
    let h = M::spec_hash(s[i].0);
    let t = s.drop_first();
    if i == 0 {
        0
    } else {
        assert(t[i - 1] == s[i]);
        let j = lemma_bucket_has::<H, K, V, M>(t, i - 1);
        if M::spec_hash(s[0].0) == h {
            j + 1
        } else {
            j
        }
    }
}

/// A key is looked up in the bucket of its hash.
pub proof fn lemma_lookup_bucket<H, K, V, M: HasherBv<H, K>>(s: Seq<(K, V)>, k: K)
    ensures
        lookup(bucket::<H, K, V, M>(s, M::spec_hash(k)), k) == lookup(s, k),
    decreases s.len(),
{
    if s.len() > 0 {
        let t = s.drop_first();
        lemma_lookup_bucket::<H, K, V, M>(t, k);
        if M::spec_hash(s[0].0) == M::spec_hash(k) {
            lemma_cons(s[0], bucket::<H, K, V, M>(t, M::spec_hash(k)), k);
        }
    }
}

/// Taking a key out of a sequence takes it out of the bucket of its hash.
pub proof fn lemma_bucket_without<H, K, V, M: HasherBv<H, K>>(s: Seq<(K, V)>, k: K, h: H)
    ensures
        bucket::<H, K, V, M>(without(s, k), h) == if h == M::spec_hash(k) {
            without(bucket::<H, K, V, M>(s, h), k)
        } else {
            bucket::<H, K, V, M>(s, h)
        },
    decreases s.len(),
{
    if s.len() > 0 {
        let t = s.drop_first();
        lemma_bucket_without::<H, K, V, M>(t, k, h);
        let bt = bucket::<H, K, V, M>(t, h);
        if s[0].0 == k {
            if h == M::spec_hash(k) {
                lemma_cons(s[0], bt, k);
            }
        } else {
            lemma_cons(s[0], bucket::<H, K, V, M>(without(t, k), h), k);
            let w = seq![s[0]] + without(t, k);
            assert(w.drop_first() =~= without(t, k));
            assert(w[0] == s[0]);
            if M::spec_hash(s[0].0) == h {
                lemma_cons(s[0], bt, k);
            }
        }
    }
}

/// Putting an entry in front of a sequence, in place of the entry of the
/// same key, is a `put`.
pub proof fn lemma_put_front<H, K, V, M: HasherBv<H, K>>(s: Seq<(K, V)>, k: K, v: V)
    ensures
        put::<H, K, V, M>(s, seq![(k, v)] + without(s, k), k, v),
{
    let new = seq![(k, v)] + without(s, k);
    assert forall|h: H| #[trigger]
        bucket::<H, K, V, M>(new, h) == if h == M::spec_hash(k) {
            seq![(k, v)] + without(bucket::<H, K, V, M>(s, h), k)
        } else {
            bucket::<H, K, V, M>(s, h)
        } by {
        lemma_bucket_add::<H, K, V, M>(seq![(k, v)], without(s, k), h);
        lemma_bucket_without::<H, K, V, M>(s, k, h);
        let one = seq![(k, v)];
        assert(one.drop_first() =~= Seq::<(K, V)>::empty());
        assert(bucket::<H, K, V, M>(one.drop_first(), h) =~= Seq::<(K, V)>::empty());
        if h == M::spec_hash(k) {
            assert(bucket::<H, K, V, M>(one, h) =~= one);
        } else {
            assert(bucket::<H, K, V, M>(one, h) =~= Seq::<(K, V)>::empty());
            assert(Seq::<(K, V)>::empty() + bucket::<H, K, V, M>(without(s, k), h)
                =~= bucket::<H, K, V, M>(without(s, k), h));
        }
    }
}

/// What a `put` does to lookups, and where the entries of the new sequence
/// come from.
pub proof fn lemma_put<H, K, V, M: HasherBv<H, K>>(old: Seq<(K, V)>, new: Seq<(K, V)>, k: K, v: V)
    requires
        put::<H, K, V, M>(old, new, k, v),
    ensures
        lookup(new, k) == Some((k, v)),
        forall|k2: K| k2 != k ==> lookup(new, k2) == lookup(old, k2),
        forall|i: int| 0 <= i < new.len() ==> #[trigger] new[i] == (k, v) || old.contains(new[i]),
{
    assert forall|k2: K| lookup(new, k2) == if k2 == k {
        Some((k, v))
    } else {
        lookup(old, k2)
    } by {
        let h = M::spec_hash(k2);
        lemma_lookup_bucket::<H, K, V, M>(new, k2);
        lemma_lookup_bucket::<H, K, V, M>(old, k2);
        let bo = bucket::<H, K, V, M>(old, h);
        let bn = bucket::<H, K, V, M>(new, h);
        if h == M::spec_hash(k) {
            lemma_cons((k, v), without(bo, k), k2);
            lemma_without(bo, k);
        }
    }
    assert forall|i: int| 0 <= i < new.len() implies #[trigger] new[i] == (k, v) || old.contains(
        new[i],
    ) by {
        let h = M::spec_hash(new[i].0);
        let x = lemma_bucket_has::<H, K, V, M>(new, i);
        let bo = bucket::<H, K, V, M>(old, h);
        let bn = bucket::<H, K, V, M>(new, h);
        lemma_bucket_from::<H, K, V, M>(old, h);
        if h == M::spec_hash(k) {
            lemma_without(bo, k);
            if x > 0 {
                let w = without(bo, k);
                assert(bn[x] == w[x - 1]);
                assert(bo.contains(w[x - 1]));
                let y = choose|y: int| 0 <= y < bo.len() && bo[y] == w[x - 1];
                assert(old.contains(bo[y]));
            }
        } else {
            assert(old.contains(bo[x]));
        }
    }
}

/// What a `took` does to lookups, and where the entries of the new sequence
/// come from.
pub proof fn lemma_took<H, K, V, M: HasherBv<H, K>>(old: Seq<(K, V)>, new: Seq<(K, V)>, k: K)
    requires
        took::<H, K, V, M>(old, new, k),
    ensures
        forall|k2: K| k2 != k ==> lookup(new, k2) == lookup(old, k2),
        forall|i: int| 0 <= i < new.len() ==> old.contains(#[trigger] new[i]),
{
    assert forall|k2: K| k2 != k implies lookup(new, k2) == lookup(old, k2) by {
        let h = M::spec_hash(k2);
        lemma_lookup_bucket::<H, K, V, M>(new, k2);
        lemma_lookup_bucket::<H, K, V, M>(old, k2);
        if h == M::spec_hash(k) {
            lemma_without(bucket::<H, K, V, M>(old, h), k);
        }
    }
    assert forall|i: int| 0 <= i < new.len() implies old.contains(#[trigger] new[i]) by {
        let h = M::spec_hash(new[i].0);
        let x = lemma_bucket_has::<H, K, V, M>(new, i);
        let bo = bucket::<H, K, V, M>(old, h);
        lemma_bucket_from::<H, K, V, M>(old, h);
        if h == M::spec_hash(k) {
            lemma_without(bo, k);
            let w = without(bo, k);
            assert(bo.contains(w[x]));
            let y = choose|y: int| 0 <= y < bo.len() && bo[y] == w[x];
            assert(old.contains(bo[y]));
        } else {
            assert(old.contains(bo[x]));
        }
    }
}

/// The map after a `put`.
pub proof fn lemma_put_map<H, K, V, M: HasherBv<H, K>>(
    old: Seq<(K, V)>,
    new: Seq<(K, V)>,
    k: K,
    v: V,
)
    requires
        put::<H, K, V, M>(old, new, k, v),
    ensures
        to_map(new) == to_map(old).insert(k, v),
{
    lemma_put::<H, K, V, M>(old, new, k, v);
    assert(to_map(new) =~= to_map(old).insert(k, v));
}

/// The map after a `took`, where no key occurs twice among the old entries
/// with the hash of `k`.
pub proof fn lemma_took_map<H, K, V, M: HasherBv<H, K>>(old: Seq<(K, V)>, new: Seq<(K, V)>, k: K)
    requires
        took::<H, K, V, M>(old, new, k),
        distinct(bucket::<H, K, V, M>(old, M::spec_hash(k))),
    ensures
        to_map(new) == to_map(old).remove(k),
{
    lemma_took::<H, K, V, M>(old, new, k);
    lemma_lookup_bucket::<H, K, V, M>(new, k);
    lemma_without(bucket::<H, K, V, M>(old, M::spec_hash(k)), k);
    assert(to_map(new) =~= to_map(old).remove(k));
}

/// Taking the only entry out leaves nothing.
pub proof fn lemma_took_last<H, K, V, M: HasherBv<H, K>>(old: Seq<(K, V)>, k: K)
    requires
        old.len() == 1,
        lookup(old, k).is_some(),
    ensures
        took::<H, K, V, M>(old, Seq::<(K, V)>::empty(), k),
        to_map(Seq::<(K, V)>::empty()) == to_map(old).remove(k),
{
    let e = Seq::<(K, V)>::empty();
    assert(old =~= seq![old[0]]);
    lemma_single(old[0], k);
    lemma_bucket_all::<H, K, V, M>(old, M::spec_hash(k));
    assert forall|k2: K| lookup(old, k2).is_some() implies k2 == k by {
        lemma_single(old[0], k2);
    }
    assert(to_map(e) =~= to_map(old).remove(k));
}

/// The entry at place `i` stands in the bucket of its hash after the
/// entries of that hash that come before it.
pub proof fn lemma_bucket_place<H, K, V, M: HasherBv<H, K>>(s: Seq<(K, V)>, i: int)
    requires
        0 <= i < s.len(),
    ensures
        bucket::<H, K, V, M>(s.subrange(0, i), M::spec_hash(s[i].0)).len() < bucket::<H, K, V, M>(
            s,
            M::spec_hash(s[i].0),
        ).len(),
        bucket::<H, K, V, M>(s, M::spec_hash(s[i].0))[bucket::<H, K, V, M>(
            s.subrange(0, i),
            M::spec_hash(s[i].0),
        ).len() as int] == s[i],
{
    let h = M::spec_hash(s[i].0);
    let front = s.subrange(0, i);
    let back = s.subrange(i, s.len() as int);
    assert(front + back =~= s);
    lemma_bucket_add::<H, K, V, M>(front, back, h);
    assert(back[0] == s[i]);
    assert(bucket::<H, K, V, M>(back, h)[0] == s[i]);
}

/// Where no key occurs twice among the entries of one hash, no key occurs
/// twice at all.
pub proof fn lemma_distinct<H, K, V, M: HasherBv<H, K>>(s: Seq<(K, V)>)
    requires
        forall|h: H| #[trigger] distinct(bucket::<H, K, V, M>(s, h)),
    ensures
        distinct(s),
{
    assert forall|i: int, j: int| 0 <= i < j < s.len() implies s[i].0 != s[j].0 by {
        if s[i].0 == s[j].0 {
            let h = M::spec_hash(s[i].0);
            let b = bucket::<H, K, V, M>(s, h);
            lemma_bucket_place::<H, K, V, M>(s, i);
            lemma_bucket_place::<H, K, V, M>(s, j);
            let fi = s.subrange(0, i);
            let fj = s.subrange(0, j);
            let between = s.subrange(i, j);
            assert(fi + between =~= fj);
            lemma_bucket_add::<H, K, V, M>(fi, between, h);
            assert(between[0] == s[i]);
            assert(bucket::<H, K, V, M>(between, h).len() > 0);
            assert(distinct(b));
            let x = bucket::<H, K, V, M>(fi, h).len() as int;
            let y = bucket::<H, K, V, M>(fj, h).len() as int;
            assert(b[x].0 != b[y].0);
        }
    }
}

/// Where no key occurs twice, the map has as many keys as there are
/// entries.
pub proof fn lemma_map_len<K, V>(s: Seq<(K, V)>)
    requires
        distinct(s),
    ensures
        to_map(s).dom().finite(),
        to_map(s).dom().len() == s.len(),
    decreases s.len(),
{
    if s.len() == 0 {
        assert(to_map(s).dom() =~= Set::<K>::empty());
    } else {
        let t = s.drop_first();
        assert forall|i: int, j: int| 0 <= i < j < t.len() implies t[i].0 != t[j].0 by {
            assert(t[i] == s[i + 1] && t[j] == s[j + 1]);
        }
        lemma_map_len(t);
        assert forall|j: int| 0 <= j < t.len() implies t[j].0 != s[0].0 by {
            assert(t[j] == s[j + 1]);
        }
        lemma_absent(t, s[0].0);
        assert(to_map(s).dom() =~= to_map(t).dom().insert(s[0].0));
    }
}

/// What the map says of a key is what `lookup` finds for it.
pub proof fn lemma_map<K, V>(s: Seq<(K, V)>, k: K)
    ensures
        to_map(s).contains_key(k) == lookup(s, k).is_some(),
        lookup(s, k).is_some() ==> lookup(s, k).unwrap() == (k, to_map(s)[k]),
{
    if lookup(s, k).is_some() {
        let i = lemma_lookup_some(s, k);
    }
}

/// Taking a key out of a sequence is a `took`.
pub proof fn lemma_took_without<H, K, V, M: HasherBv<H, K>>(s: Seq<(K, V)>, k: K)
    ensures
        took::<H, K, V, M>(s, without(s, k), k),
{
    assert forall|h: H| #[trigger]
        bucket::<H, K, V, M>(without(s, k), h) == if h == M::spec_hash(k) {
            without(bucket::<H, K, V, M>(s, h), k)
        } else {
            bucket::<H, K, V, M>(s, h)
        } by {
        lemma_bucket_without::<H, K, V, M>(s, k, h);
    }
}

} // verus!
