use hash_trie::{HashTrie, IdentityHasher, MapTransmuteResult, ZeroHasher};

type Left = HashTrie<u64, u32, u64, char, IdentityHasher>;
type Right = HashTrie<u64, u32, u64, char, IdentityHasher>;

fn trie(entries: &[(u64, char)]) -> Left {
    let mut t = Left::new();
    for (k, v) in entries {
        t = t.insert(*k, *v, false).unwrap().0;
    }
    t
}

fn entries_of<M: hash_trie::HasherBv<u64, u64>>(
    t: &HashTrie<u64, u32, u64, char, M>,
) -> Vec<(u64, char)> {
    let seen = std::cell::RefCell::new(Vec::new());
    t.visit(|k: &u64, v: &char| seen.borrow_mut().push((*k, *v)));
    let mut all = seen.into_inner();
    all.sort();
    all
}

fn union(a: &Left, b: &Right) -> (Left, u32) {
    a.joint_transmute(
        b,
        |x: &u32, y: &u32| x + y,
        |k: &u64, _: &char, _: &u64, w: &char| MapTransmuteResult::Transmuted(*k, *w, 100),
        |k: &u64, v: &char| MapTransmuteResult::Transmuted(*k, *v, 10),
        |k: &u64, w: &char| MapTransmuteResult::Transmuted(*k, *w, 1),
    )
}

#[test]
fn joint_union() {
    let a = trie(&[(1, 'a'), (2, 'b')]);
    let b = trie(&[(2, 'c'), (3, 'd')]);
    let (u, shares) = union(&a, &b);
    assert_eq!(entries_of(&u), vec![(1, 'a'), (2, 'c'), (3, 'd')]);
    assert_eq!(u.size(), 3);
    assert_eq!(shares, 111);
    assert_eq!(u, trie(&[(1, 'a'), (2, 'c'), (3, 'd')]));
}

#[test]
fn joint_with_the_empty_trie() {
    let a = trie(&[(1, 'a'), (2, 'b'), (34, 'z')]);
    let none = Left::new();
    let (l, shares) = union(&a, &none);
    assert_eq!(l, a);
    assert_eq!(shares, 30);
    let (r, shares) = union(&none, &a);
    assert_eq!(r, a);
    assert_eq!(shares, 3);
    let (e, shares) = union(&none, &none);
    assert_eq!(e.size(), 0);
    assert_eq!(shares, 0);
}

#[test]
fn joint_identity() {
    let mut a = Left::new();
    for i in 0..300u64 {
        a = a.insert(i * 31, 'x', false).unwrap().0;
    }
    let (same, ()) = a.joint_transmute(
        &a,
        |_: &(), _: &()| (),
        |k: &u64, v: &char, _: &u64, _: &char| MapTransmuteResult::Transmuted(*k, *v, ()),
        |_: &u64, _: &char| MapTransmuteResult::<u64, char, ()>::Removed(()),
        |_: &u64, _: &char| MapTransmuteResult::<u64, char, ()>::Removed(()),
    );
    assert_eq!(same, a);
}

#[test]
fn joint_symmetry() {
    let a = trie(&[(1, 'a'), (2, 'b'), (33, 'c'), (64, 'd')]);
    let b = trie(&[(2, 'w'), (3, 'x'), (33, 'y'), (1024, 'z')]);
    let ab: (HashTrie<u64, u32, u64, u64, IdentityHasher>, ()) = a.joint_transmute(
        &b,
        |_: &(), _: &()| (),
        |k: &u64, v: &char, _: &u64, w: &char| {
            MapTransmuteResult::Transmuted(*k, *v as u64 * 1000 + *w as u64, ())
        },
        |k: &u64, v: &char| MapTransmuteResult::Transmuted(*k, *v as u64 * 1000, ()),
        |k: &u64, w: &char| MapTransmuteResult::Transmuted(*k, *w as u64, ()),
    );
    let ba: (HashTrie<u64, u32, u64, u64, IdentityHasher>, ()) = b.joint_transmute(
        &a,
        |_: &(), _: &()| (),
        |k: &u64, w: &char, _: &u64, v: &char| {
            MapTransmuteResult::Transmuted(*k, *v as u64 * 1000 + *w as u64, ())
        },
        |k: &u64, w: &char| MapTransmuteResult::Transmuted(*k, *w as u64, ()),
        |k: &u64, v: &char| MapTransmuteResult::Transmuted(*k, *v as u64 * 1000, ()),
    );
    assert_eq!(ab.0, ba.0);
    assert_eq!(ab.0.size(), 6);
    assert_eq!(ab.0.find(&33).map(|(_, v)| *v), Ok('c' as u64 * 1000 + 'y' as u64));
}

#[test]
fn joint_intersection_and_difference() {
    let a = trie(&[(1, 'a'), (2, 'b'), (33, 'c'), (64, 'd')]);
    let b = trie(&[(2, 'w'), (3, 'x'), (33, 'y'), (1024, 'z')]);
    let (both, n): (Left, u32) = a.joint_transmute(
        &b,
        |x: &u32, y: &u32| x + y,
        |k: &u64, v: &char, _: &u64, _: &char| MapTransmuteResult::Transmuted(*k, *v, 1),
        |_: &u64, _: &char| MapTransmuteResult::Removed(0),
        |_: &u64, _: &char| MapTransmuteResult::Removed(0),
    );
    assert_eq!(entries_of(&both), vec![(2, 'b'), (33, 'c')]);
    assert_eq!(n, 2);
    let (only_left, _): (Left, u32) = a.joint_transmute(
        &b,
        |x: &u32, y: &u32| x + y,
        |_: &u64, _: &char, _: &u64, _: &char| MapTransmuteResult::Removed(0),
        |k: &u64, v: &char| MapTransmuteResult::Transmuted(*k, *v, 0),
        |_: &u64, _: &char| MapTransmuteResult::Removed(0),
    );
    assert_eq!(entries_of(&only_left), vec![(1, 'a'), (64, 'd')]);
    let (nothing, _): (Left, u32) = a.joint_transmute(
        &b,
        |x: &u32, y: &u32| x + y,
        |_: &u64, _: &char, _: &u64, _: &char| MapTransmuteResult::Removed(0),
        |_: &u64, _: &char| MapTransmuteResult::Removed(0),
        |_: &u64, _: &char| MapTransmuteResult::Removed(0),
    );
    assert_eq!(nothing.size(), 0);
    assert_eq!(nothing, Left::new());
}

#[test]
fn joint_of_collision_lists() {
    type Chain = HashTrie<u64, u32, u64, char, ZeroHasher>;
    let mut a = Chain::new();
    for (k, v) in [(1, 'a'), (2, 'b'), (3, 'c')] {
        a = a.insert(k, v, false).unwrap().0;
    }
    let mut b = Chain::new();
    for (k, v) in [(3, 'x'), (4, 'y'), (5, 'z'), (1, 'w')] {
        b = b.insert(k, v, false).unwrap().0;
    }
    let (u, order): (Chain, String) = a.joint_transmute(
        &b,
        |x: &String, y: &String| format!("{}{}", x, y),
        |k: &u64, v: &char, _: &u64, w: &char| {
            MapTransmuteResult::Transmuted(*k, *v, format!("{}{}", v, w))
        },
        |k: &u64, v: &char| MapTransmuteResult::Transmuted(*k, *v, format!("{}", v)),
        |k: &u64, w: &char| MapTransmuteResult::Transmuted(*k, *w, format!("{}", w)),
    );
    assert_eq!(u.size(), 5);
    assert_eq!(entries_of(&u), vec![(1, 'a'), (2, 'b'), (3, 'c'), (4, 'y'), (5, 'z')]);
    // The lists hold their entries last inserted first: the right one is
    // 1, 5, 4, 3 and the left one 3, 2, 1. The entries that only the right
    // list has come first, then those of the left list.
    let seen = std::cell::RefCell::new(Vec::new());
    u.visit(|k: &u64, _: &char| seen.borrow_mut().push(*k));
    assert_eq!(seen.into_inner(), vec![5, 4, 3, 2, 1]);
    assert_eq!(order, "zycxbaw");
}

#[test]
fn joint_of_a_branch_and_a_leaf() {
    let a = trie(&[(0, 'a'), (32, 'b'), (1, 'c')]);
    let b = trie(&[(32, 'x')]);
    let single = b.remove(&77).is_err();
    assert!(single);
    let (u, _) = union(&a, &b);
    assert_eq!(entries_of(&u), vec![(0, 'a'), (1, 'c'), (32, 'x')]);
    let (v, _) = union(&b, &a);
    assert_eq!(entries_of(&v), vec![(0, 'a'), (1, 'c'), (32, 'b')]);
    let far = trie(&[(5, 'q')]);
    let (w, _) = union(&a, &far);
    assert_eq!(entries_of(&w), vec![(0, 'a'), (1, 'c'), (5, 'q'), (32, 'b')]);
}

#[test]
fn joint_of_single_entries_is_a_trie_like_any_other() {
    let a = trie(&[(7, 'a')]);
    let b = trie(&[(7, 'b')]);
    let c = trie(&[(40, 'c')]);
    let (same_key, _) = union(&a, &b);
    assert_eq!(same_key, trie(&[(7, 'b')]));
    let (apart, _) = union(&a, &c);
    assert_eq!(apart, trie(&[(7, 'a'), (40, 'c')]));
    let (mirrored, _) = union(&c, &a);
    assert_eq!(mirrored, apart);
    let (only, _): (Left, u32) = a.joint_transmute(
        &c,
        |x: &u32, y: &u32| x + y,
        |k: &u64, v: &char, _: &u64, _: &char| MapTransmuteResult::Transmuted(*k, *v, 0),
        |_: &u64, _: &char| MapTransmuteResult::Removed(0),
        |k: &u64, w: &char| MapTransmuteResult::Transmuted(*k, *w, 0),
    );
    assert_eq!(only, c);
}
