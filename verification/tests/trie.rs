use hash_trie::node::mnode::MNode;
use hash_trie::{
    HashTrie, HashTrieError, IdentityHasher, MapTransformResult, MapTransmuteResult, MixHasher,
    ZeroHasher,
};
use std::cell::Cell;

type Plain = HashTrie<u64, u32, u64, u64, IdentityHasher>;
type Mixed = HashTrie<u64, u32, u64, u64, MixHasher>;
type Chain = HashTrie<u64, u32, u64, u64, ZeroHasher>;

fn plain(entries: &[(u64, u64)]) -> Plain {
    let mut t = Plain::new();
    for (k, v) in entries {
        t = t.insert(*k, *v, false).unwrap().0;
    }
    t
}

fn entries_of<M: hash_trie::HasherBv<u64, u64>>(
    t: &HashTrie<u64, u32, u64, u64, M>,
) -> Vec<(u64, u64)> {
    let seen = std::cell::RefCell::new(Vec::new());
    t.visit(|k: &u64, v: &u64| seen.borrow_mut().push((*k, *v)));
    let mut all = seen.into_inner();
    all.sort();
    all
}

#[test]
fn empty_trie_holds_nothing() {
    let t = Plain::new();
    assert_eq!(t.size(), 0);
    assert_eq!(t.find(&7), Err(HashTrieError::NotFound));
    assert!(t.remove(&7).is_err());
    assert_eq!(t, Plain::default());
}

#[test]
fn insert_then_find_every_key() {
    let mut t = Mixed::new();
    for i in 0..2000u64 {
        t = t.insert(i * 7919, i, false).unwrap().0;
    }
    assert_eq!(t.size(), 2000);
    for i in 0..2000u64 {
        let (k, v) = t.find(&(i * 7919)).unwrap();
        assert_eq!((*k, *v), (i * 7919, i));
    }
    assert!(t.find(&1).is_err());
}

#[test]
fn insert_without_replace_hands_back_the_entry_in_the_way() {
    let t = plain(&[(1, 10), (2, 20)]);
    let r = t.insert(1, 11, false);
    match r {
        Err((k, v)) => assert_eq!((*k, *v), (1, 10)),
        Ok(_) => panic!("the key is there"),
    }
    assert_eq!(t.size(), 2);
}

#[test]
fn insert_with_replace_hands_back_the_old_entry() {
    let t = plain(&[(1, 10), (2, 20)]);
    let (t2, prev) = t.insert(1, 11, true).unwrap();
    assert_eq!(prev.map(|(k, v)| (*k, *v)), Some((1, 10)));
    assert_eq!(t2.size(), 2);
    assert_eq!(t2.find(&1).map(|(k, v)| (*k, *v)), Ok((1, 11)));
    let (t3, prev) = t.insert(3, 30, true).unwrap();
    assert!(prev.is_none());
    assert_eq!(t3.size(), 3);
}

#[test]
fn insert_replace_twice_is_insert_replace_once() {
    for entries in [vec![], vec![(5, 50)], vec![(5, 50), (6, 60), (37, 1)]] {
        let t = plain(&entries);
        let once = t.insert(5, 55, true).unwrap().0;
        let twice = once.insert(5, 55, true).unwrap().0;
        assert_eq!(once, twice);
    }
    let t = Chain::new().insert(1, 1, false).unwrap().0.insert(2, 2, false).unwrap().0;
    let once = t.insert(1, 9, true).unwrap().0;
    let twice = once.insert(1, 9, true).unwrap().0;
    assert_eq!(once, twice);
    assert_ne!(once, t);
}

#[test]
fn remove_cancels_insert() {
    let t = plain(&[(1, 10), (2, 20), (33, 330), (1025, 7)]);
    for k in [0u64, 3, 65, 1 << 40, 2049] {
        let with = t.insert(k, 1, false).unwrap().0;
        assert_ne!(with, t);
        let (back, rk, rv) = with.remove(&k).unwrap();
        assert_eq!((*rk, *rv), (k, 1));
        assert_eq!(back, t);
    }
    let empty = Plain::new();
    let back = empty.insert(9, 9, false).unwrap().0.remove(&9).unwrap().0;
    assert_eq!(back, empty);
}

#[test]
fn size_goes_with_the_entries() {
    let t = plain(&[(1, 10), (2, 20)]);
    assert_eq!(t.size(), 2);
    assert_eq!(t.insert(3, 30, false).unwrap().0.size(), 3);
    assert_eq!(t.insert(2, 21, true).unwrap().0.size(), 2);
    assert_eq!(t.remove(&2).unwrap().0.size(), 1);
    assert_eq!(t.remove(&2).unwrap().0.remove(&1).unwrap().0.size(), 0);
}

#[test]
fn old_tries_stay_as_they_were() {
    let t0 = plain(&[(1, 10), (2, 20), (33, 330)]);
    let before = entries_of(&t0);
    let t1 = t0.insert(4, 40, false).unwrap().0;
    let t2 = t0.insert(1, 11, true).unwrap().0;
    let t3 = t0.remove(&33).unwrap().0;
    let t4 = t0.transform(|_: &(), _: &()| (), |_, _| MapTransformResult::Removed(())).0;
    assert_eq!(entries_of(&t0), before);
    assert_eq!(t0.size(), 3);
    assert_eq!(t0.find(&1).map(|(k, v)| (*k, *v)), Ok((1, 10)));
    assert_eq!(t0.find(&33).map(|(k, v)| (*k, *v)), Ok((33, 330)));
    assert!(t0.find(&4).is_err());
    assert_eq!(t1.size(), 4);
    assert_eq!(t2.find(&1).map(|(k, v)| (*k, *v)), Ok((1, 11)));
    assert!(t3.find(&33).is_err());
    assert_eq!(t4.size(), 0);
}

#[test]
fn visit_meets_every_entry_once() {
    let mut t = Mixed::new();
    for i in 0..500u64 {
        t = t.insert(i, i + 1, false).unwrap().0;
    }
    let calls = Cell::new(0usize);
    let sum = Cell::new(0u64);
    t.visit(|k: &u64, v: &u64| {
        calls.set(calls.get() + 1);
        sum.set(sum.get() + *v - *k);
    });
    assert_eq!(calls.get(), t.size());
    assert_eq!(sum.get(), 500);
    let all = entries_of(&t);
    assert_eq!(all, (0..500u64).map(|i| (i, i + 1)).collect::<Vec<_>>());
    let none = Cell::new(0usize);
    Mixed::new().visit(|_: &u64, _: &u64| none.set(none.get() + 1));
    assert_eq!(none.get(), 0);
}

#[test]
fn collision_chain() {
    let mut t = Chain::new();
    for k in [1u64, 2, 3] {
        t = t.insert(k, k * 10, false).unwrap().0;
    }
    assert_eq!(t.size(), 3);
    for k in [1u64, 2, 3] {
        assert_eq!(t.find(&k).map(|(k, v)| (*k, *v)), Ok((k, k * 10)));
    }
    match t.root() {
        MNode::C(root) => {
            assert_eq!(root.bitmap, 1);
            assert_eq!(root.nodes.len(), 1);
            match &root.nodes[0] {
                MNode::L(list) => assert_eq!(list.size(), 3),
                _ => panic!("the three keys collide"),
            }
        }
        _ => panic!("a trie that grew from the empty trie has a branch as its root"),
    }
    let (t, k, v) = t.remove(&2).unwrap();
    assert_eq!((*k, *v), (2, 20));
    assert_eq!(t.size(), 2);
    assert_eq!(t.find(&2), Err(HashTrieError::NotFound));
    assert_eq!(t.find(&1).map(|(k, v)| (*k, *v)), Ok((1, 10)));
    assert_eq!(t.find(&3).map(|(k, v)| (*k, *v)), Ok((3, 30)));
    match t.root() {
        MNode::C(root) => match &root.nodes[0] {
            MNode::L(list) => assert_eq!(list.size(), 2),
            _ => panic!("two keys still collide"),
        },
        _ => panic!("the root stays a branch"),
    }
    let t = t.remove(&1).unwrap().0;
    match t.root() {
        MNode::C(root) => match &root.nodes[0] {
            MNode::S(one) => assert_eq!((*one.key(), *one.value()), (3, 30)),
            _ => panic!("a list of one entry gives way to a singleton"),
        },
        _ => panic!("the root stays a branch"),
    }
}

#[test]
fn compressed_branch() {
    let t = plain(&[(0x0, 0), (0x1, 1), (0x20, 32)]);
    assert_eq!(t.size(), 3);
    match t.root() {
        MNode::C(root) => {
            assert_eq!(root.bitmap, 0b11);
            assert_eq!(root.nodes.len(), 2);
            assert_eq!(root.size, 3);
            match &root.nodes[0] {
                MNode::C(deeper) => {
                    assert_eq!(deeper.bitmap, 0b11);
                    assert_eq!(deeper.size, 2);
                    match (&deeper.nodes[0], &deeper.nodes[1]) {
                        (MNode::S(a), MNode::S(b)) => {
                            assert_eq!(*a.key(), 0x0);
                            assert_eq!(*b.key(), 0x20);
                        }
                        _ => panic!("two singletons one level down"),
                    }
                }
                _ => panic!("slot 0 holds a branch"),
            }
            match &root.nodes[1] {
                MNode::S(one) => assert_eq!(*one.key(), 0x1),
                _ => panic!("slot 1 holds a singleton"),
            }
        }
        _ => panic!("the root is a branch"),
    }
    let t = t.remove(&0x20).unwrap().0;
    match t.root() {
        MNode::C(root) => {
            assert_eq!(root.bitmap, 0b11);
            match &root.nodes[0] {
                MNode::S(one) => assert_eq!(*one.key(), 0x0),
                _ => panic!("a branch with a single leaf gives way to the leaf"),
            }
        }
        _ => panic!("the root is a branch"),
    }
}

#[test]
fn deep_branches_for_long_shared_prefixes() {
    let a = 0x0123_4567_89ab_cdefu64;
    let b = a ^ (1 << 63);
    let t = plain(&[(a, 1), (b, 2)]);
    assert_eq!(t.find(&a).map(|(_, v)| *v), Ok(1));
    assert_eq!(t.find(&b).map(|(_, v)| *v), Ok(2));
    let mut depth = 0;
    let mut node = t.root();
    loop {
        match node {
            MNode::C(c) => {
                if c.nodes.len() == 1 {
                    depth += 1;
                    node = &c.nodes[0];
                } else {
                    assert_eq!(c.nodes.len(), 2);
                    break;
                }
            }
            _ => panic!("the two keys part in a branch"),
        }
    }
    assert_eq!(depth, 12);
    let t = t.remove(&a).unwrap().0;
    match t.root() {
        MNode::C(c) => match &c.nodes[0] {
            MNode::S(s) => assert_eq!(*s.key(), b),
            _ => panic!("the chain of branches gives way to the leaf"),
        },
        _ => panic!("the root is a branch"),
    }
}

#[test]
fn transform_keeps_changes_and_drops() {
    let t = plain(&[(1, 10), (2, 20), (3, 30), (35, 350), (4, 40)]);
    let (t2, sum) = t.transform(
        |a: &u64, b: &u64| a + b,
        |k, v| {
            if *k == 2 {
                MapTransformResult::Removed(*v)
            } else if *k % 2 == 1 {
                MapTransformResult::Transformed(*v + 1, *v)
            } else {
                MapTransformResult::Unchanged(*v)
            }
        },
    );
    assert_eq!(sum, 450);
    assert_eq!(entries_of(&t2), vec![(1, 11), (3, 31), (4, 40), (35, 351)]);
    assert_eq!(t2.size(), 4);
}

#[test]
fn transform_that_changes_nothing_gives_the_trie_back() {
    let t = plain(&[(1, 10), (2, 20), (3, 30), (35, 350)]);
    let (same, count) = t.transform(|a: &u64, b: &u64| a + b, |_, _| MapTransformResult::Unchanged(1));
    assert_eq!(same, t);
    assert_eq!(count, 4);
    let c = Chain::new().insert(1, 1, false).unwrap().0.insert(2, 2, false).unwrap().0;
    let (same, count) = c.transform(|a: &u64, b: &u64| a + b, |_, _| MapTransformResult::Unchanged(1));
    assert_eq!(same, c);
    assert_eq!(count, 2);
}

#[test]
fn transform_combines_shares_along_the_shape() {
    // Slot 0 holds the branch of 0 and 32, slot 1 the singleton 1.
    let t = plain(&[(0, 0), (1, 0), (32, 0)]);
    let (_, shape) = t.transform(
        |a: &String, b: &String| format!("({}{})", a, b),
        |k, _| MapTransformResult::<u64, String>::Unchanged(format!("{}", k)),
    );
    assert_eq!(shape, "((((0)32))1)");
    // A collision list combines from the right.
    let c = Chain::new()
        .insert(1, 0, false)
        .unwrap()
        .0
        .insert(2, 0, false)
        .unwrap()
        .0
        .insert(3, 0, false)
        .unwrap()
        .0;
    let (_, shape) = c.transform(
        |a: &String, b: &String| format!("({}{})", a, b),
        |k, _| MapTransformResult::<u64, String>::Unchanged(format!("{}", k)),
    );
    assert_eq!(shape, "((3(21)))");
}

#[test]
fn transform_that_drops_everything_gives_the_empty_trie() {
    let t = plain(&[(1, 10), (2, 20), (3, 30), (35, 350)]);
    let (none, ()) = t.transform(|_: &(), _: &()| (), |_, _| MapTransformResult::Removed(()));
    assert_eq!(none.size(), 0);
    assert_eq!(none, Plain::new());
}

#[test]
fn transmute_makes_a_trie_of_other_values() {
    let t = plain(&[(1, 10), (2, 20), (3, 30), (35, 350)]);
    let (t2, count): (HashTrie<u64, u32, u64, bool, IdentityHasher>, u32) = t.transmute(
        |a: &u32, b: &u32| a + b,
        |k, v| {
            if *k == 3 {
                MapTransmuteResult::Removed(1)
            } else {
                MapTransmuteResult::Transmuted(*k, *v > 15, 1)
            }
        },
    );
    assert_eq!(count, 4);
    assert_eq!(t2.size(), 3);
    assert_eq!(t2.find(&1).map(|(k, v)| (*k, *v)), Ok((1, false)));
    assert_eq!(t2.find(&2).map(|(k, v)| (*k, *v)), Ok((2, true)));
    assert_eq!(t2.find(&35).map(|(k, v)| (*k, *v)), Ok((35, true)));
    assert!(t2.find(&3).is_err());
}

#[test]
fn transmute_that_drops_everything_gives_the_empty_trie() {
    let t = plain(&[(1, 10), (2, 20)]);
    let (t2, ()): (HashTrie<u64, u32, u64, u8, IdentityHasher>, ()) =
        t.transmute(|_: &(), _: &()| (), |_, _| MapTransmuteResult::Removed(()));
    assert_eq!(t2.size(), 0);
    assert_eq!(t2, HashTrie::new());
}

#[derive(Debug, Default)]
struct Folded;

impl hash_trie::HasherBv<u16, u64> for Folded {
    fn spec_hash(k: u64) -> u16 {
        (k ^ (k >> 16)) as u16
    }

    fn hash(&self, k: &u64) -> u16 {
        (*k ^ (*k >> 16)) as u16
    }
}

#[test]
fn narrow_hash_and_flag_words() {
    let mut t = HashTrie::<u16, u8, u64, u64, Folded>::new();
    for i in 0..3000u64 {
        t = t.insert(i * 13, i, false).unwrap().0;
    }
    assert_eq!(t.size(), 3000);
    for i in 0..3000u64 {
        assert_eq!(t.find(&(i * 13)).map(|(_, v)| *v), Ok(i));
    }
    assert!(t.find(&1).is_err());
    for i in 0..3000u64 {
        t = t.remove(&(i * 13)).unwrap().0;
    }
    assert_eq!(t.size(), 0);
    assert_eq!(t, HashTrie::new());
}

#[test]
fn equal_means_the_same_shape_and_entries() {
    let a = plain(&[(1, 10), (2, 20)]);
    let b = plain(&[(2, 20), (1, 10)]);
    assert_eq!(a, b);
    assert_eq!(a.clone(), a);
    assert_ne!(a, plain(&[(1, 10), (2, 21)]));
    assert_ne!(a, plain(&[(1, 10)]));
    let c1 = Chain::new().insert(1, 1, false).unwrap().0.insert(2, 2, false).unwrap().0;
    let c2 = Chain::new().insert(2, 2, false).unwrap().0.insert(1, 1, false).unwrap().0;
    assert_ne!(c1, c2);
    assert_eq!(entries_of(&c1), entries_of(&c2));
}

#[test]
fn what_is_left_is_the_trie_of_what_is_left() {
    let t = plain(&[(1, 10), (2, 20), (35, 350), (67, 670)]);
    let one = plain(&[(35, 350)]);
    let (left, ()) = t.transform(
        |_: &(), _: &()| (),
        |k, _| {
            if *k == 35 {
                MapTransformResult::Unchanged(())
            } else {
                MapTransformResult::Removed(())
            }
        },
    );
    assert_eq!(left, one);
    assert!(matches!(left.root(), MNode::C(_)));
    let (made, ()): (Plain, ()) = t.transmute(
        |_: &(), _: &()| (),
        |k, v| {
            if *k == 35 {
                MapTransmuteResult::Transmuted(*k, *v, ())
            } else {
                MapTransmuteResult::Removed(())
            }
        },
    );
    assert_eq!(made, one);
    let taken = t.remove(&1).unwrap().0.remove(&67).unwrap().0.remove(&2).unwrap().0;
    assert_eq!(taken, one);
    let two = plain(&[(35, 350), (67, 670)]);
    let (pair, ()) = t.transform(
        |_: &(), _: &()| (),
        |k, _| {
            if *k > 30 {
                MapTransformResult::Unchanged(())
            } else {
                MapTransformResult::Removed(())
            }
        },
    );
    assert_eq!(pair, two);
}
