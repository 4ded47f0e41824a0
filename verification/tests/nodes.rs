use hash_trie::flag::Flag;
use hash_trie::node::cnode;
use hash_trie::node::lnode::{self, LNode, LNodeNext};
use hash_trie::node::mnode::MNode;
use hash_trie::node::snode::{self, SNode};
use hash_trie::result::{
    FindResult, InsertResult, LNodeInsertResult, LNodeTransformResult, LNodeTransmuteResult,
    RemoveResult, SNodeRemoveResult, SNodeTransformResult, SNodeTransmuteResult,
};
use hash_trie::{IdentityHasher, MapTransformResult, MapTransmuteResult, ZeroHasher};
use std::sync::Arc;

type Node = MNode<u64, u32, u64, char, IdentityHasher>;

fn list(entries: &[(u64, char)]) -> Arc<LNode<u64, char>> {
    let n = entries.len();
    let mut next = LNodeNext::S(SNode::new(entries[n - 1].0, entries[n - 1].1));
    for i in (1..n - 1).rev() {
        next = LNodeNext::L(LNode::new(entries[i].0, entries[i].1, next));
    }
    LNode::new(entries[0].0, entries[0].1, next)
}

fn entries_of(l: &LNode<u64, char>) -> Vec<(u64, char)> {
    let seen = std::cell::RefCell::new(Vec::new());
    l.visit(&|k: &u64, v: &char| seen.borrow_mut().push((*k, *v)));
    seen.into_inner()
}

fn node_entries(n: &Node) -> Vec<(u64, char)> {
    let seen = std::cell::RefCell::new(Vec::new());
    n.visit(&|k: &u64, v: &char| seen.borrow_mut().push((*k, *v)));
    seen.into_inner()
}

#[test]
fn snode_find_and_remove() {
    let s = SNode::new(7u64, 'x');
    assert!(matches!(s.find(&7), FindResult::Found(k, v) if (*k, *v) == (7, 'x')));
    assert!(matches!(s.find(&8), FindResult::NotFound));
    assert!(matches!(snode::remove(&s, &7), SNodeRemoveResult::RemovedZ(k, v) if (*k, *v) == (7, 'x')));
    assert!(matches!(snode::remove(&s, &8), SNodeRemoveResult::NotFound));
    let same = SNode::new(7u64, 'x');
    assert!(s.same(&same));
    assert!(!s.same(&SNode::new(7u64, 'y')));
}

#[test]
fn snode_transform_and_transmute() {
    let s = SNode::new(7u64, 'x');
    let r: SNodeTransformResult<u64, char, u8> =
        snode::transform(&s, &|_: &u64, _: &char| MapTransformResult::Unchanged(1));
    assert!(matches!(r, SNodeTransformResult::Unchanged(1)));
    let r: SNodeTransformResult<u64, char, u8> =
        snode::transform(&s, &|_: &u64, _: &char| MapTransformResult::Transformed('y', 2));
    match r {
        SNodeTransformResult::S(n, 2) => assert_eq!((*n.key(), *n.value()), (7, 'y')),
        _ => panic!("the entry gets its new value"),
    }
    let r: SNodeTransformResult<u64, char, u8> =
        snode::transform(&s, &|_: &u64, _: &char| MapTransformResult::Removed(3));
    assert!(matches!(r, SNodeTransformResult::Removed(3)));
    let r: SNodeTransmuteResult<u64, bool, u8> =
        snode::transmute(&s, &|k: &u64, _: &char| MapTransmuteResult::Transmuted(*k, true, 4));
    match r {
        SNodeTransmuteResult::S(n, 4) => assert_eq!((*n.key(), *n.value()), (7, true)),
        _ => panic!("the answer gives an entry"),
    }
}

#[test]
fn lnode_insert_replaces_or_grows() {
    let l = list(&[(3, 'c'), (2, 'b'), (1, 'a')]);
    let r: LNodeInsertResult<u64, u32, u64, char, ZeroHasher> =
        lnode::insert(&l, 2, 'x', 0, 1, false);
    assert!(matches!(r, LNodeInsertResult::Found(k, v) if (*k, *v) == (2, 'b')));
    let r: LNodeInsertResult<u64, u32, u64, char, ZeroHasher> =
        lnode::insert(&l, 2, 'x', 0, 1, true);
    match r {
        LNodeInsertResult::InsertedL(n, prev) => {
            assert_eq!(prev.map(|(k, v)| (*k, *v)), Some((2, 'b')));
            assert_eq!(entries_of(&n), vec![(2, 'x'), (3, 'c'), (1, 'a')]);
            assert_eq!(n.size(), 3);
        }
        _ => panic!("the entry is replaced"),
    }
    let r: LNodeInsertResult<u64, u32, u64, char, ZeroHasher> =
        lnode::insert(&l, 4, 'd', 0, 1, false);
    match r {
        LNodeInsertResult::InsertedL(n, prev) => {
            assert!(prev.is_none());
            assert_eq!(entries_of(&n), vec![(4, 'd'), (3, 'c'), (2, 'b'), (1, 'a')]);
            assert_eq!(n.size(), 4);
        }
        _ => panic!("the list grows"),
    }
    assert_eq!(entries_of(&l), vec![(3, 'c'), (2, 'b'), (1, 'a')]);
}

#[test]
fn lnode_lift_makes_a_list_or_a_branch() {
    let one = LNodeNext::S(SNode::new(0x21u64, 'a'));
    let r: LNodeInsertResult<u64, u32, u64, char, ZeroHasher> =
        lnode::lift_to_cnode_and_insert(one.share(), 5, 'b', 0, 0);
    match r {
        LNodeInsertResult::InsertedL(n, None) => {
            assert_eq!(entries_of(&n), vec![(5, 'b'), (0x21, 'a')]);
        }
        _ => panic!("keys of one hash make a list"),
    }
    let r: LNodeInsertResult<u64, u32, u64, char, IdentityHasher> =
        lnode::lift_to_cnode_and_insert(one.share(), 0x41, 'b', 0x41, 0);
    match r {
        LNodeInsertResult::InsertedC(c, None) => {
            assert_eq!(c.bitmap, 0b10);
            assert_eq!(c.size, 2);
            match &c.nodes[0] {
                MNode::C(deeper) => {
                    assert_eq!(deeper.bitmap, 0b110);
                    assert_eq!(node_entries(&c.nodes[0]), vec![(0x21, 'a'), (0x41, 'b')]);
                }
                _ => panic!("the keys part one level down"),
            }
        }
        _ => panic!("keys of different hashes make a branch"),
    }
}

#[test]
fn cnode_lift_orders_the_children_by_slot() {
    let a: Node = MNode::S(SNode::new(9, 'a'));
    let b: Node = MNode::S(SNode::new(4, 'b'));
    let c = cnode::lift_to_cnode_and_insert(a, Flag::new(9), b, Flag::new(4));
    assert_eq!(c.bitmap, (1 << 9) | (1 << 4));
    assert_eq!(c.size, 2);
    assert_eq!(node_entries(&MNode::C(c)), vec![(4, 'b'), (9, 'a')]);
}

#[test]
fn mnode_find_insert_remove() {
    let leaf: Node = MNode::S(SNode::new(3, 'a'));
    assert!(matches!(leaf.find(&3, 3, 0), FindResult::Found(_, v) if *v == 'a'));
    assert!(matches!(leaf.find(&4, 4, 0), FindResult::NotFound));
    match leaf.insert(35, 'b', 35, 0, false) {
        InsertResult::InsertedC(c, None) => {
            let node: Node = MNode::C(c);
            assert_eq!(node.size(), 2);
            assert!(matches!(node.find(&35, 35, 0), FindResult::Found(_, v) if *v == 'b'));
            match node.remove(&3, 3, 0) {
                RemoveResult::RemovedC(rest, k, v) => {
                    assert_eq!((*k, *v), (3, 'a'));
                    assert_eq!(rest.size, 1);
                    assert_eq!(rest.bitmap, 0b1000);
                }
                _ => panic!("at the root a branch is left"),
            }
            let deeper = match &node {
                MNode::C(root) => &root.nodes[0],
                _ => panic!("a branch"),
            };
            match deeper.remove(&3, 3, 1) {
                RemoveResult::RemovedS(one, k, v) => {
                    assert_eq!((*k, *v), (3, 'a'));
                    assert_eq!((*one.key(), *one.value()), (35, 'b'));
                }
                _ => panic!("below the root a branch with a single leaf gives way to it"),
            }
        }
        _ => panic!("keys of different hashes make a branch"),
    }
    match leaf.insert(3, 'z', 3, 0, true) {
        InsertResult::InsertedS(s, Some((k, v))) => {
            assert_eq!((*k, *v), (3, 'a'));
            assert_eq!(*s.value(), 'z');
        }
        _ => panic!("the entry is replaced"),
    }
    assert!(matches!(leaf.insert(3, 'z', 3, 0, false), InsertResult::Found(_, v) if *v == 'a'));
    assert!(matches!(leaf.remove(&3, 3, 0), RemoveResult::RemovedZ(_, _)));
    assert!(matches!(leaf.remove(&5, 5, 0), RemoveResult::NotFound));
}

#[test]
fn transform_result_puts_the_first_entry_in_front() {
    let l = list(&[(3, 'c'), (2, 'b'), (1, 'a')]);
    let add = |a: &u32, b: &u32| a + b;
    let tail = || list(&[(2, 'x'), (1, 'a')]);
    let r = lnode::transform_result(
        &l,
        MapTransformResult::Unchanged(1),
        LNodeTransformResult::Unchanged(10),
        &add,
    );
    assert!(matches!(r, LNodeTransformResult::Unchanged(11)));
    let r = lnode::transform_result(
        &l,
        MapTransformResult::Unchanged(1),
        LNodeTransformResult::L(tail(), 10),
        &add,
    );
    match r {
        LNodeTransformResult::L(n, 11) => {
            assert_eq!(entries_of(&n), vec![(3, 'c'), (2, 'x'), (1, 'a')])
        }
        _ => panic!("a list"),
    }
    let r = lnode::transform_result(
        &l,
        MapTransformResult::Transformed('z', 1),
        LNodeTransformResult::Unchanged(10),
        &add,
    );
    match r {
        LNodeTransformResult::L(n, 11) => {
            assert_eq!(entries_of(&n), vec![(3, 'z'), (2, 'b'), (1, 'a')])
        }
        _ => panic!("a list"),
    }
    let r = lnode::transform_result(
        &l,
        MapTransformResult::Transformed('z', 1),
        LNodeTransformResult::Removed(10),
        &add,
    );
    match r {
        LNodeTransformResult::S(n, 11) => assert_eq!((*n.key(), *n.value()), (3, 'z')),
        _ => panic!("a singleton"),
    }
    let r = lnode::transform_result(
        &l,
        MapTransformResult::Removed(1),
        LNodeTransformResult::Unchanged(10),
        &add,
    );
    match r {
        LNodeTransformResult::L(n, 11) => assert_eq!(entries_of(&n), vec![(2, 'b'), (1, 'a')]),
        _ => panic!("the rest of the list"),
    }
    let r = lnode::transform_result(
        &l,
        MapTransformResult::Removed(1),
        LNodeTransformResult::S(SNode::new(1, 'q'), 10),
        &add,
    );
    match r {
        LNodeTransformResult::S(n, 11) => assert_eq!((*n.key(), *n.value()), (1, 'q')),
        _ => panic!("a singleton"),
    }
    let r = lnode::transform_result(
        &l,
        MapTransformResult::<char, u32>::Removed(1),
        LNodeTransformResult::Removed(10),
        &add,
    );
    assert!(matches!(r, LNodeTransformResult::Removed(11)));
}

#[test]
fn transmute_result_puts_the_new_entry_in_front() {
    let cat = |a: &String, b: &String| format!("{}{}", a, b);
    let r = lnode::transmute_result(
        MapTransmuteResult::Transmuted(3u64, 'c', "x".to_string()),
        LNodeTransmuteResult::L(list(&[(2, 'b'), (1, 'a')]), "y".to_string()),
        &cat,
    );
    match r {
        LNodeTransmuteResult::L(n, s) => {
            assert_eq!(entries_of(&n), vec![(3, 'c'), (2, 'b'), (1, 'a')]);
            assert_eq!(s, "xy");
        }
        _ => panic!("a list"),
    }
    let r = lnode::transmute_result(
        MapTransmuteResult::Transmuted(3u64, 'c', "x".to_string()),
        LNodeTransmuteResult::S(SNode::new(1, 'a'), "y".to_string()),
        &cat,
    );
    match r {
        LNodeTransmuteResult::L(n, s) => {
            assert_eq!(entries_of(&n), vec![(3, 'c'), (1, 'a')]);
            assert_eq!(s, "xy");
        }
        _ => panic!("a list"),
    }
    let r = lnode::transmute_result(
        MapTransmuteResult::Transmuted(3u64, 'c', "x".to_string()),
        LNodeTransmuteResult::Removed("y".to_string()),
        &cat,
    );
    assert!(matches!(r, LNodeTransmuteResult::S(n, s) if *n.key() == 3 && s == "xy"));
    let r = lnode::transmute_result(
        MapTransmuteResult::<u64, char, String>::Removed("x".to_string()),
        LNodeTransmuteResult::S(SNode::new(1, 'a'), "y".to_string()),
        &cat,
    );
    assert!(matches!(r, LNodeTransmuteResult::S(n, s) if *n.key() == 1 && s == "xy"));
    let r = lnode::transmute_result(
        MapTransmuteResult::<u64, char, String>::Removed("x".to_string()),
        LNodeTransmuteResult::Removed("y".to_string()),
        &cat,
    );
    assert!(matches!(r, LNodeTransmuteResult::Removed(s) if s == "xy"));
}

#[test]
fn lnode_transform_and_transmute_walk_the_list() {
    let l = list(&[(3, 'c'), (2, 'b'), (1, 'a')]);
    let cat = |a: &String, b: &String| format!("({}{})", a, b);
    let r = lnode::transform(&l, &cat, &|k: &u64, _: &char| {
        if *k == 2 {
            MapTransformResult::Removed(k.to_string())
        } else {
            MapTransformResult::Unchanged(k.to_string())
        }
    });
    match r {
        LNodeTransformResult::L(n, s) => {
            assert_eq!(entries_of(&n), vec![(3, 'c'), (1, 'a')]);
            assert_eq!(s, "(3(21))");
        }
        _ => panic!("two entries are left"),
    }
    let r = lnode::transmute(&l, &cat, &|k: &u64, v: &char| {
        MapTransmuteResult::Transmuted(*k, *v as u32, k.to_string())
    });
    match r {
        LNodeTransmuteResult::L(n, s) => {
            assert_eq!(n.size(), 3);
            assert_eq!(s, "(3(21))");
            assert!(matches!(n.find(&2), FindResult::Found(_, v) if *v == 'b' as u32));
        }
        _ => panic!("three entries"),
    }
}

fn pair(v: &char, w: &char) -> u32 {
    *v as u32 * 1000 + *w as u32
}

#[test]
fn joint_of_two_singletons() {
    let cat = |a: &String, b: &String| format!("{}{}", a, b);
    let both = |k: &u64, v: &char, _: &u64, w: &char| {
        MapTransmuteResult::Transmuted(*k, pair(v, w), "B".to_string())
    };
    let left =
        |k: &u64, v: &char| MapTransmuteResult::Transmuted(*k, *v as u32, "L".to_string());
    let right =
        |k: &u64, w: &char| MapTransmuteResult::Transmuted(*k, *w as u32, "R".to_string());
    let a = SNode::new(1u64, 'a');
    let r = snode::joint_transmute_values(&a, &SNode::new(1u64, 'x'), &cat, &both, &left, &right);
    match r {
        LNodeTransmuteResult::S(n, s) => {
            assert_eq!((*n.key(), *n.value()), (1, pair(&'a', &'x')));
            assert_eq!(s, "B");
        }
        _ => panic!("one entry"),
    }
    let r = snode::joint_transmute_values(&a, &SNode::new(2u64, 'x'), &cat, &both, &left, &right);
    match r {
        LNodeTransmuteResult::L(n, s) => {
            assert_eq!((*n.key(), *n.value()), (2, 'x' as u32));
            assert!(matches!(n.find(&1), FindResult::Found(_, v) if *v == 'a' as u32));
            assert_eq!(n.size(), 2);
            assert_eq!(s, "RL");
        }
        _ => panic!("two entries"),
    }
}

#[test]
fn joint_of_a_list_and_a_singleton() {
    let cat = |a: &String, b: &String| format!("{}{}", a, b);
    let both = |k: &u64, v: &char, _: &u64, w: &char| {
        MapTransmuteResult::Transmuted(*k, pair(v, w), format!("B{}", k))
    };
    let left =
        |k: &u64, v: &char| MapTransmuteResult::Transmuted(*k, *v as u32, format!("L{}", k));
    let right =
        |k: &u64, w: &char| MapTransmuteResult::Transmuted(*k, *w as u32, format!("R{}", k));
    let l = list(&[(3, 'c'), (2, 'b'), (1, 'a')]);
    let r = lnode::joint_transmute_snode_impl(
        &l,
        &SNode::new(2u64, 'x'),
        &cat,
        &both,
        &left,
        &right,
    );
    match r {
        LNodeTransmuteResult::L(n, s) => {
            assert_eq!(n.size(), 3);
            assert!(matches!(n.find(&2), FindResult::Found(_, v) if *v == pair(&'b', &'x')));
            assert_eq!(s, "L3B2L1");
        }
        _ => panic!("three entries"),
    }
    let r = lnode::joint_transmute_snode_impl(
        &l,
        &SNode::new(9u64, 'x'),
        &cat,
        &both,
        &left,
        &right,
    );
    match r {
        LNodeTransmuteResult::L(n, s) => {
            assert_eq!(n.size(), 4);
            assert_eq!(*n.key(), 9);
            assert_eq!(s, "R9L3L2L1");
        }
        _ => panic!("four entries"),
    }
    let r = lnode::joint_transmute_lnode_impl(
        &l,
        &LNodeNext::L(list(&[(1, 'x'), (7, 'y')])),
        &cat,
        &both,
        &left,
    );
    match r {
        LNodeTransmuteResult::L(n, s) => {
            assert_eq!(n.size(), 3);
            assert!(matches!(n.find(&1), FindResult::Found(_, v) if *v == pair(&'a', &'x')));
            assert!(matches!(n.find(&7), FindResult::NotFound));
            assert_eq!(s, "L3L2B1");
        }
        _ => panic!("three entries"),
    }
}
