use hash_trie::node::lnode::{remove_from_lnode, LNode, LNodeNext};
use hash_trie::node::snode::SNode;
use hash_trie::result::{FindResult, LNodeRemoveResult};

fn found<'a>(r: FindResult<'a, i32, ()>) -> Option<(i32, ())> {
    match r {
        FindResult::Found(k, v) => Some((*k, *v)),
        FindResult::NotFound => None,
    }
}

#[test]
fn lnode_insert_3() {
    let node = LNode::new(
        3,
        (),
        LNodeNext::L(LNode::new(2, (), LNodeNext::S(SNode::new(1, ())))),
    );
    assert_eq!(node.size(), 3);
    assert_eq!(found(node.find(&1)), Some((1, ())));
    assert_eq!(found(node.find(&2)), Some((2, ())));
    assert_eq!(found(node.find(&3)), Some((3, ())));
    assert_eq!(found(node.find(&4)), None);
}

#[test]
fn lnode_remove_shortens_the_list() {
    let node = LNode::new(
        3,
        (),
        LNodeNext::L(LNode::new(2, (), LNodeNext::S(SNode::new(1, ())))),
    );
    match remove_from_lnode(&node, &2) {
        LNodeRemoveResult::RemovedL(rest, k, _) => {
            assert_eq!(*k, 2);
            assert_eq!(rest.size(), 2);
            assert_eq!(found(rest.find(&3)), Some((3, ())));
            assert_eq!(found(rest.find(&1)), Some((1, ())));
            assert_eq!(found(rest.find(&2)), None);
            match remove_from_lnode(&rest, &3) {
                LNodeRemoveResult::RemovedS(one, k, _) => {
                    assert_eq!(*k, 3);
                    assert_eq!(*one.key(), 1);
                }
                _ => panic!("a list of two entries leaves a singleton"),
            }
        }
        _ => panic!("the key is in the list"),
    }
    assert!(matches!(remove_from_lnode(&node, &4), LNodeRemoveResult::NotFound));
    assert_eq!(node.size(), 3);
}

#[test]
fn lnode_first_match_wins() {
    let node = LNode::new(1, 'a', LNodeNext::S(SNode::new(1, 'b')));
    match node.find(&1) {
        FindResult::Found(k, v) => assert_eq!((*k, *v), (1, 'a')),
        FindResult::NotFound => panic!("the key is in the list"),
    }
    assert_eq!(*node.key(), 1);
    assert_eq!(*node.value(), 'a');
}
