use hash_trie::{HashTrie, HashTrieError, HasherBv, IdentityHasher, MixHasher, ZeroHasher};

#[derive(Default)]
struct Low3;

impl HasherBv<u64, u64> for Low3 {
    fn spec_hash(k: u64) -> u64 {
        k & 7
    }

    fn hash(&self, k: &u64) -> u64 {
        *k & 7
    }
}

fn get<M: HasherBv<u64, u64>>(t: &HashTrie<u64, u32, u64, u64, M>, k: u64) -> Option<u64> {
    match t.find(&k) {
        Ok((key, value)) => {
            assert_eq!(*key, k);
            Some(*value)
        }
        Err(HashTrieError::NotFound) => None,
    }
}

#[test]
fn hasher_of_a_caller_keeps_colliding_keys_apart() {
    let t = HashTrie::<u64, u32, u64, u64, Low3>::new();
    let t = t.insert(1, 10, false).unwrap().0;
    let t = t.insert(9, 90, false).unwrap().0;
    let t = t.insert(17, 170, false).unwrap().0;
    let t = t.insert(2, 20, false).unwrap().0;
    assert_eq!(t.size(), 4);
    assert_eq!(get(&t, 1), Some(10));
    assert_eq!(get(&t, 9), Some(90));
    assert_eq!(get(&t, 17), Some(170));
    assert_eq!(get(&t, 2), Some(20));
    assert_eq!(get(&t, 25), None);
    let t = t.remove(&9).unwrap().0;
    assert_eq!(t.size(), 3);
    assert_eq!(get(&t, 9), None);
    assert_eq!(get(&t, 1), Some(10));
    assert_eq!(get(&t, 17), Some(170));
}

#[test]
fn identity_hasher_takes_the_key() {
    assert_eq!(<IdentityHasher as HasherBv<u64, u64>>::hash(&IdentityHasher {}, &0x1234), 0x1234);
    assert_eq!(<IdentityHasher as HasherBv<u64, u8>>::hash(&IdentityHasher {}, &0x12), 0x12);
    assert_eq!(<IdentityHasher as HasherBv<u64, i32>>::hash(&IdentityHasher {}, &-1), 0x7fff_ffff);
    assert_eq!(<IdentityHasher as HasherBv<u64, i32>>::hash(&IdentityHasher {}, &0), 0x8000_0000);
    assert_eq!(<IdentityHasher as HasherBv<u64, i8>>::hash(&IdentityHasher {}, &i8::MIN), 0);
}

#[test]
fn zero_hasher_gives_zero() {
    assert_eq!(<ZeroHasher as HasherBv<u64, u64>>::hash(&ZeroHasher {}, &77), 0);
    assert_eq!(<ZeroHasher as HasherBv<u64, i16>>::hash(&ZeroHasher {}, &-3), 0);
}

#[test]
fn mix_spreads_the_bits() {
    assert_eq!(hash_trie::hashers::mix(0), 0);
    assert_eq!(hash_trie::hashers::mix(1), 0x5692_161d_100b_05e5);
    assert_eq!(
        <MixHasher as HasherBv<u64, u64>>::hash(&MixHasher {}, &1),
        hash_trie::hashers::mix(1)
    );
    assert_eq!(
        <MixHasher as HasherBv<u64, i32>>::hash(&MixHasher {}, &1),
        hash_trie::hashers::mix(0x8000_0001)
    );
    assert_ne!(hash_trie::hashers::mix(2) & 31, hash_trie::hashers::mix(34) & 31);
}
