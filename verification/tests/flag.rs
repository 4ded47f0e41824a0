use hash_trie::flag::Flag;
use hash_trie::node::cnode::place;
use hash_trie::word::{Flagword, Hashword};

#[test]
fn flag_at_the_root() {
    let flag = Flag::<u64, u32>::new(0x20);
    assert_eq!(flag.hash_value(), 0x20);
    assert_eq!(flag.depth(), 0);
    assert_eq!(flag.index(), 0);
    assert_eq!(flag.mask(), 1);
    let flag = Flag::<u64, u32>::new(0x3f);
    assert_eq!(flag.index(), 31);
    assert_eq!(flag.mask(), 0x8000_0000);
}

#[test]
fn flag_at_depth_reads_the_next_bits() {
    let flag = Flag::<u64, u32>::new_at_depth(0x20, 1).unwrap();
    assert_eq!(flag.depth(), 1);
    assert_eq!(flag.index(), 1);
    assert_eq!(flag.mask(), 2);
    let flag = Flag::<u64, u32>::new_at_depth(0xf000_0000_0000_0000, 12).unwrap();
    assert_eq!(flag.index(), 15);
    assert_eq!(flag.mask(), 1 << 15);
    let flag = Flag::<u64, u64>::new_at_depth(0xfc0, 1).unwrap();
    assert_eq!(flag.index(), 63);
    assert_eq!(flag.mask(), 1u64 << 63);
}

#[test]
fn flag_beyond_the_hash_is_none() {
    assert!(Flag::<u64, u32>::new_at_depth(7, 12).is_some());
    assert!(Flag::<u64, u32>::new_at_depth(7, 13).is_none());
    assert!(Flag::<u64, u32>::new_at_depth(7, usize::MAX).is_none());
    assert!(Flag::<u32, u32>::new_at_depth(7, 6).is_some());
    assert!(Flag::<u32, u32>::new_at_depth(7, 7).is_none());
    assert!(Flag::<u64, u64>::new_at_depth(7, 10).is_some());
    assert!(Flag::<u64, u64>::new_at_depth(7, 11).is_none());
    assert!(Flag::<u32, u64>::new_at_depth(7, 5).is_some());
    assert!(Flag::<u32, u64>::new_at_depth(7, 6).is_none());
}

#[test]
fn flag_next_goes_one_level_down() {
    let flag = Flag::<u64, u32>::new(0x3e1);
    assert_eq!(flag.index(), 1);
    let next = flag.next().unwrap();
    assert_eq!(next.depth(), 1);
    assert_eq!(next.index(), 31);
    assert_eq!(next.hash_value(), 0x3e1);
    let last = Flag::<u64, u32>::new_at_depth(0, 12).unwrap();
    assert!(last.next().is_none());
}

#[test]
fn place_counts_the_slots_below() {
    let bitmap: u32 = 0b1011_0100;
    let at = |h: u64| place(bitmap, &Flag::<u64, u32>::new(h));
    assert_eq!(at(0), (false, 0));
    assert_eq!(at(2), (true, 0));
    assert_eq!(at(3), (false, 1));
    assert_eq!(at(4), (true, 1));
    assert_eq!(at(5), (true, 2));
    assert_eq!(at(7), (true, 3));
    assert_eq!(at(31), (false, 4));
}

#[test]
fn flag_word_operations() {
    assert_eq!(<u32 as Flagword>::empty(), 0);
    assert_eq!(<u32 as Flagword>::bit(5), 32);
    assert_eq!(<u32 as Flagword>::below(5), 31);
    assert_eq!(<u32 as Flagword>::below(0), 0);
    assert_eq!(<u64 as Flagword>::below(63), u64::MAX >> 1);
    assert_eq!(0b1100u32.intersect(0b1010), 0b1000);
    assert_eq!(0b1100u32.union(0b1010), 0b1110);
    assert_eq!(0b1100u32.minus(0b1010), 0b0100);
    assert!(0u32.is_empty());
    assert!(!4u32.is_empty());
    assert!(Flagword::same(&3u32, &3u32));
    assert!(!Flagword::same(&3u32, &5u32));
    assert_eq!(<u32 as Flagword>::slots(), 32);
    assert_eq!(<u64 as Flagword>::slots(), 64);
    assert_eq!(<u32 as Flagword>::log_bits(), 5);
    assert_eq!(<u64 as Flagword>::log_bits(), 6);
}

#[test]
fn flag_word_count_is_the_population_count() {
    assert_eq!(0u32.count(), 0);
    assert_eq!(1u32.count(), 1);
    assert_eq!(6u32.count(), 2);
    assert_eq!(0x8000_0001u32.count(), 2);
    assert_eq!(u32::MAX.count(), 32);
    assert_eq!(0u64.count(), 0);
    assert_eq!(6u64.count(), 2);
    assert_eq!(0x8000_0000_0000_0001u64.count(), 2);
    assert_eq!(u64::MAX.count(), 64);
    assert_eq!(0u16.count(), 0);
    assert_eq!(6u16.count(), 2);
    assert_eq!(0x8001u16.count(), 2);
    assert_eq!(u16::MAX.count(), 16);
    assert_eq!(0u8.count(), 0);
    assert_eq!(6u8.count(), 2);
    assert_eq!(0x81u8.count(), 2);
    assert_eq!(u8::MAX.count(), 8);
}

#[test]
fn narrow_words() {
    assert_eq!(<u16 as Flagword>::slots(), 16);
    assert_eq!(<u8 as Flagword>::slots(), 8);
    assert_eq!(<u16 as Flagword>::log_bits(), 4);
    assert_eq!(<u8 as Flagword>::log_bits(), 3);
    assert_eq!(<u8 as Flagword>::bit(7), 0x80);
    assert_eq!(<u16 as Flagword>::below(15), 0x7fff);
    assert_eq!(<u16 as Hashword>::bits(), 16);
    assert_eq!(<u8 as Hashword>::bits(), 8);
    assert_eq!(Hashword::slice(&0xabu8, 4, 4), 0xa);
    assert_eq!(Hashword::slice(&0xabcdu16, 12, 5), 0xa);
    let flag = Flag::<u16, u8>::new_at_depth(0b101_110_011, 2).unwrap();
    assert_eq!(flag.index(), 0b101);
    assert_eq!(flag.mask(), 1 << 5);
    assert!(Flag::<u16, u8>::new_at_depth(1, 5).is_some());
    assert!(Flag::<u16, u8>::new_at_depth(1, 6).is_none());
    assert!(Flag::<u8, u64>::new_at_depth(1, 1).is_some());
    assert!(Flag::<u8, u64>::new_at_depth(1, 2).is_none());
}

#[test]
fn hash_word_slices() {
    assert_eq!(Hashword::slice(&0xabcdu64, 4, 4), 0xc);
    assert_eq!(Hashword::slice(&0xabcdu64, 0, 5), 0x0d);
    assert_eq!(Hashword::slice(&u64::MAX, 60, 5), 0xf);
    assert_eq!(Hashword::slice(&0xabcdu32, 8, 7), 0x2b);
    assert_eq!(Hashword::slice(&u32::MAX, 30, 5), 3);
    assert_eq!(<u64 as Hashword>::bits(), 64);
    assert_eq!(<u32 as Hashword>::bits(), 32);
    assert!(Hashword::same(&5u64, &5u64));
    assert!(!Hashword::same(&5u64, &6u64));
}
