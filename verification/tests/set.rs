use hash_trie::{DefaultHashTrieSet, HashTrieError, SetTransformResult};

#[test]
fn set_transform() {
    let mut set = DefaultHashTrieSet::<i32>::new();

    for i in 1..101 {
        set = set.insert(i, false).unwrap().0;
    }

    let same = set.transform(|_, _| (), |_| (SetTransformResult::Unchanged, ()));
    let removed = set.transform(|_, _| (), |_| (SetTransformResult::Removed, ()));
    let summed = set.transform(|l, r| l + r, |v| (SetTransformResult::Unchanged, *v));

    assert_eq!(set, same.0);
    assert_eq!(removed.0.size(), 0);
    assert_eq!(summed.1, 5050);
}

#[test]
fn empty_find() {
    let set = DefaultHashTrieSet::<i32>::new();
    assert_eq!(set.find(&7), Err(HashTrieError::NotFound));
    assert_eq!(set.size(), 0);
}

#[test]
fn set_insert_find_remove() {
    let set = DefaultHashTrieSet::<i32>::new();
    let (set, prev) = set.insert(5, false).unwrap();
    assert!(prev.is_none());
    let (set, prev) = set.insert(-5, false).unwrap();
    assert!(prev.is_none());
    assert_eq!(set.size(), 2);
    assert_eq!(set.find(&5), Ok(&5));
    assert_eq!(set.find(&-5), Ok(&-5));
    assert_eq!(set.find(&6), Err(HashTrieError::NotFound));
    assert_eq!(set.insert(5, false).err(), Some(&5));
    let (again, prev) = set.insert(5, true).unwrap();
    assert_eq!(prev, Some(&5));
    assert_eq!(again.size(), 2);
    assert_eq!(again, set);
    let (less, gone) = set.remove(&5).unwrap();
    assert_eq!(*gone, 5);
    assert_eq!(less.size(), 1);
    assert_eq!(less.find(&5), Err(HashTrieError::NotFound));
    assert_eq!(less.remove(&5).err(), Some(HashTrieError::NotFound));
    assert_eq!(set.size(), 2);
    assert_eq!(less.remove(&-5).unwrap().0, DefaultHashTrieSet::<i32>::default());
}

#[test]
fn set_visit_meets_every_element_once() {
    let mut set = DefaultHashTrieSet::<i32>::new();
    for i in -50..50 {
        set = set.insert(i, false).unwrap().0;
    }
    let calls = std::cell::Cell::new(0usize);
    let sum = std::cell::Cell::new(0i32);
    set.visit(|v: &i32| {
        calls.set(calls.get() + 1);
        sum.set(sum.get() + *v);
    });
    assert_eq!(calls.get(), 100);
    assert_eq!(calls.get(), set.size());
    assert_eq!(sum.get(), -50);
}

#[test]
fn set_transform_keeps_the_elements_that_stay() {
    let mut set = DefaultHashTrieSet::<i32>::new();
    for i in 1..101 {
        set = set.insert(i, false).unwrap().0;
    }
    let (even, dropped) = set.transform(
        |l, r| l + r,
        |v| {
            if *v % 2 == 0 {
                (SetTransformResult::Unchanged, 0)
            } else {
                (SetTransformResult::Removed, 1)
            }
        },
    );
    assert_eq!(dropped, 50);
    assert_eq!(even.size(), 50);
    assert!(even.find(&2).is_ok());
    assert!(even.find(&3).is_err());
    assert_eq!(set.size(), 100);
}
