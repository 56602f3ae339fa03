use gridless_pathfinding::ptr_indexed_hash_set::PtrIndexedHashSet;
use gridless_pathfinding::util::Windows;

#[test]
fn new_set_is_empty() {
    let set = PtrIndexedHashSet::new();
    assert!(!set.contains(0));
    assert!(!set.contains(7));
    let mut walk = set.iter();
    assert_eq!(walk.next(), None);
}

#[test]
fn inserted_handles_are_contained() {
    let mut set = PtrIndexedHashSet::new();
    assert!(set.insert(3));
    assert!(set.insert(5));
    assert!(!set.insert(3));
    assert!(set.contains(3));
    assert!(set.contains(5));
    assert!(!set.contains(4));
}

#[test]
fn removed_handles_are_gone() {
    let mut set = PtrIndexedHashSet::new();
    set.insert(3);
    set.insert(5);
    assert!(set.remove(3));
    assert!(!set.remove(3));
    assert!(!set.remove(9));
    assert!(!set.contains(3));
    assert!(set.contains(5));
}

#[test]
fn walk_hands_out_every_handle_once() {
    let mut set = PtrIndexedHashSet::new();
    for handle in [4, 8, 15, 16, 23, 42, 8, 4] {
        set.insert(handle);
    }
    let mut walk = set.iter();
    let mut seen = Vec::new();
    while let Some(handle) = walk.next() {
        seen.push(handle);
    }
    assert_eq!(walk.next(), None);
    seen.sort();
    assert_eq!(seen, vec![4, 8, 15, 16, 23, 42]);
}

#[test]
fn windows_pair_each_item_with_the_one_before() {
    let mut walk = vec![1, 2, 3, 4].windows();
    assert_eq!(walk.next(), Some((2, 1)));
    assert_eq!(walk.next(), Some((3, 2)));
    assert_eq!(walk.next(), Some((4, 3)));
    assert_eq!(walk.next(), None);
    assert_eq!(walk.next(), None);
}

#[test]
fn short_lists_have_no_windows() {
    let mut empty = Vec::<i32>::new().windows();
    assert_eq!(empty.next(), None);
    assert_eq!(empty.next(), None);
    let mut single = vec![7].windows();
    assert_eq!(single.next(), None);
    assert_eq!(single.next(), None);
}
