use babencoin::bst::BstSet;
use babencoin::flatmap::FlatMap;
use babencoin::lru_cache::LRUCache;
use babencoin::prefix::longest_common_prefix;

#[test]
fn flatmap_keeps_entries_sorted() {
    let mut m: FlatMap<&str> = FlatMap::new();
    assert!(m.is_empty());
    assert_eq!(m.insert(5, "five"), None);
    assert_eq!(m.insert(1, "one"), None);
    assert_eq!(m.insert(3, "three"), None);
    assert_eq!(m.insert(3, "THREE"), Some("three"));
    assert_eq!(m.len(), 3);
    assert!(m.capacity() >= 3);
    assert_eq!(m.as_slice(), &[(1, "one"), (3, "THREE"), (5, "five")]);
    assert_eq!(m.get(&3), Some(&"THREE"));
    assert_eq!(m.get(&4), None);
    assert_eq!(m.remove(&1), Some("one"));
    assert_eq!(m.remove(&1), None);
    assert_eq!(m.remove_entry(&5), Some((5, "five")));
    assert_eq!(m.as_slice(), &[(3, "THREE")]);
    let mut it = m.into_iter();
    assert_eq!(it.next(), Some((3, "THREE")));
    assert_eq!(it.next(), None);
}

#[test]
fn lru_cache_evicts_least_recently_used() {
    let mut cache: LRUCache<i32> = LRUCache::new(2);
    assert_eq!(cache.insert(1, 10), None);
    assert_eq!(cache.insert(2, 20), None);
    assert_eq!(cache.get(&1), Some(&10));
    assert_eq!(cache.insert(3, 30), None);
    assert_eq!(cache.get(&2), None);
    assert_eq!(cache.get(&1), Some(&10));
    assert_eq!(cache.get(&3), Some(&30));
    assert_eq!(cache.insert(3, 31), Some(30));
    assert_eq!(cache.insert(4, 40), None);
    assert_eq!(cache.get(&1), None);
    assert_eq!(cache.get(&3), Some(&31));
    assert_eq!(cache.get(&4), Some(&40));
}

#[test]
fn longest_common_prefix_of_words() {
    assert_eq!(longest_common_prefix(vec!["flower", "flow", "flight"]), "fl");
    assert_eq!(longest_common_prefix(vec!["dog", "racecar", "car"]), "");
    assert_eq!(longest_common_prefix(vec![]), "");
    assert_eq!(longest_common_prefix(vec!["same", "same"]), "same");
    assert_eq!(longest_common_prefix(vec!["привет", "привал"]), "прив");
    assert_eq!(longest_common_prefix(vec!["abc", ""]), "");
}

#[test]
fn bst_set_operations() {
    let mut set = BstSet::new();
    assert!(set.is_empty());
    for k in [5, 3, 8, 1, 4, 7, 9, -2] {
        assert!(set.insert(k));
    }
    assert!(!set.insert(4));
    assert_eq!(set.len(), 8);
    assert!(set.contains(7));
    assert!(!set.contains(6));
    assert!(set.remove(5));
    assert!(!set.remove(5));
    assert!(!set.contains(5));
    assert!(set.remove(3));
    assert!(set.remove(-2));
    assert_eq!(set.len(), 5);
    for k in [1, 4, 7, 8, 9] {
        assert!(set.contains(k));
    }
    for k in [1, 4, 7, 8, 9] {
        assert!(set.remove(k));
    }
    assert!(set.is_empty());
    assert_eq!(set.len(), 0);
}
