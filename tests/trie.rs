use babencoin::trie::Trie;

#[test]
fn trie_insert_get_remove() {
    let mut t: Trie<i32> = Trie::new();
    assert!(t.is_empty());
    assert_eq!(t.insert("hello", 1), None);
    assert_eq!(t.insert("help", 2), None);
    assert_eq!(t.insert("he", 3), None);
    assert_eq!(t.insert("hello", 4), Some(1));
    assert_eq!(t.len(), 3);
    assert_eq!(t.get("hello"), Some(&4));
    assert_eq!(t.get("hel"), None);
    assert!(t.contains("he"));
    assert!(!t.contains("h"));
    assert!(t.starts_with("hel"));
    assert!(t.starts_with(""));
    assert!(!t.starts_with("hex"));
    assert_eq!(t.remove("help"), Some(2));
    assert_eq!(t.remove("help"), None);
    assert!(t.starts_with("hell"));
    assert!(!t.starts_with("helpe"));
    assert_eq!(t.remove("hello"), Some(4));
    assert!(!t.starts_with("hel"));
    assert!(t.starts_with("h"));
    assert_eq!(t.len(), 1);
    assert_eq!(t.remove("he"), Some(3));
    assert!(t.is_empty());
    assert!(!t.starts_with(""));
}

#[test]
fn trie_unicode_and_empty_keys() {
    let mut t: Trie<&str> = Trie::new();
    assert_eq!(t.insert("", "root"), None);
    assert_eq!(t.insert("привет", "hi"), None);
    assert_eq!(t.get(""), Some(&"root"));
    assert_eq!(t.get("привет"), Some(&"hi"));
    assert!(t.starts_with("при"));
    assert_eq!(t.len(), 2);
}
