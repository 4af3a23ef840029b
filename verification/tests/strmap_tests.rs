use gdse::strmap::StrMap;

#[test]
fn keys_come_out_sorted() {
    let mut m: StrMap<u32> = StrMap::new();
    m.insert("pear", 1);
    m.insert("apple", 2);
    m.insert("fig", 3);
    m.insert("app", 4);
    assert_eq!(m.len(), 4);
    let keys: Vec<String> = (0..m.len()).map(|i| m.key_at(i)).collect();
    assert_eq!(keys, vec!["app", "apple", "fig", "pear"]);
    assert_eq!(*m.value_at(1), 2);
}

#[test]
fn insert_replaces_and_get_reads_back() {
    let mut m: StrMap<u32> = StrMap::new();
    m.insert("k", 1);
    m.insert("k", 9);
    assert_eq!(m.len(), 1);
    assert_eq!(m.get("k"), Some(&9));
    assert_eq!(m.get("missing"), None);
    assert!(m.contains_key("k"));
    assert!(!m.contains_key("K"));
}

#[test]
fn remove_takes_the_entry_out() {
    let mut m: StrMap<u32> = StrMap::new();
    m.insert("a", 1);
    m.insert("b", 2);
    let a: Vec<char> = "a".chars().collect();
    assert_eq!(m.remove_chars(&a), Some(1));
    assert_eq!(m.remove_chars(&a), None);
    assert_eq!(m.len(), 1);
    assert_eq!(m.key_at(0), "b");
}
