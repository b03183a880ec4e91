use lucene_segments::segment_info::StringMap;
use lucene_segments::segment_info::StringSet;

#[test]
fn map_starts_empty() {
    let map = StringMap::new();
    assert_eq!(map.len(), 0);
    assert_eq!(map.get("a"), None);
}

#[test]
fn map_keeps_the_order_of_first_insertion() {
    let mut map = StringMap::new();
    map.insert("b".to_string(), "1".to_string());
    map.insert("a".to_string(), "2".to_string());
    map.insert("c".to_string(), "3".to_string());
    assert_eq!(map.len(), 3);
    let keys: Vec<&str> = (0..map.len()).map(|i| map.entry(i).0.as_str()).collect();
    assert_eq!(keys, vec!["b", "a", "c"]);
}

#[test]
fn map_replaces_in_place() {
    let mut map = StringMap::new();
    map.insert("b".to_string(), "1".to_string());
    map.insert("a".to_string(), "2".to_string());
    map.insert("b".to_string(), "9".to_string());
    assert_eq!(map.len(), 2);
    assert_eq!(map.get("b").map(|s| s.as_str()), Some("9"));
    assert_eq!(map.get("a").map(|s| s.as_str()), Some("2"));
    let first = map.entry(0);
    assert_eq!((first.0.as_str(), first.1.as_str()), ("b", "9"));
}

#[test]
fn map_keys_are_case_sensitive() {
    let mut map = StringMap::new();
    map.insert("Key".to_string(), "1".to_string());
    map.insert("key".to_string(), "2".to_string());
    assert_eq!(map.len(), 2);
    assert_eq!(map.get("KEY"), None);
}

#[test]
fn set_starts_empty() {
    let set = StringSet::new();
    assert_eq!(set.len(), 0);
    assert!(!set.contains(""));
}

#[test]
fn set_ignores_what_it_has() {
    let mut set = StringSet::new();
    set.insert("x".to_string());
    set.insert("y".to_string());
    set.insert("x".to_string());
    set.insert(String::new());
    assert_eq!(set.len(), 3);
    assert!(set.contains("x"));
    assert!(set.contains("y"));
    assert!(set.contains(""));
    assert!(!set.contains("z"));
    assert_eq!(set.item(0), "x");
    assert_eq!(set.item(1), "y");
    assert_eq!(set.item(2), "");
}
